use bitchess::text::split_on;
use bitchess::utils::{
    bit_scan, bit_scan_backwards, bitboard_to_string, extract_bits, index, rowcol, set_bit,
};

#[test]
fn split_on_space_works() {
    let test_string = "A B C D";
    let (should_be_a, rest) = split_on(test_string, ' ');
    assert_eq!(should_be_a, "A");
    assert_eq!(rest, "B C D");
}

#[test]
fn split_on_ascii_works() {
    for i in 0..128u8 {
        let ch = char::from(i);
        if ch == 'A' {
            continue;
        }
        let test_string = format!("AA{}BB{}CC{}DD", ch, ch, ch);
        let (should_be_a, rest) = split_on(&test_string, ch);
        assert_eq!(should_be_a, "AA", "{},{}, {}", test_string, ch, i);
        assert_eq!(rest, format!("BB{}CC{}DD", ch, ch));
    }
}

#[test]
fn split_on_without_separator_keeps_everything() {
    let (first, rest) = split_on("abc", ' ');
    assert_eq!(first, "abc");
    assert_eq!(rest, "");
    let (first, rest) = split_on("", ' ');
    assert_eq!(first, "");
    assert_eq!(rest, "");
}

#[test]
fn bit_scan_works() {
    for i in 0..64 {
        let bit = (1 as u64) << i;
        let index = bit_scan(bit);

        assert_eq!(i, index);
    }
}

#[test]
fn test_bit_scan_with_multiple_bits() {
    for lowest_bit in 0..64 {
        let mut bit: u64 = 1 << lowest_bit;

        for other_bit in (lowest_bit + 1)..64 {
            if (other_bit + 37) % 3 != 0 {
                bit |= 1 << other_bit;
            }
        }

        let bit_scan_result = bit_scan(bit);
        assert_eq!(lowest_bit, bit_scan_result);
    }
}

#[test]
fn test_bit_scan_backward_with_multiple_bits() {
    for highest_bit in 0..64 {
        let mut bit: u64 = 1 << highest_bit;

        for other_bit in 0..highest_bit {
            if (other_bit + 37) % 3 != 0 {
                bit |= 1 << other_bit;
            }
        }

        let bit_scan_result = bit_scan_backwards(bit);
        assert_eq!(highest_bit, bit_scan_result);
    }
}

#[test]
fn bit_scan_backwards_single_bits() {
    for i in 0..64 {
        assert_eq!(bit_scan_backwards(1u64 << i), i);
    }
    assert_eq!(bit_scan_backwards(u64::MAX), 63);
}

#[test]
fn test_extract_bits() {
    let input: u64 = 1 << 2 | 1 << 5 | 1 << 55;
    let output = extract_bits(input);

    assert_eq!(output, vec![2, 5, 55]);
}

#[test]
fn extract_bits_of_empty_and_full_masks() {
    assert_eq!(extract_bits(0), Vec::<usize>::new());
    assert_eq!(extract_bits(u64::MAX), (0..64).collect::<Vec<usize>>());
    assert_eq!(extract_bits(1 << 63), vec![63]);
}

#[test]
fn extract_bits_is_ascending_and_rebuilds_the_mask() {
    let inputs: [u64; 4] = [0x8000_0000_0000_0001, 0x0123_4567_89ab_cdef, 0xf0f0_0f0f_1234_8000, 7];
    for input in inputs {
        let output = extract_bits(input);
        for w in output.windows(2) {
            assert!(w[0] < w[1]);
        }
        let mut rebuilt: u64 = 0;
        for i in &output {
            rebuilt |= 1u64 << i;
        }
        assert_eq!(rebuilt, input);
    }
}

#[test]
fn test_index_correct() {
    let result = index(5, 4);
    assert_eq!(result, Some(4 * 8 + 3));
}

#[test]
fn test_index_out_of_bounds() {
    let result = index(-1, 4);
    assert_eq!(result, None);

    let result = index(9, 2);
    assert_eq!(result, None);
}

#[test]
fn index_at_the_corners() {
    assert_eq!(index(1, 1), Some(0));
    assert_eq!(index(1, 8), Some(7));
    assert_eq!(index(8, 1), Some(56));
    assert_eq!(index(8, 8), Some(63));
    assert_eq!(index(0, 1), None);
    assert_eq!(index(1, 0), None);
    assert_eq!(index(1, 9), None);
}

#[test]
fn test_rowcol_to_index() {
    let row = 4;
    let col = 7;

    let index = index(row, col).unwrap();
    let (new_row, new_col) = rowcol(index);

    assert_eq!(row, new_row);
    assert_eq!(col, new_col);
}

#[test]
fn set_bit_on_and_off_the_board() {
    assert_eq!(set_bit(1, 1), 1);
    assert_eq!(set_bit(3, 5), 1 << 20);
    assert_eq!(set_bit(8, 8), 1 << 63);
    assert_eq!(set_bit(0, 3), 0);
    assert_eq!(set_bit(3, 9), 0);
}

#[test]
fn bitboard_drawing() {
    let text = bitboard_to_string(1 << 0 | 1 << 63, Some(9));
    let expected = "\
.......1
........
........
........
........
........
.X......
1.......
";
    assert_eq!(text, expected);
}
