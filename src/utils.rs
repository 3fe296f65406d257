use vstd::arithmetic::power2::{lemma2_to64, lemma2_to64_rest, pow2};
use vstd::bits::{lemma_u64_pow2_no_overflow, lemma_u64_shl_is_mul};
use crate::text::push_char;
use vstd::prelude::*;
use vstd::std_specs::bits::{
    axiom_u64_leading_zeros,
    axiom_u64_trailing_zeros,
    u64_leading_zeros,
    u64_trailing_zeros,
};

verus! {

/// A 64-bit occupancy mask: bit `i` stands for square `i` (a1 = 0, h1 = 7, h8 = 63).
pub type Bitboard = u64;

/// Square `i` is set in `b`.
pub open spec fn has_bit(b: u64, i: int) -> bool {
    0 <= i < 64 && (b >> (i as u64)) & 1u64 == 1u64
}

/// The mask holding square `i` alone.
pub open spec fn bit_at(i: int) -> u64 {
    1u64 << (i as u64)
}

/// `i` is the lowest square set in `b`.
pub open spec fn is_lowest_bit(b: u64, i: int) -> bool {
    has_bit(b, i) && forall|j: int| 0 <= j < i ==> !has_bit(b, j)
}

/// `i` is the highest square set in `b`.
pub open spec fn is_highest_bit(b: u64, i: int) -> bool {
    has_bit(b, i) && forall|j: int| i < j < 64 ==> !has_bit(b, j)
}

/// The squares set in `b` from `i` upwards, in ascending order.
pub open spec fn bits_from(b: u64, i: int) -> Seq<usize>
    decreases 64 - i,
{
    if i < 0 || i >= 64 {
        Seq::empty()
    } else if has_bit(b, i) {
        seq![i as usize] + bits_from(b, i + 1)
    } else {
        bits_from(b, i + 1)
    }
}

/// The squares set in `b`, in ascending order.
pub open spec fn set_bits(b: u64) -> Seq<usize> {
    bits_from(b, 0)
}

/// Row and column of a board square (both counted from 1) are on the board.
pub open spec fn on_board(row: int, col: int) -> bool {
    1 <= row <= 8 && 1 <= col <= 8
}

/// The index of the square at `(row, col)`, both counted from 1.
pub open spec fn square_of(row: int, col: int) -> int {
    (row - 1) * 8 + col - 1
}

/// Row of square `i`, counted from 1.
pub open spec fn row_of(i: int) -> int {
    i / 8 + 1
}

/// Column of square `i`, counted from 1.
pub open spec fn col_of(i: int) -> int {
    i % 8 + 1
}

/// The mask of square `(row, col)`, empty when it is off the board.
pub open spec fn square_bit(row: int, col: int) -> u64 {
    if on_board(row, col) {
        bit_at(square_of(row, col))
    } else {
        0u64
    }
}

/// Bitwise operators act square by square.
pub proof fn lemma_bitwise(a: u64, b: u64, i: u64)
    by (bit_vector)
    requires
        i < 64,
    ensures
        ((a | b) >> i) & 1u64 == 1u64 <==> ((a >> i) & 1u64 == 1u64 || (b >> i) & 1u64 == 1u64),
        ((a & b) >> i) & 1u64 == 1u64 <==> ((a >> i) & 1u64 == 1u64 && (b >> i) & 1u64 == 1u64),
        ((a ^ b) >> i) & 1u64 == 1u64 <==> ((a >> i) & 1u64 == 1u64) != ((b >> i) & 1u64
            == 1u64),
        ((!a) >> i) & 1u64 == 1u64 <==> !((a >> i) & 1u64 == 1u64),
        (0u64 >> i) & 1u64 != 1u64,
{
}

/// The single-square mask holds its square and nothing else.
pub proof fn lemma_single_bit(k: u64, i: u64)
    by (bit_vector)
    requires
        k < 64,
        i < 64,
    ensures
        ((1u64 << k) >> i) & 1u64 == 1u64 <==> i == k,
        1u64 << k != 0,
{
}

pub broadcast proof fn lemma_has_bit_or(a: u64, b: u64, i: int)
    ensures
        #[trigger] has_bit(a | b, i) <==> has_bit(a, i) || has_bit(b, i),
{
    if 0 <= i < 64 {
        lemma_bitwise(a, b, i as u64);
    }
}

pub broadcast proof fn lemma_has_bit_and(a: u64, b: u64, i: int)
    ensures
        #[trigger] has_bit(a & b, i) <==> has_bit(a, i) && has_bit(b, i),
{
    if 0 <= i < 64 {
        lemma_bitwise(a, b, i as u64);
    }
}

pub broadcast proof fn lemma_has_bit_xor(a: u64, b: u64, i: int)
    ensures
        #[trigger] has_bit(a ^ b, i) <==> has_bit(a, i) != has_bit(b, i),
{
    if 0 <= i < 64 {
        lemma_bitwise(a, b, i as u64);
    }
}

pub broadcast proof fn lemma_has_bit_not(a: u64, i: int)
    ensures
        #[trigger] has_bit(!a, i) <==> 0 <= i < 64 && !has_bit(a, i),
{
    if 0 <= i < 64 {
        lemma_bitwise(a, a, i as u64);
    }
}

pub broadcast proof fn lemma_has_bit_zero(i: int)
    ensures
        !#[trigger] has_bit(0u64, i),
{
    if 0 <= i < 64 {
        lemma_bitwise(0, 0, i as u64);
    }
}

pub broadcast proof fn lemma_has_bit_single(k: int, i: int)
    requires
        0 <= k < 64,
    ensures
        #[trigger] has_bit(bit_at(k), i) <==> i == k,
        bit_at(k) != 0,
{
    if 0 <= i < 64 {
        lemma_single_bit(k as u64, i as u64);
    } else {
        lemma_single_bit(k as u64, 0);
    }
}

pub broadcast group group_bitboard {
    lemma_has_bit_or,
    lemma_has_bit_and,
    lemma_has_bit_xor,
    lemma_has_bit_not,
    lemma_has_bit_zero,
    lemma_has_bit_single,
}

/// The remainder of `2^k` modulo 67 is distinct for every `k < 64`; this table
/// gives `k` back from the remainder, and 64 where no power of two lands.
pub open spec fn mod67_table() -> Seq<usize> {
    seq![
        64, 0, 1, 39, 2, 15, 40, 23, 3, 12, 16, 59, 41, 19, 24, 54, 4, 64, 13, 10, 17, 62, 60,
        28, 42, 30, 20, 51, 25, 44, 55, 47, 5, 32, 64, 38, 14, 22, 11, 58, 18, 53, 63, 9, 61,
        27, 29, 50, 43, 46, 31, 37, 21, 57, 52, 8, 26, 49, 45, 36, 56, 7, 48, 35, 6, 34, 33,
    ]
}

proof fn lemma_mod67_table(k: nat)
    requires
        k < 64,
    ensures
        pow2(k) % 67 < 67,
        mod67_table()[(pow2(k) % 67) as int] == k,
{
    lemma2_to64();
    lemma2_to64_rest();
    assert(mod67_table().len() == 67);
    assert(k == 0 || k == 1 || k == 2 || k == 3 || k == 4 || k == 5 || k == 6 || k == 7 || k == 8
        || k == 9 || k == 10 || k == 11 || k == 12 || k == 13 || k == 14 || k == 15 || k == 16
        || k == 17 || k == 18 || k == 19 || k == 20 || k == 21 || k == 22 || k == 23 || k == 24
        || k == 25 || k == 26 || k == 27 || k == 28 || k == 29 || k == 30 || k == 31 || k == 32
        || k == 33 || k == 34 || k == 35 || k == 36 || k == 37 || k == 38 || k == 39 || k == 40
        || k == 41 || k == 42 || k == 43 || k == 44 || k == 45 || k == 46 || k == 47 || k == 48
        || k == 49 || k == 50 || k == 51 || k == 52 || k == 53 || k == 54 || k == 55 || k == 56
        || k == 57 || k == 58 || k == 59 || k == 60 || k == 61 || k == 62 || k == 63);
}

proof fn lemma_isolate_lowest(b: u64, m: u64, k: u64)
    by (bit_vector)
    requires
        b != 0,
        m == b - 1,
        k < 64,
        (b >> k) & 1u64 == 1u64,
        b << vstd::prelude::sub(64u64, k) == 0u64,
    ensures
        (b ^ m) ^ (!b & m) == 1u64 << k,
{
}

/// Index of the lowest set square of a non-empty mask, found by a perfect hash of
/// the isolated lowest bit modulo 67.
pub fn bit_scan(bit: u64) -> (r: usize)
    requires
        bit != 0,
    ensures
        r < 64,
        is_lowest_bit(bit, r as int),
{
    let m = bit - 1;
    let one_bit = (bit ^ m) ^ (!bit & m);
    let ghost k = u64_trailing_zeros(bit) as u64;
    proof {
        axiom_u64_trailing_zeros(bit);
        lemma_isolate_lowest(bit, m, k);
        lemma_u64_pow2_no_overflow(k as nat);
        lemma_u64_shl_is_mul(1u64, k);
        lemma_mod67_table(k as nat);
        assert forall|j: int| 0 <= j < k implies !has_bit(bit, j) by {
            assert((bit >> (j as u64)) & 1u64 == 0u64);
        }
    }
    let remainder = (one_bit % 67) as usize;
    let table: [usize; 67] = [
        64, 0, 1, 39, 2, 15, 40, 23, 3, 12, 16, 59, 41, 19, 24, 54, 4, 64, 13, 10, 17, 62, 60,
        28, 42, 30, 20, 51, 25, 44, 55, 47, 5, 32, 64, 38, 14, 22, 11, 58, 18, 53, 63, 9, 61,
        27, 29, 50, 43, 46, 31, 37, 21, 57, 52, 8, 26, 49, 45, 36, 56, 7, 48, 35, 6, 34, 33,
    ];
    assert(table@ == mod67_table());
    table[remainder]
}

/// Index of the highest set square of a non-empty mask.
pub fn bit_scan_backwards(bit: u64) -> (r: usize)
    requires
        bit != 0,
    ensures
        r < 64,
        is_highest_bit(bit, r as int),
{
    let zeros = bit.leading_zeros();
    proof {
        axiom_u64_leading_zeros(bit);
        assert forall|j: int| (63 - zeros) < j < 64 implies !has_bit(bit, j) by {
            assert((bit >> (j as u64)) & 1u64 == 0u64);
        }
        assert((bit >> vstd::prelude::sub(63u64, zeros as u64)) & 1u64 != 0u64);
        let t = (bit >> vstd::prelude::sub(63u64, zeros as u64));
        assert(t & 1u64 != 0u64 ==> t & 1u64 == 1u64) by (bit_vector);
    }
    (63 - zeros) as usize
}


proof fn lemma_bits_from_agree(a: u64, b: u64, i: int)
    requires
        forall|j: int| i <= j < 64 ==> has_bit(a, j) == has_bit(b, j),
    ensures
        bits_from(a, i) == bits_from(b, i),
    decreases 64 - i,
{
    if 0 <= i < 64 {
        lemma_bits_from_agree(a, b, i + 1);
    } else if i < 0 {
    }
}

proof fn lemma_bits_from_skip(b: u64, i: int, k: int)
    requires
        0 <= i <= k <= 64,
        forall|j: int| i <= j < k ==> !has_bit(b, j),
    ensures
        bits_from(b, i) == bits_from(b, k),
    decreases k - i,
{
    if i < k {
        lemma_bits_from_skip(b, i + 1, k);
    }
}

proof fn lemma_clear_bit_smaller(b: u64, k: u64)
    by (bit_vector)
    requires
        k < 64,
        (b >> k) & 1u64 == 1u64,
    ensures
        b ^ (1u64 << k) < b,
{
}

/// Removing the lowest square of `b` removes the first entry of its ascending list.
proof fn lemma_clear_lowest(b: u64, k: int)
    requires
        0 <= k < 64,
        is_lowest_bit(b, k),
    ensures
        set_bits(b) == seq![k as usize] + set_bits(b ^ bit_at(k)),
        b ^ bit_at(k) < b,
{
    broadcast use group_bitboard;

    let c = b ^ bit_at(k);
    lemma_bits_from_skip(b, 0, k);
    lemma_bits_from_skip(c, 0, k + 1);
    lemma_bits_from_agree(c, b, k + 1);
    lemma_clear_bit_smaller(b, k as u64);
}

/// The list of squares of `b` from `i` holds exactly the squares of `b` at or above
/// `i`, each once, in strictly ascending order.
proof fn lemma_bits_from_props(b: u64, i: int)
    requires
        0 <= i <= 64,
    ensures
        forall|x: int, y: int|
            0 <= x < y < bits_from(b, i).len() ==> bits_from(b, i)[x] < bits_from(b, i)[y],
        forall|x: int| 0 <= x < bits_from(b, i).len() ==> i <= #[trigger] bits_from(b, i)[x] < 64,
        forall|j: int| i <= j < 64 ==> (has_bit(b, j) <==> bits_from(b, i).contains(j as usize)),
    decreases 64 - i,
{
    if i < 64 {
        lemma_bits_from_props(b, i + 1);
        let rest = bits_from(b, i + 1);
        if has_bit(b, i) {
            let s = seq![i as usize] + rest;
            assert(bits_from(b, i) == s);
            assert forall|x: int| 0 <= x < s.len() implies i <= #[trigger] s[x] < 64 by {
                if x > 0 {
                    assert(s[x] == rest[x - 1]);
                }
            }
            assert forall|x: int, y: int| 0 <= x < y < s.len() implies s[x] < s[y] by {
                assert(s[y] == rest[y - 1]);
                if x > 0 {
                    assert(s[x] == rest[x - 1]);
                }
            }
            assert forall|j: int| i <= j < 64 implies (has_bit(b, j) <==> s.contains(j as usize)) by {
                if j == i {
                    assert(s[0] == i as usize);
                } else {
                    if s.contains(j as usize) {
                        let x = choose|x: int| 0 <= x < s.len() && s[x] == j as usize;
                        assert(x != 0);
                        assert(rest[x - 1] == j as usize);
                    }
                    if rest.contains(j as usize) {
                        let x = choose|x: int| 0 <= x < rest.len() && rest[x] == j as usize;
                        assert(s[x + 1] == j as usize);
                    }
                }
            }
        } else {
            assert forall|j: int| i <= j < 64 implies (has_bit(b, j) <==> rest.contains(j as usize)) by {
                if j == i && rest.contains(j as usize) {
                    let x = choose|x: int| 0 <= x < rest.len() && rest[x] == j as usize;
                }
            }
        }
    }
}

/// The squares of a mask, listed by `set_bits`, come in strictly ascending order,
/// and taken together give back the mask exactly: a square is listed if and only
/// if it is set.
pub proof fn lemma_set_bits_ascending_and_exact(b: u64)
    ensures
        forall|x: int, y: int|
            0 <= x < y < set_bits(b).len() ==> set_bits(b)[x] < set_bits(b)[y],
        forall|x: int| 0 <= x < set_bits(b).len() ==> set_bits(b)[x] < 64,
        forall|j: int| 0 <= j < 64 ==> (has_bit(b, j) <==> set_bits(b).contains(j as usize)),
{
    lemma_bits_from_props(b, 0);
}

/// The indices of all set squares, in ascending order.
pub fn extract_bits(bits: u64) -> (r: Vec<usize>)
    ensures
        r@ == set_bits(bits),
        forall|x: int, y: int| 0 <= x < y < r@.len() ==> r@[x] < r@[y],
        forall|j: int| 0 <= j < 64 ==> (has_bit(bits, j) <==> r@.contains(j as usize)),
{
    let mut result: Vec<usize> = Vec::new();
    let mut rest: u64 = bits;
    while rest != 0
        invariant
            result@ + set_bits(rest) == set_bits(bits),
        decreases rest,
    {
        let next_bit = bit_scan(rest);
        proof {
            lemma_clear_lowest(rest, next_bit as int);
            assert(result@.push(next_bit) + set_bits(rest ^ bit_at(next_bit as int)) == result@ + (
            seq![next_bit] + set_bits(rest ^ bit_at(next_bit as int))));
        }
        result.push(next_bit);
        rest = rest ^ (1u64 << (next_bit as u64));
    }
    proof {
        broadcast use group_bitboard;

        lemma_bits_from_skip(0, 0, 64);
        assert(set_bits(0) == Seq::<usize>::empty());
        assert(result@ == set_bits(bits));
        lemma_set_bits_ascending_and_exact(bits);
    }
    result
}

/// The index of `(row, col)`, both counted from 1, or `None` off the board.
pub fn index(row: i32, col: i32) -> (r: Option<usize>)
    ensures
        r is Some <==> on_board(row as int, col as int),
        r is Some ==> r->0 == square_of(row as int, col as int) && r->0 < 64,
{
    if row < 1 || row > 8 || col < 1 || col > 8 {
        return None;
    }
    Some(((row - 1) * 8 + col - 1) as usize)
}

/// Row and column of a square, both counted from 1.
pub fn rowcol(index: usize) -> (r: (i32, i32))
    requires
        index < 64,
    ensures
        r.0 == row_of(index as int),
        r.1 == col_of(index as int),
        on_board(r.0 as int, r.1 as int),
        square_of(r.0 as int, r.1 as int) == index,
{
    let row = index / 8 + 1;
    let col = index % 8 + 1;
    (row as i32, col as i32)
}

/// The mask of `(row, col)`, both counted from 1; empty off the board.
pub fn set_bit(row: i32, col: i32) -> (r: Bitboard)
    ensures
        r == square_bit(row as int, col as int),
{
    if row < 1 || row > 8 || col < 1 || col > 8 {
        return 0;
    }
    1u64 << (((col - 1) + (row - 1) * 8) as u64)
}

/// The lowest square set in a non-empty mask.
pub open spec fn lowest_bit(b: u64) -> int {
    choose|i: int| is_lowest_bit(b, i)
}

/// The highest square set in a non-empty mask.
pub open spec fn highest_bit(b: u64) -> int {
    choose|i: int| is_highest_bit(b, i)
}

pub proof fn lemma_lowest_unique(b: u64, i: int)
    requires
        is_lowest_bit(b, i),
    ensures
        lowest_bit(b) == i,
{
    let j = lowest_bit(b);
    assert(is_lowest_bit(b, j));
    if j < i {
    } else if i < j {
    }
}

pub proof fn lemma_highest_unique(b: u64, i: int)
    requires
        is_highest_bit(b, i),
    ensures
        highest_bit(b) == i,
{
    let j = highest_bit(b);
    assert(is_highest_bit(b, j));
    if j < i {
    } else if i < j {
    }
}

/// A one-square mask names its square.
pub proof fn lemma_mask_square(k: int)
    requires
        0 <= k < 64,
    ensures
        lowest_bit(bit_at(k)) == k,
        bit_at(k) != 0,
{
    broadcast use group_bitboard;

    assert(has_bit(bit_at(k), k));
    lemma_lowest_unique(bit_at(k), k);
}

/// The character that shows square `i` of `b`: `X` for the marked square, `1`
/// for a set square, `.` otherwise.
pub open spec fn bit_char(b: u64, mark: Option<usize>, i: int) -> char {
    if mark == Some(i as usize) {
        'X'
    } else if has_bit(b, i) {
        '1'
    } else {
        '.'
    }
}

/// The characters of the first `file` squares of rank `rank` (0 for the first).
pub open spec fn bit_rank_text(b: u64, mark: Option<usize>, rank: int, file: int) -> Seq<char>
    decreases file,
{
    if file <= 0 {
        Seq::empty()
    } else {
        bit_rank_text(b, mark, rank, file - 1).push(bit_char(b, mark, rank * 8 + file - 1))
    }
}

/// The top `n` ranks of the mask drawn as text, rank 8 first, one line each.
pub open spec fn bitboard_text(b: u64, mark: Option<usize>, n: int) -> Seq<char>
    decreases n,
{
    if n <= 0 {
        Seq::empty()
    } else {
        bitboard_text(b, mark, n - 1) + bit_rank_text(b, mark, 8 - n, 8) + seq!['\n']
    }
}

/// The mask drawn as eight lines, rank 8 first: `1` for a set square, `.` for
/// another, and `X` for the square `mark` names.
pub fn bitboard_to_string(bitboard: Bitboard, mark: Option<usize>) -> (r: String)
    ensures
        r@ == bitboard_text(bitboard, mark, 8),
{
    let mut board = String::new();
    for n in 0..8usize
        invariant
            board@ == bitboard_text(bitboard, mark, n as int),
    {
        let rank = 7 - n;
        let ghost line_start = board@;
        for file in 0..8usize
            invariant
                rank == 7 - n,
                n < 8,
                board@ == line_start + bit_rank_text(bitboard, mark, rank as int, file as int),
        {
            let i = rank * 8 + file;
            let value = (bitboard >> (i as u64)) & 1;
            let c = if mark == Some(i) {
                'X'
            } else if value == 1 {
                '1'
            } else {
                '.'
            };
            push_char(&mut board, c);
            proof {
                assert(board@ =~= line_start + bit_rank_text(bitboard, mark, rank as int, file + 1));
            }
        }
        push_char(&mut board, '\n');
        proof {
            assert(board@ =~= bitboard_text(bitboard, mark, n + 1));
        }
    }
    board
}

/// A non-empty mask has a lowest and a highest square.
pub proof fn lemma_extreme_bits_exist(b: u64)
    requires
        b != 0,
    ensures
        is_lowest_bit(b, lowest_bit(b)),
        is_highest_bit(b, highest_bit(b)),
{
    let k = u64_trailing_zeros(b) as u64;
    axiom_u64_trailing_zeros(b);
    assert forall|j: int| 0 <= j < k implies !has_bit(b, j) by {
        assert((b >> (j as u64)) & 1u64 == 0u64);
    }
    assert(is_lowest_bit(b, k as int));
    let zeros = u64_leading_zeros(b);
    axiom_u64_leading_zeros(b);
    assert forall|j: int| (63 - zeros) < j < 64 implies !has_bit(b, j) by {
        assert((b >> (j as u64)) & 1u64 == 0u64);
    }
    let t = (b >> vstd::prelude::sub(63u64, zeros as u64));
    assert(t & 1u64 != 0u64 ==> t & 1u64 == 1u64) by (bit_vector);
    assert(is_highest_bit(b, 63 - zeros));
}

/// Scanning a one-square mask gives its square back: the lowest set square of
/// `1 << s` is `s`, so `bit_scan(1 << s) == s` for every square `s`.
pub proof fn lemma_bit_scan_of_single_square(s: int, r: int)
    requires
        0 <= s < 64,
        is_lowest_bit(bit_at(s), r),
    ensures
        r == s,
{
    broadcast use group_bitboard;

    assert(has_bit(bit_at(s), r));
}

} // verus!
