use bitchess::knightattacks::KnightAttacks;

#[test]
fn test_knight_attacks_can_initialize() {
    let knight_attacks = KnightAttacks::new();
    assert_eq!(knight_attacks.0.len(), 64);
}

#[test]
fn check_knight_attacks() {
    let knight_attacks = KnightAttacks::new();
    let expected_0: u64 = 1 << 10 | 1 << 17;
    assert_eq!(knight_attacks.0[0], expected_0);
    let expected_40: u64 = 1 << 25 | 1 << 34 | 1 << 50 | 1 << 57;
    assert_eq!(knight_attacks.0[40], expected_40);
    let expected_18: u64 =
        1 << 1 | 1 << 3 | 1 << 12 | 1 << 8 | 1 << 28 | 1 << 24 | 1 << 35 | 1 << 33;
    assert_eq!(knight_attacks.0[18], expected_18);
}

#[test]
fn knight_attacks_in_the_far_corner() {
    let knight_attacks = KnightAttacks::new();
    assert_eq!(knight_attacks.0[63], 1u64 << 53 | 1u64 << 46);
    assert_eq!(knight_attacks.0[27].count_ones(), 8);
}
