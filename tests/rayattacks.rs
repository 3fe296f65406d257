use bitchess::rayattacks::{blocked_ray_attack, Rays};
use bitchess::utils::Bitboard;

fn get_occupancy_1() -> (Bitboard, Bitboard) {
    let mut own_occupancy = 0;
    for i in 0..16 {
        if i == 5 {
            continue;
        }
        own_occupancy |= 1 << i;
    }
    own_occupancy |= 1 << 22;

    let mut enemy_occupancy = 0;
    for i in 48..64 {
        if i == 57 || i == 49 {
            continue;
        }
        enemy_occupancy |= 1 << i;
    }
    enemy_occupancy |= 1 << 41;
    enemy_occupancy |= 1 << 42;
    (own_occupancy, enemy_occupancy)
}

fn get_occupancy_2() -> (Bitboard, Bitboard) {
    let mut own_occupancy = 0;
    for i in 32..48 {
        if i % 3 == 0 || i == 41 {
            continue;
        }
        own_occupancy |= 1 << i;
    }

    let mut enemy_occupancy = 0;
    for i in 48..64 {
        if i == 57 || i == 49 {
            continue;
        }
        enemy_occupancy |= 1 << i;
    }
    enemy_occupancy |= 1 << 41;
    enemy_occupancy |= 1 << 42;
    assert!(own_occupancy & enemy_occupancy == 0);

    (own_occupancy, enemy_occupancy)
}

fn get_occupancy_3() -> (Bitboard, Bitboard) {
    let mut own_occupancy = 0;
    for i in 16..32 {
        if i % 3 == 0 || i == 25 {
            continue;
        }
        own_occupancy |= 1 << i;
    }

    let mut enemy_occupancy = 0;
    for i in 32..48 {
        if i == 41 || i == 33 {
            continue;
        }
        enemy_occupancy |= 1 << i;
    }
    enemy_occupancy |= 1 << 25;
    enemy_occupancy |= 1 << 26;
    enemy_occupancy &= !own_occupancy;
    assert!(own_occupancy & enemy_occupancy == 0);

    (own_occupancy, enemy_occupancy)
}

#[test]
fn test_ray() {
    let rays = Rays::new();
    let row = 6;
    let col = 7;
    let idx = (row - 1) * 8 + col - 1;

    let mut expected_sw_6_7: Bitboard = 0;
    for i in 1..=8 {
        if col > i && row > i {
            expected_sw_6_7 |= 1 << ((col - i - 1) + (row - i - 1) * 8);
        }
    }
    assert_eq!(rays.sw_rays[idx], expected_sw_6_7);

    let mut expected_w_6_7: Bitboard = 0;
    for i in 1..=8 {
        if col > i {
            expected_w_6_7 |= 1 << ((col - i - 1) + (row - 1) * 8);
        }
    }
    assert_eq!(rays.w_rays[idx], expected_w_6_7);

    let mut expected_ne_6_7: Bitboard = 0;
    for i in 1..=8 {
        if col + i <= 8 && row + i <= 8 {
            expected_ne_6_7 |= 1 << ((col + i - 1) + (row + i - 1) * 8);
        }
    }
    assert_eq!(rays.ne_rays[idx], expected_ne_6_7);
}

#[test]
fn test_blocked_ray() {
    let (own_occupancy, enemy_occupancy) = get_occupancy_1();
    let rays = Rays::new();
    let row = 5;
    let col = 5;
    let idx = (row - 1) * 8 + col - 1;

    let blocked_attack = blocked_ray_attack(
        rays.nw_rays[idx],
        &rays.nw_rays,
        true,
        own_occupancy,
        enemy_occupancy,
    );
    assert_eq!(blocked_attack, 1 << (idx + 7) | 1 << (idx + 14));

    let blocked_attack = blocked_ray_attack(
        rays.nw_rays[idx],
        &rays.nw_rays,
        true,
        enemy_occupancy,
        own_occupancy,
    );
    assert_eq!(blocked_attack, 1 << (idx + 7));
}

#[test]
fn test_blocked_ray_several_layers() {
    let (own_occupancy, enemy_occupancy) = get_occupancy_2();
    let rays = Rays::new();
    let row = 5;
    let col = 5;
    let idx = (row - 1) * 8 + col - 1;

    let blocked_attack = blocked_ray_attack(
        rays.nw_rays[idx],
        &rays.nw_rays,
        true,
        own_occupancy,
        enemy_occupancy,
    );
    assert_eq!(blocked_attack, 0);

    let blocked_attack = blocked_ray_attack(
        rays.nw_rays[idx],
        &rays.nw_rays,
        true,
        enemy_occupancy,
        own_occupancy,
    );
    assert_eq!(blocked_attack, 1 << (idx + 7));
}

#[test]
fn test_blocked_backward_ray_several_layers() {
    let (own_occupancy, enemy_occupancy) = get_occupancy_3();

    let rays = Rays::new();
    let row = 7;
    let col = 2;
    let idx = (row - 1) * 8 + col - 1;

    let blocked_attack = blocked_ray_attack(
        rays.s_rays[idx],
        &rays.s_rays,
        false,
        own_occupancy,
        enemy_occupancy,
    );
    assert_eq!(
        blocked_attack,
        1 << ((2 - 1) + (4 - 1) * 8)
            | 1 << ((2 - 1) + (5 - 1) * 8)
            | 1 << ((2 - 1) + (6 - 1) * 8)
    );

    let blocked_attack = blocked_ray_attack(
        rays.s_rays[idx],
        &rays.s_rays,
        true,
        enemy_occupancy,
        own_occupancy,
    );
    assert_eq!(
        blocked_attack,
        1 << ((2 - 1) + (5 - 1) * 8) | 1 << ((2 - 1) + (6 - 1) * 8)
    );
}

#[test]
fn blocked_ray_without_blockers_is_the_full_ray() {
    let rays = Rays::new();
    let full = rays.n_rays[4];
    assert_eq!(full, 0x1010_1010_1010_1000);
    assert_eq!(blocked_ray_attack(full, &rays.n_rays, true, 0, 0), full);
}

#[test]
fn blocked_ray_stops_on_enemy_and_before_own() {
    let rays = Rays::new();
    // North from e1 (4): e2 = 12, e3 = 20, e4 = 28 ...
    let full = rays.n_rays[4];
    let enemy_e4: u64 = 1 << 28;
    assert_eq!(
        blocked_ray_attack(full, &rays.n_rays, true, 0, enemy_e4),
        1 << 12 | 1 << 20 | 1 << 28
    );
    assert_eq!(blocked_ray_attack(full, &rays.n_rays, true, enemy_e4, 0), 1 << 12 | 1 << 20);
    // An own piece in front of an enemy one, and the other way round.
    assert_eq!(
        blocked_ray_attack(full, &rays.n_rays, true, 1 << 20, 1 << 36),
        1 << 12
    );
    assert_eq!(
        blocked_ray_attack(full, &rays.n_rays, true, 1 << 36, 1 << 20),
        1 << 12 | 1 << 20
    );
    // Backward: south-west from h8 (63): g7 = 54, f6 = 45, e5 = 36 ...
    let sw = rays.sw_rays[63];
    assert_eq!(
        blocked_ray_attack(sw, &rays.sw_rays, false, 1 << 36, 1 << 27),
        1 << 54 | 1 << 45
    );
    assert_eq!(
        blocked_ray_attack(sw, &rays.sw_rays, false, 1 << 27, 1 << 45),
        1 << 54 | 1 << 45
    );
}
