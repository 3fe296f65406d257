use crate::utils::{
    bit_at, bit_scan, bit_scan_backwards, col_of, group_bitboard, has_bit, highest_bit,
    lemma_extreme_bits_exist, lemma_has_bit_single, lemma_highest_unique, lemma_lowest_unique,
    lowest_bit, on_board, row_of, rowcol, set_bit, square_bit, square_of, Bitboard,
};
use vstd::prelude::*;

verus! {

/// The squares reached from `(row, col)` in `n` or fewer steps of `(dr, dc)`; steps
/// that leave the board add nothing.
pub open spec fn ray_steps(row: int, col: int, dr: int, dc: int, n: nat) -> u64
    decreases n,
{
    if n == 0 {
        0u64
    } else {
        ray_steps(row, col, dr, dc, (n - 1) as nat) | square_bit(row + n * dr, col + n * dc)
    }
}

/// The unobstructed ray from square `sq` in direction `(dr, dc)`.
pub open spec fn ray_mask(sq: int, dr: int, dc: int) -> u64 {
    ray_steps(row_of(sq), col_of(sq), dr, dc, 7)
}

/// A compass direction: one step changes the row by `dr` and the column by `dc`.
pub open spec fn is_direction(dr: int, dc: int) -> bool {
    -1 <= dr <= 1 && -1 <= dc <= 1 && (dr != 0 || dc != 0)
}

/// Moving in a forward direction (N, NE, E, NW) raises the square index.
pub open spec fn is_forward(dr: int, dc: int) -> bool {
    8 * dr + dc > 0
}

/// `table` holds, for each of the 64 origins, the ray in direction `(dr, dc)`.
pub open spec fn is_ray_table(table: Seq<u64>, dr: int, dc: int) -> bool {
    table.len() == 64 && forall|i: int| 0 <= i < 64 ==> #[trigger] table[i] == ray_mask(i, dr, dc)
}

/// The ray table of direction `(dr, dc)`, as a sequence.
pub open spec fn ray_table(dr: int, dc: int) -> Seq<u64> {
    Seq::new(64, |i: int| ray_mask(i, dr, dc))
}

/// The eight ray tables, one per compass direction.
pub struct Rays {
    pub n_rays: Vec<Bitboard>,
    pub e_rays: Vec<Bitboard>,
    pub nw_rays: Vec<Bitboard>,
    pub ne_rays: Vec<Bitboard>,
    pub w_rays: Vec<Bitboard>,
    pub s_rays: Vec<Bitboard>,
    pub sw_rays: Vec<Bitboard>,
    pub se_rays: Vec<Bitboard>,
}

impl Rays {
    /// Every table holds the rays of its direction.
    pub open spec fn wf(&self) -> bool {
        &&& is_ray_table(self.n_rays@, 1, 0)
        &&& is_ray_table(self.e_rays@, 0, 1)
        &&& is_ray_table(self.nw_rays@, 1, -1)
        &&& is_ray_table(self.ne_rays@, 1, 1)
        &&& is_ray_table(self.w_rays@, 0, -1)
        &&& is_ray_table(self.s_rays@, -1, 0)
        &&& is_ray_table(self.sw_rays@, -1, -1)
        &&& is_ray_table(self.se_rays@, -1, 1)
    }

    pub fn new() -> (r: Self)
        ensures
            r.wf(),
    {
        Rays {
            n_rays: make_rays(1, 0),
            e_rays: make_rays(0, 1),
            nw_rays: make_rays(1, -1),
            ne_rays: make_rays(1, 1),
            w_rays: make_rays(0, -1),
            s_rays: make_rays(-1, 0),
            sw_rays: make_rays(-1, -1),
            se_rays: make_rays(-1, 1),
        }
    }
}

/// The table of rays in direction `(dr, dc)` for all 64 origins.
fn make_rays(dr: i32, dc: i32) -> (r: Vec<Bitboard>)
    requires
        is_direction(dr as int, dc as int),
    ensures
        is_ray_table(r@, dr as int, dc as int),
{
    let mut rays: Vec<Bitboard> = Vec::new();
    for i in 0..64usize
        invariant
            is_direction(dr as int, dc as int),
            rays@.len() == i,
            forall|j: int| 0 <= j < i ==> #[trigger] rays@[j] == ray_mask(j, dr as int, dc as int),
    {
        let (row, col) = rowcol(i);
        rays.push(ray(row, col, dr, dc));
    }
    rays
}

/// The ray from `(row, col)` in direction `(dr, dc)`, up to seven steps.
fn ray(row: i32, col: i32, dr: i32, dc: i32) -> (r: Bitboard)
    requires
        on_board(row as int, col as int),
        is_direction(dr as int, dc as int),
    ensures
        r == ray_steps(row as int, col as int, dr as int, dc as int, 7),
{
    let mut bitboard: u64 = 0;
    let mut offset: i32 = 1;
    while offset <= 7
        invariant
            1 <= offset <= 8,
            on_board(row as int, col as int),
            is_direction(dr as int, dc as int),
            bitboard == ray_steps(row as int, col as int, dr as int, dc as int, (offset - 1) as nat),
        decreases 8 - offset,
    {
        assert(-7 <= offset * dr <= 7 && -7 <= offset * dc <= 7) by (nonlinear_arith)
            requires
                1 <= offset <= 7,
                -1 <= dr <= 1,
                -1 <= dc <= 1,
        ;
        bitboard = bitboard | set_bit(row + offset * dr, col + offset * dc);
        offset += 1;
    }
    bitboard
}

/// The nearest square of `occupancy` on `ray`: the lowest for a forward ray, the
/// highest for a backward one; `None` when they do not meet.
pub open spec fn nearest_hit(ray: u64, forward: bool, occupancy: u64) -> Option<int> {
    if ray & occupancy == 0 {
        None
    } else if forward {
        Some(lowest_bit(ray & occupancy))
    } else {
        Some(highest_bit(ray & occupancy))
    }
}

/// The ray cut at its first blocker: a ray whose blockers start at `x` loses the
/// tail `family[x]` beyond `x`, and `x` too where `x` holds an own piece.
pub open spec fn blocked_ray(
    ray: u64,
    family: Seq<u64>,
    forward: bool,
    own_occupancy: u64,
    enemy_occupancy: u64,
) -> u64 {
    match (
        nearest_hit(ray, forward, own_occupancy),
        nearest_hit(ray, forward, enemy_occupancy),
    ) {
        (None, None) => ray,
        (None, Some(e)) => ray ^ family[e],
        (Some(o), None) => ray ^ (family[o] | bit_at(o)),
        (Some(o), Some(e)) => ray ^ ((family[o] | bit_at(o)) | family[e]),
    }
}

fn first_hit(ray: Bitboard, forward_ray: bool, occupancy: Bitboard) -> (r: Option<usize>)
    ensures
        r is Some <==> nearest_hit(ray, forward_ray, occupancy) is Some,
        r is Some ==> r->0 < 64 && r->0 == nearest_hit(ray, forward_ray, occupancy)->0,
{
    let intersection = ray & occupancy;
    if intersection == 0 {
        None
    } else if forward_ray {
        let i = bit_scan(intersection);
        proof {
            lemma_lowest_unique(intersection, i as int);
        }
        Some(i)
    } else {
        let i = bit_scan_backwards(intersection);
        proof {
            lemma_highest_unique(intersection, i as int);
        }
        Some(i)
    }
}

/// The attack of a sliding piece along `ray`, taken from table `ray_family`, cut
/// at the first piece in its way; an enemy blocker's square is kept, an own one's
/// is not.
pub fn blocked_ray_attack(
    ray: Bitboard,
    ray_family: &Vec<Bitboard>,
    forward_ray: bool,
    own_occupancy: Bitboard,
    enemy_occupancy: Bitboard,
) -> (r: Bitboard)
    requires
        ray_family@.len() == 64,
    ensures
        r == blocked_ray(ray, ray_family@, forward_ray, own_occupancy, enemy_occupancy),
{
    let enemy_overlap = ray & enemy_occupancy;
    let own_overlap = ray & own_occupancy;
    let first_own_hit = first_hit(ray, forward_ray, own_overlap);
    let first_enemy_hit = first_hit(ray, forward_ray, enemy_overlap);
    proof {
        assert(ray & (ray & own_occupancy) == ray & own_occupancy) by (bit_vector);
        assert(ray & (ray & enemy_occupancy) == ray & enemy_occupancy) by (bit_vector);
    }
    match (first_own_hit, first_enemy_hit) {
        (None, None) => ray,
        (None, Some(idx)) => ray ^ ray_family[idx],
        (Some(idx), None) => ray ^ (ray_family[idx] | (1u64 << (idx as u64))),
        (Some(own_idx), Some(en_idx)) => {
            let own_after = ray_family[own_idx];
            let en_after = ray_family[en_idx];
            ray ^ ((own_after | (1u64 << (own_idx as u64))) | en_after)
        },
    }
}

/// `u` comes before `t` walking away from the origin: lower for a forward ray,
/// higher for a backward one.
pub open spec fn nearer(forward: bool, u: int, t: int) -> bool {
    if forward {
        u < t
    } else {
        u > t
    }
}

/// The square `k` steps from `(row, col)` in direction `(dr, dc)` is on the board.
pub open spec fn step_on_board(row: int, col: int, dr: int, dc: int, k: int) -> bool {
    on_board(row + k * dr, col + k * dc)
}

/// The square `k` steps from `(row, col)` in direction `(dr, dc)`.
pub open spec fn step_square(row: int, col: int, dr: int, dc: int, k: int) -> int {
    square_of(row + k * dr, col + k * dc)
}

proof fn lemma_square_of_board(row: int, col: int)
    requires
        on_board(row, col),
    ensures
        0 <= square_of(row, col) < 64,
        row_of(square_of(row, col)) == row,
        col_of(square_of(row, col)) == col,
{
}

proof fn lemma_square_board(s: int)
    requires
        0 <= s < 64,
    ensures
        on_board(row_of(s), col_of(s)),
        square_of(row_of(s), col_of(s)) == s,
{
}

/// A square is on the `n`-step ray exactly when some step from 1 to `n` lands on it.
proof fn lemma_ray_steps_has_bit(row: int, col: int, dr: int, dc: int, n: nat, t: int)
    ensures
        has_bit(ray_steps(row, col, dr, dc, n), t) <==> exists|k: int|
            1 <= k <= n && #[trigger] step_on_board(row, col, dr, dc, k) && t == step_square(
                row,
                col,
                dr,
                dc,
                k,
            ),
    decreases n,
{
    broadcast use group_bitboard;

    if n > 0 {
        lemma_ray_steps_has_bit(row, col, dr, dc, (n - 1) as nat, t);
        let r = row + n * dr;
        let c = col + n * dc;
        if on_board(r, c) {
            lemma_square_of_board(r, c);
            lemma_has_bit_single(square_of(r, c), t);
        }
        if has_bit(ray_steps(row, col, dr, dc, n), t) {
            if !has_bit(ray_steps(row, col, dr, dc, (n - 1) as nat), t) {
                assert(step_on_board(row, col, dr, dc, n as int));
            }
        }
        if exists|k: int|
            1 <= k <= n && #[trigger] step_on_board(row, col, dr, dc, k) && t == step_square(
                row,
                col,
                dr,
                dc,
                k,
            ) {
            let k = choose|k: int|
                1 <= k <= n && #[trigger] step_on_board(row, col, dr, dc, k) && t == step_square(
                    row,
                    col,
                    dr,
                    dc,
                    k,
                );
            if k < n {
            }
        }
    }
}

/// Steps past the seventh leave the board.
proof fn lemma_steps_leave_board(row: int, col: int, dr: int, dc: int, k: int)
    requires
        on_board(row, col),
        is_direction(dr, dc),
        k >= 8,
    ensures
        !step_on_board(row, col, dr, dc, k),
{
    assert(dr == 1 ==> k * dr == k) by (nonlinear_arith);
    assert(dr == -1 ==> k * dr == -k) by (nonlinear_arith);
    assert(dc == 1 ==> k * dc == k) by (nonlinear_arith);
    assert(dc == -1 ==> k * dc == -k) by (nonlinear_arith);
}

/// Index of the square `k` steps away: the origin's index plus `k` times the
/// index change of one step.
proof fn lemma_step_square(row: int, col: int, dr: int, dc: int, k: int)
    requires
        is_direction(dr, dc),
    ensures
        step_square(row, col, dr, dc, k) == square_of(row, col) + k * (8 * dr + dc),
{
    assert(square_of(row + k * dr, col + k * dc) == square_of(row, col) + k * (8 * dr + dc))
        by (nonlinear_arith);
}

/// Order along a ray follows the number of steps.
proof fn lemma_step_order(row: int, col: int, dr: int, dc: int, j: int, k: int)
    requires
        is_direction(dr, dc),
    ensures
        nearer(is_forward(dr, dc), step_square(row, col, dr, dc, j), step_square(row, col, dr, dc, k))
            <==> j < k,
{
    lemma_step_square(row, col, dr, dc, j);
    lemma_step_square(row, col, dr, dc, k);
    let s = 8 * dr + dc;
    assert(s != 0);
    if j < k {
        if s > 0 {
            assert(j * s < k * s) by (nonlinear_arith) requires j < k, s > 0;
        } else {
            assert(j * s > k * s) by (nonlinear_arith) requires j < k, s < 0;
        }
    } else {
        if s > 0 {
            assert(j * s >= k * s) by (nonlinear_arith) requires j >= k, s > 0;
        } else {
            assert(j * s <= k * s) by (nonlinear_arith) requires j >= k, s < 0;
        }
    }
}

/// The ray from a square `x` on the ray from `o` is the part of the ray from `o`
/// beyond `x`.
pub proof fn lemma_ray_beyond(o: int, dr: int, dc: int, x: int, t: int)
    requires
        0 <= o < 64,
        is_direction(dr, dc),
        has_bit(ray_mask(o, dr, dc), x),
    ensures
        has_bit(ray_mask(x, dr, dc), t) <==> has_bit(ray_mask(o, dr, dc), t) && nearer(
            is_forward(dr, dc),
            x,
            t,
        ),
{
    let r0 = row_of(o);
    let c0 = col_of(o);
    lemma_square_board(o);
    lemma_ray_steps_has_bit(r0, c0, dr, dc, 7, x);
    let kx = choose|k: int|
        1 <= k <= 7 && #[trigger] step_on_board(r0, c0, dr, dc, k) && x == step_square(
            r0,
            c0,
            dr,
            dc,
            k,
        );
    let rx = r0 + kx * dr;
    let cx = c0 + kx * dc;
    lemma_square_of_board(rx, cx);
    lemma_ray_steps_has_bit(rx, cx, dr, dc, 7, t);
    lemma_ray_steps_has_bit(r0, c0, dr, dc, 7, t);
    lemma_step_order(r0, c0, dr, dc, kx, kx);
    if has_bit(ray_mask(x, dr, dc), t) {
        let j = choose|j: int|
            1 <= j <= 7 && #[trigger] step_on_board(rx, cx, dr, dc, j) && t == step_square(
                rx,
                cx,
                dr,
                dc,
                j,
            );
        assert(rx + j * dr == r0 + (kx + j) * dr) by (nonlinear_arith)
            requires
                rx == r0 + kx * dr,
        ;
        assert(cx + j * dc == c0 + (kx + j) * dc) by (nonlinear_arith)
            requires
                cx == c0 + kx * dc,
        ;
        assert(step_on_board(r0, c0, dr, dc, kx + j));
        if kx + j >= 8 {
            lemma_steps_leave_board(r0, c0, dr, dc, kx + j);
        }
        lemma_step_order(r0, c0, dr, dc, kx, kx + j);
    }
    if has_bit(ray_mask(o, dr, dc), t) && nearer(is_forward(dr, dc), x, t) {
        let k = choose|k: int|
            1 <= k <= 7 && #[trigger] step_on_board(r0, c0, dr, dc, k) && t == step_square(
                r0,
                c0,
                dr,
                dc,
                k,
            );
        lemma_step_order(r0, c0, dr, dc, kx, k);
        let j = k - kx;
        assert(rx + j * dr == r0 + k * dr) by (nonlinear_arith)
            requires
                rx == r0 + kx * dr,
                j == k - kx,
        ;
        assert(cx + j * dc == c0 + k * dc) by (nonlinear_arith)
            requires
                cx == c0 + kx * dc,
                j == k - kx,
        ;
        assert(step_on_board(rx, cx, dr, dc, j));
    }
}

/// What `nearest_hit` finds: the square of `ray` and `occupancy` that comes
/// before all others of them, or none when they share no square.
proof fn lemma_nearest_hit(ray: u64, forward: bool, occupancy: u64)
    ensures
        nearest_hit(ray, forward, occupancy) is None ==> forall|u: int|
            !(has_bit(ray, u) && #[trigger] has_bit(occupancy, u)),
        nearest_hit(ray, forward, occupancy) is Some ==> {
            let x = nearest_hit(ray, forward, occupancy)->0;
            &&& has_bit(ray, x)
            &&& has_bit(occupancy, x)
            &&& forall|u: int|
                has_bit(ray, u) && #[trigger] has_bit(occupancy, u) ==> u == x || nearer(
                    forward,
                    x,
                    u,
                )
        },
{
    broadcast use group_bitboard;

    let b = ray & occupancy;
    if b != 0 {
        lemma_extreme_bits_exist(b);
        assert forall|u: int| has_bit(ray, u) && #[trigger] has_bit(occupancy, u) implies u
            == nearest_hit(ray, forward, occupancy)->0 || nearer(
            forward,
            nearest_hit(ray, forward, occupancy)->0,
            u,
        ) by {
            assert(has_bit(b, u));
        }
    } else {
        assert forall|u: int| !(has_bit(ray, u) && #[trigger] has_bit(occupancy, u)) by {
            assert(!has_bit(b, u));
        }
    }
}

/// The blocked ray stops at the first blocker: from origin `o` in direction
/// `(dr, dc)`, a square is attacked exactly when it lies on the ray, holds no own
/// piece, and no piece of either side stands on the ray before it. So with no
/// blocker the whole ray is attacked; the first enemy blocker is attacked and
/// nothing beyond it; the first own blocker is not attacked, nor anything beyond it.
pub proof fn lemma_blocked_ray_stops_at_first_blocker(
    o: int,
    dr: int,
    dc: int,
    own: u64,
    enemy: u64,
    t: int,
)
    requires
        0 <= o < 64,
        is_direction(dr, dc),
    ensures
        has_bit(
            blocked_ray(ray_mask(o, dr, dc), ray_table(dr, dc), is_forward(dr, dc), own, enemy),
            t,
        ) <==> {
            &&& has_bit(ray_mask(o, dr, dc), t)
            &&& !has_bit(own, t)
            &&& forall|u: int|
                has_bit(ray_mask(o, dr, dc), u) && nearer(is_forward(dr, dc), u, t)
                    ==> !#[trigger] has_bit(own | enemy, u)
        },
{
    broadcast use group_bitboard;

    let fwd = is_forward(dr, dc);
    let ray = ray_mask(o, dr, dc);
    let fam = ray_table(dr, dc);
    let ho = nearest_hit(ray, fwd, own);
    let he = nearest_hit(ray, fwd, enemy);
    lemma_nearest_hit(ray, fwd, own);
    lemma_nearest_hit(ray, fwd, enemy);
    if ho is Some {
        assert(fam[ho->0] == ray_mask(ho->0, dr, dc));
        lemma_ray_beyond(o, dr, dc, ho->0, t);
    }
    if he is Some {
        assert(fam[he->0] == ray_mask(he->0, dr, dc));
        lemma_ray_beyond(o, dr, dc, he->0, t);
    }
    let result = blocked_ray(ray, fam, fwd, own, enemy);
    let clear = forall|u: int|
        has_bit(ray, u) && nearer(fwd, u, t) ==> !#[trigger] has_bit(own | enemy, u);
    if has_bit(result, t) {
        assert forall|u: int| has_bit(ray, u) && nearer(fwd, u, t) implies !#[trigger] has_bit(
            own | enemy,
            u,
        ) by {
            if has_bit(own, u) {
                assert(ho is Some);
            }
            if has_bit(enemy, u) {
                assert(he is Some);
            }
        }
    }
    if has_bit(ray, t) && !has_bit(own, t) && clear {
        if ho is Some {
            assert(!has_bit(own | enemy, ho->0) || !nearer(fwd, ho->0, t));
        }
        if he is Some {
            assert(!has_bit(own | enemy, he->0) || !nearer(fwd, he->0, t));
        }
    }
}

/// The three cases of a blocked ray: with no blocker it is the full ray; with
/// only an enemy blocker it keeps the blocker's square and nothing beyond; with
/// only an own blocker it loses the blocker's square and everything beyond.
pub proof fn lemma_blocked_ray_cases(o: int, dr: int, dc: int, own: u64, enemy: u64)
    requires
        0 <= o < 64,
        is_direction(dr, dc),
    ensures
        ({
            let fwd = is_forward(dr, dc);
            let ray = ray_mask(o, dr, dc);
            let r = blocked_ray(ray, ray_table(dr, dc), fwd, own, enemy);
            &&& (ray & own == 0 && ray & enemy == 0 ==> r == ray)
            &&& (ray & own == 0 && ray & enemy != 0 ==> {
                let e = nearest_hit(ray, fwd, enemy)->0;
                &&& has_bit(ray, e)
                &&& has_bit(r, e)
                &&& forall|t: int| nearer(fwd, e, t) ==> !#[trigger] has_bit(r, t)
            })
            &&& (ray & own != 0 && ray & enemy == 0 ==> {
                let b = nearest_hit(ray, fwd, own)->0;
                &&& has_bit(ray, b)
                &&& !has_bit(r, b)
                &&& forall|t: int| nearer(fwd, b, t) ==> !#[trigger] has_bit(r, t)
            })
        }),
{
    broadcast use group_bitboard;

    let fwd = is_forward(dr, dc);
    let ray = ray_mask(o, dr, dc);
    let r = blocked_ray(ray, ray_table(dr, dc), fwd, own, enemy);
    lemma_nearest_hit(ray, fwd, own);
    lemma_nearest_hit(ray, fwd, enemy);
    if ray & own == 0 && ray & enemy != 0 {
        let e = nearest_hit(ray, fwd, enemy)->0;
        lemma_blocked_ray_stops_at_first_blocker(o, dr, dc, own, enemy, e);
        assert forall|t: int| nearer(fwd, e, t) implies !#[trigger] has_bit(r, t) by {
            lemma_blocked_ray_stops_at_first_blocker(o, dr, dc, own, enemy, t);
            if has_bit(r, t) {
                assert(has_bit(own | enemy, e));
            }
        }
    }
    if ray & own != 0 && ray & enemy == 0 {
        let b = nearest_hit(ray, fwd, own)->0;
        lemma_blocked_ray_stops_at_first_blocker(o, dr, dc, own, enemy, b);
        assert forall|t: int| nearer(fwd, b, t) implies !#[trigger] has_bit(r, t) by {
            lemma_blocked_ray_stops_at_first_blocker(o, dr, dc, own, enemy, t);
            if has_bit(r, t) {
                assert(has_bit(own | enemy, b));
            }
        }
    }
}

} // verus!
