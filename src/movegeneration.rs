use crate::fen::{describes, fen_check, FenError};
use crate::knightattacks::{knight_mask_at, KnightAttacks};
use crate::position::{
    is_empty_position, is_square_mask, is_square_name, is_start_position, named_square, Color,
    Piece, PieceType, Position, PositionModel, Square,
};
use crate::rayattacks::{blocked_ray, blocked_ray_attack, is_forward, ray_mask, ray_table, Rays};
use crate::utils::{
    bit_at, bit_scan, col_of, extract_bits, group_bitboard, has_bit, index, lemma_lowest_unique,
    lemma_mask_square, lemma_set_bits_ascending_and_exact, lowest_bit, on_board, row_of, rowcol,
    set_bit, set_bits, square_bit, square_of, Bitboard,
};
use vstd::prelude::*;

verus! {

broadcast use group_bitboard;

/// A position together with the attack tables that move generation reads.
pub struct Game {
    pub position: Position,
    pub knight_attacks: KnightAttacks,
    pub ray_attacks: Rays,
}

/// Every position of the list is consistent.
pub open spec fn all_wf(s: Seq<Position>) -> bool {
    forall|k: int| 0 <= k < s.len() ==> (#[trigger] s[k])@.wf()
}

/// The models of a list of positions.
pub open spec fn views(s: Seq<Position>) -> Seq<PositionModel> {
    s.map_values(|p: Position| p@)
}

/// The king's neighbourhood: the eight squares next to `(row, col)` that are on the board.
pub open spec fn king_mask(row: int, col: int) -> u64 {
    square_bit(row - 1, col - 1) | square_bit(row - 1, col) | square_bit(row - 1, col + 1)
        | square_bit(row, col - 1) | square_bit(row, col + 1) | square_bit(row + 1, col - 1)
        | square_bit(row + 1, col) | square_bit(row + 1, col + 1)
}

impl Game {
    /// The position is consistent and both attack tables are complete.
    pub open spec fn wf(&self) -> bool {
        self.position@.wf() && self.knight_attacks.wf() && self.ray_attacks.wf()
    }

    /// The starting position with fresh attack tables.
    pub fn new() -> (r: Self)
        ensures
            r.wf(),
            is_start_position(r.position@),
    {
        Game { position: Position::new(), knight_attacks: KnightAttacks::new(), ray_attacks: Rays::new() }
    }

    /// The position that `fen` describes, with fresh attack tables.
    #[allow(non_snake_case)]
    pub fn read_FEN(fen: &str) -> (r: Result<Self, FenError>)
        ensures
            r is Ok <==> fen_check(fen@) is Ok,
            r is Err ==> r->Err_0 == fen_check(fen@)->Err_0,
            r is Ok ==> r->Ok_0.wf() && describes(r->Ok_0.position@, fen@),
    {
        let position = Position::read_FEN(fen)?;
        Ok(Game { position: position, knight_attacks: KnightAttacks::new(), ray_attacks: Rays::new() })
    }

    /// An empty board with fresh attack tables.
    pub fn empty() -> (r: Self)
        ensures
            r.wf(),
            is_empty_position(r.position@),
    {
        Game { position: Position::empty(), knight_attacks: KnightAttacks::new(), ray_attacks: Rays::new() }
    }

    /// The game with a new live piece on the empty square named `square`.
    pub fn add(self, piece_color: Color, piece_type: PieceType, square: &str) -> (r: Self)
        requires
            self.wf(),
            is_square_name(square@),
            !self.position@.occupied(named_square(square@)),
            self.position@.pieces.len() < usize::MAX,
        ensures
            r.wf(),
            r.position@ == self.position@.added(piece_color, piece_type, named_square(square@)),
    {
        let mut game = self;
        game.position.add(piece_color, piece_type, square);
        game
    }
}

/// The square of a piece.
pub open spec fn square_of_piece(p: Piece) -> int {
    lowest_bit(p.position)
}

/// `p` is a live piece standing on its square of `m`.
pub open spec fn is_live_piece(m: PositionModel, p: Piece) -> bool {
    &&& p.alive
    &&& is_square_mask(p.position)
    &&& m.occupied(square_of_piece(p))
    &&& m.piece_on(square_of_piece(p)) == p
}

/// The positions after the piece on `from` moves to each square of `targets`, in
/// ascending order of the target.
pub open spec fn moves_to(m: PositionModel, from: int, targets: u64) -> Seq<PositionModel> {
    set_bits(targets).map_values(|t: usize| m.moved(from, t as int))
}

/// Squares a knight of `p`'s side attacks from `p`'s square and may move to.
pub open spec fn knight_targets(m: PositionModel, p: Piece) -> u64 {
    knight_mask_at(square_of_piece(p)) & !m.occupancy(p.color)
}

/// Squares next to `p`'s square that its side does not occupy.
pub open spec fn king_targets(m: PositionModel, p: Piece) -> u64 {
    king_mask(row_of(square_of_piece(p)), col_of(square_of_piece(p))) & !m.occupancy(p.color)
}

/// Squares a slider of `p`'s side reaches in direction `(dr, dc)` before it is
/// blocked, an enemy blocker's square included.
pub open spec fn slider_targets(m: PositionModel, p: Piece, dr: int, dc: int) -> u64 {
    let own = m.occupancy(p.color);
    blocked_ray(
        ray_mask(square_of_piece(p), dr, dc),
        ray_table(dr, dc),
        is_forward(dr, dc),
        own,
        m.occupancy(p.color.other()),
    ) & !own
}

/// Moves of `p` sliding in direction `(dr, dc)`.
pub open spec fn slides(m: PositionModel, p: Piece, dr: int, dc: int) -> Seq<PositionModel> {
    moves_to(m, square_of_piece(p), slider_targets(m, p, dr, dc))
}

/// Bishop moves: north-west, south-west, north-east, then south-east.
pub open spec fn bishop_moves(m: PositionModel, p: Piece) -> Seq<PositionModel> {
    slides(m, p, 1, -1) + slides(m, p, -1, -1) + slides(m, p, 1, 1) + slides(m, p, -1, 1)
}

/// Rook moves: north, south, east, then west.
pub open spec fn rook_moves(m: PositionModel, p: Piece) -> Seq<PositionModel> {
    slides(m, p, 1, 0) + slides(m, p, -1, 0) + slides(m, p, 0, 1) + slides(m, p, 0, -1)
}

/// Queen moves: the rook's, then the bishop's.
pub open spec fn queen_moves(m: PositionModel, p: Piece) -> Seq<PositionModel> {
    rook_moves(m, p) + bishop_moves(m, p)
}

proof fn lemma_views_push(s: Seq<Position>, p: Position)
    ensures
        views(s.push(p)) == views(s).push(p@),
{
    assert(views(s.push(p)) =~= views(s).push(p@));
}

/// Appends the position after the piece on `from` moves to `to`.
fn push_move(position: &Position, from_bit: Bitboard, to: usize, out: &mut Vec<Position>)
    requires
        position@.wf(),
        is_square_mask(from_bit),
        position@.can_move(lowest_bit(from_bit), to as int),
        all_wf(old(out)@),
    ensures
        views(final(out)@) == views(old(out)@).push(position@.moved(lowest_bit(from_bit), to as int)),
        all_wf(final(out)@),
{
    let mut new_position = position.duplicate();
    new_position.move_piece(from_bit, to);
    proof {
        lemma_views_push(out@, new_position);
    }
    out.push(new_position);
}

/// Appends the positions after the piece on `from` moves to each square of
/// `targets`, in ascending order.
fn push_moves_to(position: &Position, from_bit: Bitboard, targets: Bitboard, out: &mut Vec<Position>)
    requires
        position@.wf(),
        is_square_mask(from_bit),
        position@.occupied(lowest_bit(from_bit)),
        forall|t: int| #[trigger]
            has_bit(targets, t) ==> t != lowest_bit(from_bit) && !position@.holds(
                t,
                position@.piece_on(lowest_bit(from_bit)).color,
            ),
        all_wf(old(out)@),
    ensures
        views(final(out)@) == views(old(out)@) + moves_to(position@, lowest_bit(from_bit), targets),
        all_wf(final(out)@),
{
    let ghost from = lowest_bit(from_bit);
    let ghost m = position@;
    let potential_moves = extract_bits(targets);
    proof {
        lemma_set_bits_ascending_and_exact(targets);
    }
    let ghost start = views(out@);
    for j in 0..potential_moves.len()
        invariant
            position@ == m,
            m.wf(),
            is_square_mask(from_bit),
            from == lowest_bit(from_bit),
            m.occupied(from),
            potential_moves@ == set_bits(targets),
            forall|x: int| 0 <= x < set_bits(targets).len() ==> set_bits(targets)[x] < 64,
            forall|t: int| 0 <= t < 64 ==> (has_bit(targets, t) <==> set_bits(targets).contains(t as usize)),
            forall|t: int| #[trigger]
                has_bit(targets, t) ==> t != from && !m.holds(t, m.piece_on(from).color),
            views(out@) == start + moves_to(m, from, targets).take(j as int),
            all_wf(out@),
    {
        let t = potential_moves[j];
        proof {
            assert(set_bits(targets).contains(t));
            assert(has_bit(targets, t as int));
            assert(moves_to(m, from, targets).take(j + 1) == moves_to(m, from, targets).take(
                j as int,
            ).push(m.moved(from, t as int)));
        }
        push_move(position, from_bit, t, out);
    }
    proof {
        assert(moves_to(m, from, targets).take(potential_moves@.len() as int) == moves_to(
            m,
            from,
            targets,
        ));
    }
}

fn own_and_enemy(position: &Position, color: Color) -> (r: (Bitboard, Bitboard))
    ensures
        r.0 == position@.occupancy(color),
        r.1 == position@.occupancy(color.other()),
{
    match color {
        Color::White => (position.white_occupancy, position.black_occupancy),
        Color::Black => (position.black_occupancy, position.white_occupancy),
    }
}

/// Moves of the knight `piece`: its attack squares not held by its own side.
pub fn generate_knight_moves(piece: &Piece, game: &Game) -> (r: Vec<Position>)
    requires
        game.wf(),
        is_live_piece(game.position@, *piece),
    ensures
        views(r@) == moves_to(
            game.position@,
            square_of_piece(*piece),
            knight_targets(game.position@, *piece),
        ),
        all_wf(r@),
{
    proof {
        lemma_mask_square(square_of_piece(*piece));
    }
    let from = bit_scan(piece.position);
    proof {
        lemma_lowest_unique(piece.position, from as int);
    }
    let (own_occupancy, _) = own_and_enemy(&game.position, piece.color);
    let attacks = game.knight_attacks.0[from] & !own_occupancy;
    let mut new_positions: Vec<Position> = Vec::new();
    proof {
        assert(game.position@.holds(from as int, piece.color));
        assert(views(new_positions@) =~= Seq::<PositionModel>::empty());
    }
    push_moves_to(&game.position, piece.position, attacks, &mut new_positions);
    proof {
        assert(views(new_positions@) =~= moves_to(game.position@, from as int, attacks));
    }
    new_positions
}

fn king_attacks(row: i32, col: i32) -> (r: Bitboard)
    requires
        on_board(row as int, col as int),
    ensures
        r == king_mask(row as int, col as int),
{
    set_bit(row - 1, col - 1) | set_bit(row - 1, col) | set_bit(row - 1, col + 1) | set_bit(
        row,
        col - 1,
    ) | set_bit(row, col + 1) | set_bit(row + 1, col - 1) | set_bit(row + 1, col) | set_bit(
        row + 1,
        col + 1,
    )
}

/// Moves of the king `piece`: the squares next to it not held by its own side.
pub fn generate_king_moves(piece: &Piece, game: &Game) -> (r: Vec<Position>)
    requires
        game.wf(),
        is_live_piece(game.position@, *piece),
    ensures
        views(r@) == moves_to(
            game.position@,
            square_of_piece(*piece),
            king_targets(game.position@, *piece),
        ),
        all_wf(r@),
{
    proof {
        lemma_mask_square(square_of_piece(*piece));
    }
    let from = bit_scan(piece.position);
    proof {
        lemma_lowest_unique(piece.position, from as int);
    }
    let (row, col) = rowcol(from);
    let (own_occupancy, _) = own_and_enemy(&game.position, piece.color);
    let potential = king_attacks(row, col) & !own_occupancy;
    let mut positions: Vec<Position> = Vec::new();
    proof {
        assert(game.position@.holds(from as int, piece.color));
        assert(views(positions@) =~= Seq::<PositionModel>::empty());
    }
    push_moves_to(&game.position, piece.position, potential, &mut positions);
    proof {
        assert(views(positions@) =~= moves_to(game.position@, from as int, potential));
    }
    positions
}

/// Appends the moves of the slider `piece` in direction `(dr, dc)`, whose ray
/// table is `rays`.
fn push_slides(
    piece: &Piece,
    game: &Game,
    rays: &Vec<Bitboard>,
    forward: bool,
    Ghost(dr): Ghost<int>,
    Ghost(dc): Ghost<int>,
    out: &mut Vec<Position>,
)
    requires
        game.wf(),
        is_live_piece(game.position@, *piece),
        rays@ == ray_table(dr, dc),
        forward == is_forward(dr, dc),
        all_wf(old(out)@),
    ensures
        views(final(out)@) == views(old(out)@) + slides(game.position@, *piece, dr, dc),
        all_wf(final(out)@),
{
    proof {
        lemma_mask_square(square_of_piece(*piece));
    }
    let from = bit_scan(piece.position);
    proof {
        lemma_lowest_unique(piece.position, from as int);
    }
    let (own_occupancy, enemy_occupancy) = own_and_enemy(&game.position, piece.color);
    let ray_attacks = blocked_ray_attack(
        rays[from],
        rays,
        forward,
        own_occupancy,
        enemy_occupancy,
    ) & !own_occupancy;
    proof {
        assert(game.position@.holds(from as int, piece.color));
    }
    push_moves_to(&game.position, piece.position, ray_attacks, out);
}

proof fn lemma_ray_tables(rays: Rays)
    requires
        rays.wf(),
    ensures
        rays.n_rays@ == ray_table(1, 0),
        rays.e_rays@ == ray_table(0, 1),
        rays.nw_rays@ == ray_table(1, -1),
        rays.ne_rays@ == ray_table(1, 1),
        rays.w_rays@ == ray_table(0, -1),
        rays.s_rays@ == ray_table(-1, 0),
        rays.sw_rays@ == ray_table(-1, -1),
        rays.se_rays@ == ray_table(-1, 1),
{
    assert(rays.n_rays@ =~= ray_table(1, 0));
    assert(rays.e_rays@ =~= ray_table(0, 1));
    assert(rays.nw_rays@ =~= ray_table(1, -1));
    assert(rays.ne_rays@ =~= ray_table(1, 1));
    assert(rays.w_rays@ =~= ray_table(0, -1));
    assert(rays.s_rays@ =~= ray_table(-1, 0));
    assert(rays.sw_rays@ =~= ray_table(-1, -1));
    assert(rays.se_rays@ =~= ray_table(-1, 1));
}

/// Moves of the bishop `piece` along its four diagonals.
pub fn generate_bishop_moves(piece: &Piece, game: &Game) -> (r: Vec<Position>)
    requires
        game.wf(),
        is_live_piece(game.position@, *piece),
    ensures
        views(r@) == bishop_moves(game.position@, *piece),
        all_wf(r@),
{
    proof {
        lemma_ray_tables(game.ray_attacks);
    }
    let attacks = &game.ray_attacks;
    let mut new_positions: Vec<Position> = Vec::new();
    proof {
        assert(views(new_positions@) =~= Seq::<PositionModel>::empty());
    }
    push_slides(piece, game, &attacks.nw_rays, true, Ghost(1), Ghost(-1), &mut new_positions);
    push_slides(piece, game, &attacks.sw_rays, false, Ghost(-1), Ghost(-1), &mut new_positions);
    push_slides(piece, game, &attacks.ne_rays, true, Ghost(1), Ghost(1), &mut new_positions);
    push_slides(piece, game, &attacks.se_rays, false, Ghost(-1), Ghost(1), &mut new_positions);
    proof {
        assert(views(new_positions@) =~= bishop_moves(game.position@, *piece));
    }
    new_positions
}

/// Moves of the rook `piece` along its rank and file.
pub fn generate_rook_moves(piece: &Piece, game: &Game) -> (r: Vec<Position>)
    requires
        game.wf(),
        is_live_piece(game.position@, *piece),
    ensures
        views(r@) == rook_moves(game.position@, *piece),
        all_wf(r@),
{
    proof {
        lemma_ray_tables(game.ray_attacks);
    }
    let attacks = &game.ray_attacks;
    let mut new_positions: Vec<Position> = Vec::new();
    proof {
        assert(views(new_positions@) =~= Seq::<PositionModel>::empty());
    }
    push_slides(piece, game, &attacks.n_rays, true, Ghost(1), Ghost(0), &mut new_positions);
    push_slides(piece, game, &attacks.s_rays, false, Ghost(-1), Ghost(0), &mut new_positions);
    push_slides(piece, game, &attacks.e_rays, true, Ghost(0), Ghost(1), &mut new_positions);
    push_slides(piece, game, &attacks.w_rays, false, Ghost(0), Ghost(-1), &mut new_positions);
    proof {
        assert(views(new_positions@) =~= rook_moves(game.position@, *piece));
    }
    new_positions
}

/// Moves of the queen `piece`: the rook's moves, then the bishop's.
pub fn generate_queen_moves(piece: &Piece, game: &Game) -> (r: Vec<Position>)
    requires
        game.wf(),
        is_live_piece(game.position@, *piece),
    ensures
        views(r@) == queen_moves(game.position@, *piece),
        all_wf(r@),
{
    let mut bishop_moves = generate_bishop_moves(piece, game);
    let mut rook_moves = generate_rook_moves(piece, game);
    let ghost rooks = rook_moves@;
    let ghost bishops = bishop_moves@;
    rook_moves.append(&mut bishop_moves);
    proof {
        assert(views(rook_moves@) =~= views(rooks) + views(bishops));
        assert forall|k: int| 0 <= k < rook_moves@.len() implies (#[trigger] rook_moves@[k])@.wf() by {
            if k >= rooks.len() {
                assert(rook_moves@[k] == bishops[k - rooks.len()]);
            }
        }
    }
    rook_moves
}

/// Index of the first live king of side `c` in the store, from index `i` on.
pub open spec fn first_king_from(pieces: Seq<Piece>, c: Color, i: int) -> Option<int>
    decreases pieces.len() - i,
{
    if i < 0 || i >= pieces.len() {
        None
    } else if pieces[i].alive && pieces[i].piece_type == PieceType::King && pieces[i].color == c {
        Some(i)
    } else {
        first_king_from(pieces, c, i + 1)
    }
}

proof fn lemma_first_king(pieces: Seq<Piece>, c: Color, i: int)
    requires
        0 <= i,
    ensures
        first_king_from(pieces, c, i) is Some ==> {
            let k = first_king_from(pieces, c, i)->0;
            &&& i <= k < pieces.len()
            &&& pieces[k].alive
            &&& pieces[k].piece_type == PieceType::King
            &&& pieces[k].color == c
        },
    decreases pieces.len() - i,
{
    if i < pieces.len() {
        lemma_first_king(pieces, c, i + 1);
    }
}

/// Index of the first live king of side `c` in the store.
pub open spec fn king_of(m: PositionModel, c: Color) -> Option<int> {
    first_king_from(m.pieces, c, 0)
}

/// Some square of `attack` holds an enemy of side `c` of kind `a` or `b`.
pub open spec fn enemy_kind_among(
    m: PositionModel,
    c: Color,
    attack: u64,
    a: PieceType,
    b: PieceType,
) -> bool {
    exists|s: int|
        #[trigger] has_bit(attack & m.occupancy(c.other()), s) && (m.piece_on(s).piece_type == a
            || m.piece_on(s).piece_type == b)
}

/// An enemy of side `c` of kind `a` or `b` stands first in the way from `ksq` in
/// direction `(dr, dc)`.
pub open spec fn ray_attacked(
    m: PositionModel,
    c: Color,
    ksq: int,
    dr: int,
    dc: int,
    a: PieceType,
    b: PieceType,
) -> bool {
    let attack = blocked_ray(
        ray_mask(ksq, dr, dc),
        ray_table(dr, dc),
        is_forward(dr, dc),
        m.occupancy(c),
        m.occupancy(c.other()),
    );
    enemy_kind_among(m, c, attack, a, b)
}

/// Square `(row, col)` holds an enemy king of side `c`, or an enemy pawn where
/// `pawn_too` holds.
pub open spec fn threat_at(m: PositionModel, row: int, col: int, c: Color, pawn_too: bool) -> bool {
    on_board(row, col) && m.holds(square_of(row, col), c.other()) && (m.piece_on(
        square_of(row, col),
    ).piece_type == PieceType::King || (pawn_too && m.piece_on(square_of(row, col)).piece_type
        == PieceType::Pawn))
}

/// The square `ksq` of a king of side `c` is attacked: by a rook or queen along a
/// rank or file, a bishop or queen along a diagonal, a knight, the enemy king next
/// to it, or an enemy pawn on one of the two squares diagonally in front of it.
pub open spec fn square_attacked(m: PositionModel, c: Color, ksq: int) -> bool {
    let row = row_of(ksq);
    let col = col_of(ksq);
    let up = c == Color::White;
    let rook = PieceType::Rook;
    let bishop = PieceType::Bishop;
    let queen = PieceType::Queen;
    ||| ray_attacked(m, c, ksq, 1, 0, queen, rook)
    ||| ray_attacked(m, c, ksq, 1, 1, queen, bishop)
    ||| ray_attacked(m, c, ksq, 0, 1, queen, rook)
    ||| ray_attacked(m, c, ksq, -1, 1, queen, bishop)
    ||| ray_attacked(m, c, ksq, -1, 0, queen, rook)
    ||| ray_attacked(m, c, ksq, -1, -1, queen, bishop)
    ||| ray_attacked(m, c, ksq, 0, -1, queen, rook)
    ||| ray_attacked(m, c, ksq, 1, -1, queen, bishop)
    ||| enemy_kind_among(m, c, knight_mask_at(ksq), PieceType::Knight, PieceType::Knight)
    ||| threat_at(m, row - 1, col - 1, c, !up)
    ||| threat_at(m, row - 1, col, c, false)
    ||| threat_at(m, row - 1, col + 1, c, !up)
    ||| threat_at(m, row, col - 1, c, false)
    ||| threat_at(m, row, col + 1, c, false)
    ||| threat_at(m, row + 1, col - 1, c, up)
    ||| threat_at(m, row + 1, col, c, false)
    ||| threat_at(m, row + 1, col + 1, c, up)
}

/// The first live king of side `c` is attacked; a side without a king is never
/// in check.
pub open spec fn in_check(m: PositionModel, c: Color) -> bool {
    match king_of(m, c) {
        None => false,
        Some(k) => square_attacked(m, c, square_of_piece(m.pieces[k])),
    }
}

fn find_king(position: &Position, color: Color) -> (r: Option<usize>)
    ensures
        r is Some <==> king_of(position@, color) is Some,
        r is Some ==> r->0 == king_of(position@, color)->0,
{
    for i in 0..position.pieces.len()
        invariant
            first_king_from(position.pieces@, color, 0) == first_king_from(
                position.pieces@,
                color,
                i as int,
            ),
    {
        let p = position.pieces[i];
        if p.alive && p.piece_type == PieceType::King && p.color == color {
            return Some(i);
        }
    }
    None
}

/// Some square of `overlap` holds a piece of kind `a` or `b`.
fn attacked_by(position: &Position, overlap: Bitboard, a: PieceType, b: PieceType) -> (r: bool)
    requires
        position@.wf(),
        forall|s: int| #[trigger] has_bit(overlap, s) ==> position@.occupied(s),
    ensures
        r == exists|s: int|
            #[trigger] has_bit(overlap, s) && (position@.piece_on(s).piece_type == a
                || position@.piece_on(s).piece_type == b),
{
    let locations = extract_bits(overlap);
    proof {
        lemma_set_bits_ascending_and_exact(overlap);
    }
    for j in 0..locations.len()
        invariant
            position@.wf(),
            locations@ == set_bits(overlap),
            forall|x: int| 0 <= x < set_bits(overlap).len() ==> set_bits(overlap)[x] < 64,
            forall|t: int| 0 <= t < 64 ==> (has_bit(overlap, t) <==> set_bits(overlap).contains(t as usize)),
            forall|s: int| #[trigger] has_bit(overlap, s) ==> position@.occupied(s),
            forall|x: int|
                0 <= x < j ==> !(position@.piece_on(#[trigger] locations@[x] as int).piece_type == a
                    || position@.piece_on(locations@[x] as int).piece_type == b),
    {
        let loc = locations[j];
        proof {
            assert(set_bits(overlap).contains(loc));
            assert(has_bit(overlap, loc as int));
        }
        if let Square::Occupied(pidx) = position.squares[loc] {
            let kind = position.pieces[pidx].piece_type;
            if kind == a || kind == b {
                return true;
            }
        }
    }
    proof {
        assert forall|s: int| #[trigger] has_bit(overlap, s) implies !(position@.piece_on(s).piece_type == a
            || position@.piece_on(s).piece_type == b) by {
            assert(set_bits(overlap).contains(s as usize));
            let x = choose|x: int| 0 <= x < locations@.len() && locations@[x] == s as usize;
            assert(locations@[x] as int == s);
        }
    }
    false
}

/// An enemy of `color` of kind `a` or `b` stands first in the way from the
/// king's square `ksq` along the ray table `rays`.
fn ray_check(
    position: &Position,
    color: Color,
    ksq: usize,
    rays: &Vec<Bitboard>,
    forward: bool,
    a: PieceType,
    b: PieceType,
    Ghost(dr): Ghost<int>,
    Ghost(dc): Ghost<int>,
) -> (r: bool)
    requires
        position@.wf(),
        ksq < 64,
        rays@ == ray_table(dr, dc),
        forward == is_forward(dr, dc),
    ensures
        r == ray_attacked(position@, color, ksq as int, dr, dc, a, b),
{
    let (own_occupancy, enemy_occupancy) = own_and_enemy(position, color);
    let ray_attacks = blocked_ray_attack(rays[ksq], rays, forward, own_occupancy, enemy_occupancy);
    let overlap = ray_attacks & enemy_occupancy;
    proof {
        assert forall|s: int| #[trigger] has_bit(overlap, s) implies position@.occupied(s) by {
            assert(position@.holds(s, color.other()));
        }
    }
    attacked_by(position, overlap, a, b)
}

/// Square `(row, col)` holds an enemy king of `color`, or an enemy pawn where
/// `pawn_too` holds.
fn threat(position: &Position, row: i32, col: i32, color: Color, pawn_too: bool) -> (r: bool)
    requires
        position@.wf(),
    ensures
        r == threat_at(position@, row as int, col as int, color, pawn_too),
{
    if let Some(idx) = index(row, col) {
        if let Square::Occupied(pidx) = position.squares[idx] {
            let piece = position.pieces[pidx];
            piece.color != color && (piece.piece_type == PieceType::King || (pawn_too
                && piece.piece_type == PieceType::Pawn))
        } else {
            false
        }
    } else {
        false
    }
}

/// Whether the first live king of `color` is attacked in `position`.
pub fn king_is_in_check(
    position: &Position,
    color: Color,
    ray_attacks: &Rays,
    knight_attacks: &KnightAttacks,
) -> (r: bool)
    requires
        position@.wf(),
        ray_attacks.wf(),
        knight_attacks.wf(),
    ensures
        r == in_check(position@, color),
{
    proof {
        lemma_first_king(position.pieces@, color, 0);
    }
    let king = if let Some(k) = find_king(position, color) {
        position.pieces[k]
    } else {
        return false;
    };
    proof {
        lemma_ray_tables(*ray_attacks);
        let k = king_of(position@, color)->0;
        assert(position@.pieces[k].alive);
        lemma_mask_square(square_of_piece(king));
    }
    let ksq = bit_scan(king.position);
    proof {
        lemma_lowest_unique(king.position, ksq as int);
    }
    let rook = PieceType::Rook;
    let bishop = PieceType::Bishop;
    let queen = PieceType::Queen;
    let rays = ray_attacks;
    if ray_check(position, color, ksq, &rays.n_rays, true, queen, rook, Ghost(1), Ghost(0))
        || ray_check(position, color, ksq, &rays.ne_rays, true, queen, bishop, Ghost(1), Ghost(1))
        || ray_check(position, color, ksq, &rays.e_rays, true, queen, rook, Ghost(0), Ghost(1))
        || ray_check(position, color, ksq, &rays.se_rays, false, queen, bishop, Ghost(-1), Ghost(1))
        || ray_check(position, color, ksq, &rays.s_rays, false, queen, rook, Ghost(-1), Ghost(0))
        || ray_check(position, color, ksq, &rays.sw_rays, false, queen, bishop, Ghost(-1), Ghost(-1))
        || ray_check(position, color, ksq, &rays.w_rays, false, queen, rook, Ghost(0), Ghost(-1))
        || ray_check(position, color, ksq, &rays.nw_rays, true, queen, bishop, Ghost(1), Ghost(-1)) {
        return true;
    }
    let (_, enemy_occupancy) = own_and_enemy(position, color);
    let knight_overlap = knight_attacks.0[ksq] & enemy_occupancy;
    proof {
        assert forall|s: int| #[trigger] has_bit(knight_overlap, s) implies position@.occupied(s) by {
            assert(position@.holds(s, color.other()));
        }
    }
    if attacked_by(position, knight_overlap, PieceType::Knight, PieceType::Knight) {
        return true;
    }
    let (row, col) = rowcol(ksq);
    let up = match color {
        Color::White => true,
        Color::Black => false,
    };
    threat(position, row - 1, col - 1, color, !up) || threat(position, row - 1, col, color, false)
        || threat(position, row - 1, col + 1, color, !up) || threat(position, row, col - 1, color, false)
        || threat(position, row, col + 1, color, false) || threat(position, row + 1, col - 1, color, up)
        || threat(position, row + 1, col, color, false) || threat(position, row + 1, col + 1, color, up)
}

/// The row step of a pawn of side `c`.
pub open spec fn pawn_dir(c: Color) -> int {
    if c == Color::White {
        1
    } else {
        -1
    }
}

/// The row from which a pawn of side `c` promotes on its next step.
pub open spec fn promotion_row(c: Color) -> int {
    if c == Color::White {
        7
    } else {
        2
    }
}

/// The row a pawn of side `c` starts on.
pub open spec fn start_row(c: Color) -> int {
    if c == Color::White {
        2
    } else {
        7
    }
}

/// `(row, col)` is an empty square of the board.
pub open spec fn free_square(m: PositionModel, row: int, col: int) -> bool {
    on_board(row, col) && !m.occupied(square_of(row, col))
}

/// `(row, col)` is a square of the board holding an enemy of side `c`.
pub open spec fn enemy_square(m: PositionModel, row: int, col: int, c: Color) -> bool {
    on_board(row, col) && m.holds(square_of(row, col), c.other())
}

/// Plain pawn destinations, in generation order: the single push, the double
/// push from the start row, then the captures towards the next and the previous
/// column; pushes and captures onto the last row are promotions instead.
pub open spec fn pawn_plain_targets(m: PositionModel, p: Piece) -> Seq<int> {
    let sq = square_of_piece(p);
    let row = row_of(sq);
    let col = col_of(sq);
    let d = pawn_dir(p.color);
    let promoting = row == promotion_row(p.color);
    let single = if !promoting && free_square(m, row + d, col) {
        seq![square_of(row + d, col)]
    } else {
        Seq::empty()
    };
    let double = if row == start_row(p.color) && free_square(m, row + d, col) && free_square(
        m,
        row + 2 * d,
        col,
    ) {
        seq![square_of(row + 2 * d, col)]
    } else {
        Seq::empty()
    };
    let right = if !promoting && enemy_square(m, row + d, col + 1, p.color) {
        seq![square_of(row + d, col + 1)]
    } else {
        Seq::empty()
    };
    let left = if !promoting && enemy_square(m, row + d, col - 1, p.color) {
        seq![square_of(row + d, col - 1)]
    } else {
        Seq::empty()
    };
    single + double + right + left
}

/// The four promotions of the piece on `from` on the empty square `to`: queen,
/// bishop, knight, rook.
pub open spec fn promotions(m: PositionModel, from: int, to: int) -> Seq<PositionModel> {
    seq![
        m.promoted(from, to, PieceType::Queen),
        m.promoted(from, to, PieceType::Bishop),
        m.promoted(from, to, PieceType::Knight),
        m.promoted(from, to, PieceType::Rook),
    ]
}

/// The promotions on the last row: by push when the square ahead is empty, then
/// by capture towards the next and the previous column.
pub open spec fn pawn_promotions(m: PositionModel, p: Piece) -> Seq<PositionModel> {
    let sq = square_of_piece(p);
    let row = row_of(sq);
    let col = col_of(sq);
    let d = pawn_dir(p.color);
    if row != promotion_row(p.color) {
        Seq::empty()
    } else {
        let push = if free_square(m, row + d, col) {
            promotions(m, sq, square_of(row + d, col))
        } else {
            Seq::empty()
        };
        let right = if enemy_square(m, row + d, col + 1, p.color) {
            let to = square_of(row + d, col + 1);
            promotions(m.moved(sq, to), to, to)
        } else {
            Seq::empty()
        };
        let left = if enemy_square(m, row + d, col - 1, p.color) {
            let to = square_of(row + d, col - 1);
            promotions(m.moved(sq, to), to, to)
        } else {
            Seq::empty()
        };
        push + right + left
    }
}

/// The en passant capture, when the target is the empty square diagonally ahead
/// of the pawn and an enemy pawn stands behind it.
pub open spec fn pawn_en_passant(m: PositionModel, p: Piece) -> Seq<PositionModel> {
    let sq = square_of_piece(p);
    let row = row_of(sq);
    let col = col_of(sq);
    match m.en_passant {
        Some(b) => {
            let e = lowest_bit(b);
            let victim = m.en_passant_victim(sq, e);
            if row_of(e) == row + pawn_dir(p.color) && (col_of(e) == col + 1 || col_of(e) == col
                - 1) && !m.occupied(e) && m.holds(victim, p.color.other()) && m.piece_on(
                victim,
            ).piece_type == PieceType::Pawn {
                seq![m.took_en_passant(sq, e)]
            } else {
                Seq::empty()
            }
        },
        None => Seq::empty(),
    }
}

/// Pawn moves: plain moves, then promotions, then the en passant capture.
pub open spec fn pawn_moves(m: PositionModel, p: Piece) -> Seq<PositionModel> {
    pawn_plain_targets(m, p).map_values(|t: int| m.moved(square_of_piece(p), t)) + pawn_promotions(
        m,
        p,
    ) + pawn_en_passant(m, p)
}

/// The index of `(row, col)` when it is an empty square of the board.
fn free_index(position: &Position, row: i32, col: i32) -> (r: Option<usize>)
    requires
        position@.wf(),
    ensures
        r is Some <==> free_square(position@, row as int, col as int),
        r is Some ==> r->0 == square_of(row as int, col as int) && r->0 < 64,
{
    if let Some(idx) = index(row, col) {
        if let Square::Empty = position.squares[idx] {
            return Some(idx);
        }
    }
    None
}

/// The index of `(row, col)` when it is a square of the board holding an enemy of `color`.
fn enemy_index(position: &Position, row: i32, col: i32, color: Color) -> (r: Option<usize>)
    requires
        position@.wf(),
    ensures
        r is Some <==> enemy_square(position@, row as int, col as int, color),
        r is Some ==> r->0 == square_of(row as int, col as int) && r->0 < 64,
{
    if let Some(idx) = index(row, col) {
        if let Square::Occupied(pidx) = position.squares[idx] {
            if position.pieces[pidx].color != color {
                return Some(idx);
            }
        }
    }
    None
}

/// Appends one promotion of the piece on `from` on square `to`.
fn push_promotion(
    position: &Position,
    from_bit: Bitboard,
    to: usize,
    kind: PieceType,
    out: &mut Vec<Position>,
)
    requires
        position@.wf(),
        is_square_mask(from_bit),
        position@.can_promote(lowest_bit(from_bit), to as int, kind),
        all_wf(old(out)@),
    ensures
        views(final(out)@) == views(old(out)@).push(
            position@.promoted(lowest_bit(from_bit), to as int, kind),
        ),
        all_wf(final(out)@),
{
    let mut new_position = position.duplicate();
    new_position.perform_promotion(from_bit, to, kind);
    proof {
        lemma_views_push(out@, new_position);
    }
    out.push(new_position);
}

/// Appends the four promotions of the piece on `from` on square `to`.
fn push_promotions(position: &Position, from_bit: Bitboard, to: usize, out: &mut Vec<Position>)
    requires
        position@.wf(),
        is_square_mask(from_bit),
        position@.can_promote(lowest_bit(from_bit), to as int, PieceType::Queen),
        all_wf(old(out)@),
    ensures
        views(final(out)@) == views(old(out)@) + promotions(position@, lowest_bit(from_bit), to as int),
        all_wf(final(out)@),
{
    let ghost start = views(out@);
    push_promotion(position, from_bit, to, PieceType::Queen, out);
    push_promotion(position, from_bit, to, PieceType::Bishop, out);
    push_promotion(position, from_bit, to, PieceType::Knight, out);
    push_promotion(position, from_bit, to, PieceType::Rook, out);
    assert(views(out@) =~= start + promotions(position@, lowest_bit(from_bit), to as int));
}

/// Appends the four promotions of the pawn on `from` capturing on `to`.
fn push_capture_promotions(
    position: &Position,
    from_bit: Bitboard,
    to: usize,
    out: &mut Vec<Position>,
)
    requires
        position@.wf(),
        is_square_mask(from_bit),
        position@.can_move(lowest_bit(from_bit), to as int),
        position@.pieces.len() < usize::MAX,
        all_wf(old(out)@),
    ensures
        views(final(out)@) == views(old(out)@) + promotions(
            position@.moved(lowest_bit(from_bit), to as int),
            to as int,
            to as int,
        ),
        all_wf(final(out)@),
{
    let mut captured = position.duplicate();
    captured.move_piece(from_bit, to);
    let to_bit = 1u64 << (to as u64);
    proof {
        lemma_mask_square(to as int);
        let m = position@.moved(lowest_bit(from_bit), to as int);
        assert(m.squares[to as int] is Occupied);
        assert(m.pieces.len() == position@.pieces.len());
    }
    push_promotions(&captured, to_bit, to, out);
}

/// The square, row, column and side-dependent rows of the pawn `piece`.
fn pawn_geometry(piece: &Piece) -> (r: (usize, i32, i32, i32, i32, i32))
    requires
        is_square_mask(piece.position),
    ensures
        r.0 == square_of_piece(*piece),
        r.0 < 64,
        r.1 == row_of(r.0 as int),
        r.2 == col_of(r.0 as int),
        r.3 == pawn_dir(piece.color),
        r.4 == promotion_row(piece.color),
        r.5 == start_row(piece.color),
{
    proof {
        lemma_mask_square(square_of_piece(*piece));
    }
    let from = bit_scan(piece.position);
    proof {
        lemma_lowest_unique(piece.position, from as int);
    }
    let (row, col) = rowcol(from);
    match piece.color {
        Color::White => (from, row, col, 1i32, 7i32, 2i32),
        Color::Black => (from, row, col, -1i32, 2i32, 7i32),
    }
}

/// Appends the plain moves of the pawn `piece`.
fn push_pawn_plain(position: &Position, piece: &Piece, out: &mut Vec<Position>)
    requires
        position@.wf(),
        is_live_piece(position@, *piece),
        all_wf(old(out)@),
    ensures
        views(final(out)@) == views(old(out)@) + pawn_plain_targets(position@, *piece).map_values(
            |t: int| position@.moved(square_of_piece(*piece), t),
        ),
        all_wf(final(out)@),
{
    let ghost m = position@;
    let (from, row, col, direction, last_row, first_row) = pawn_geometry(piece);
    let promoting = row == last_row;
    let ghost sq = from as int;
    let ghost start = views(out@);
    let ghost f = |t: int| m.moved(sq, t);
    proof {
        assert(m.holds(sq, piece.color));
    }
    let ghost d = direction as int;
    let ghost single: Seq<int> = if !promoting && free_square(m, row + d, col as int) {
        seq![square_of(row + d, col as int)]
    } else {
        Seq::empty()
    };
    let ghost double: Seq<int> = if row == first_row && free_square(m, row + d, col as int)
        && free_square(m, row + 2 * d, col as int) {
        seq![square_of(row + 2 * d, col as int)]
    } else {
        Seq::empty()
    };
    let ghost right: Seq<int> = if !promoting && enemy_square(m, row + d, col + 1, piece.color) {
        seq![square_of(row + d, col + 1)]
    } else {
        Seq::empty()
    };
    let ghost left: Seq<int> = if !promoting && enemy_square(m, row + d, col - 1, piece.color) {
        seq![square_of(row + d, col - 1)]
    } else {
        Seq::empty()
    };
    if !promoting {
        if let Some(idx) = free_index(position, row + direction, col) {
            push_move(position, piece.position, idx, out);
        }
    }
    assert(views(out@) =~= start + single.map_values(f));
    if row == first_row {
        if let Some(_) = free_index(position, row + direction, col) {
            if let Some(idx) = free_index(position, row + 2 * direction, col) {
                push_move(position, piece.position, idx, out);
            }
        }
    }
    assert(views(out@) =~= start + (single + double).map_values(f));
    if !promoting {
        if let Some(idx) = enemy_index(position, row + direction, col + 1, piece.color) {
            push_move(position, piece.position, idx, out);
        }
    }
    assert(views(out@) =~= start + (single + double + right).map_values(f));
    if !promoting {
        if let Some(idx) = enemy_index(position, row + direction, col - 1, piece.color) {
            push_move(position, piece.position, idx, out);
        }
    }
    assert(views(out@) =~= start + (single + double + right + left).map_values(f));
    assert(pawn_plain_targets(m, *piece) == single + double + right + left);
}

/// Appends the promotions of the pawn `piece`.
fn push_pawn_promotions(position: &Position, piece: &Piece, out: &mut Vec<Position>)
    requires
        position@.wf(),
        is_live_piece(position@, *piece),
        position@.pieces.len() < usize::MAX,
        all_wf(old(out)@),
    ensures
        views(final(out)@) == views(old(out)@) + pawn_promotions(position@, *piece),
        all_wf(final(out)@),
{
    let ghost m = position@;
    let (from, row, col, direction, last_row, _) = pawn_geometry(piece);
    let ghost start = views(out@);
    proof {
        assert(m.holds(from as int, piece.color));
    }
    if row == last_row {
        if let Some(idx) = free_index(position, row + direction, col) {
            push_promotions(position, piece.position, idx, out);
        }
        let ghost after_push = views(out@);
        if let Some(idx) = enemy_index(position, row + direction, col + 1, piece.color) {
            push_capture_promotions(position, piece.position, idx, out);
        }
        let ghost after_right = views(out@);
        if let Some(idx) = enemy_index(position, row + direction, col - 1, piece.color) {
            push_capture_promotions(position, piece.position, idx, out);
        }
        assert(views(out@) =~= start + pawn_promotions(m, *piece));
    } else {
        assert(views(out@) =~= start + pawn_promotions(m, *piece));
    }
}

/// Appends the en passant capture of the pawn `piece`, if it has one.
fn push_pawn_en_passant(position: &Position, piece: &Piece, out: &mut Vec<Position>)
    requires
        position@.wf(),
        is_live_piece(position@, *piece),
        all_wf(old(out)@),
    ensures
        views(final(out)@) == views(old(out)@) + pawn_en_passant(position@, *piece),
        all_wf(final(out)@),
{
    let ghost m = position@;
    let (from, row, col, direction, _, _) = pawn_geometry(piece);
    let ghost start = views(out@);
    if let Some(square) = position.en_passant {
        proof {
            lemma_mask_square(lowest_bit(square));
        }
        let e = bit_scan(square);
        proof {
            lemma_lowest_unique(square, e as int);
        }
        let (ep_row, ep_col) = rowcol(e);
        if row + direction == ep_row && (ep_col == col + 1 || ep_col == col - 1) {
            if let Square::Empty = position.squares[e] {
                let victim_row = if ep_row > row {
                    ep_row - 1
                } else {
                    ep_row + 1
                };
                if let Some(victim) = enemy_index(position, victim_row, ep_col, piece.color) {
                    if let Square::Occupied(vidx) = position.squares[victim] {
                        if position.pieces[vidx].piece_type == PieceType::Pawn {
                            let mut new_position = position.duplicate();
                            new_position.take_en_passant(piece.position, square);
                            proof {
                                lemma_views_push(out@, new_position);
                            }
                            out.push(new_position);
                        }
                    }
                }
            }
        }
    }
    assert(views(out@) =~= start + pawn_en_passant(m, *piece));
}

/// Moves of the pawn `piece`: pushes, captures, promotions and the en passant capture.
pub fn generate_pawn_moves(piece: &Piece, game: &Game) -> (r: Vec<Position>)
    requires
        game.wf(),
        is_live_piece(game.position@, *piece),
        game.position@.pieces.len() < usize::MAX,
    ensures
        views(r@) == pawn_moves(game.position@, *piece),
        all_wf(r@),
{
    let mut positions: Vec<Position> = Vec::new();
    proof {
        assert(views(positions@) =~= Seq::<PositionModel>::empty());
    }
    push_pawn_plain(&game.position, piece, &mut positions);
    push_pawn_promotions(&game.position, piece, &mut positions);
    push_pawn_en_passant(&game.position, piece, &mut positions);
    proof {
        assert(views(positions@) =~= pawn_moves(game.position@, *piece));
    }
    positions
}

/// The moves of the live piece `p` of `m`, by its kind.
pub open spec fn piece_moves(m: PositionModel, p: Piece) -> Seq<PositionModel> {
    match p.piece_type {
        PieceType::Knight => moves_to(m, square_of_piece(p), knight_targets(m, p)),
        PieceType::Bishop => bishop_moves(m, p),
        PieceType::Rook => rook_moves(m, p),
        PieceType::Queen => queen_moves(m, p),
        PieceType::King => moves_to(m, square_of_piece(p), king_targets(m, p)),
        PieceType::Pawn => pawn_moves(m, p),
    }
}

/// The candidate positions of the first `i` pieces of the store: those of each
/// live piece of the side to move, in store order.
pub open spec fn candidates_upto(m: PositionModel, i: int) -> Seq<PositionModel>
    decreases i,
{
    if i <= 0 {
        Seq::empty()
    } else {
        let p = m.pieces[i - 1];
        candidates_upto(m, i - 1) + if p.alive && p.color == m.active_color {
            piece_moves(m, p)
        } else {
            Seq::empty()
        }
    }
}

/// The positions of `s` in which side `c` is not in check, in order.
pub open spec fn keep_legal(s: Seq<PositionModel>, c: Color) -> Seq<PositionModel>
    decreases s.len(),
{
    if s.len() == 0 {
        Seq::empty()
    } else {
        keep_legal(s.drop_last(), c) + if in_check(s.last(), c) {
            Seq::empty()
        } else {
            seq![s.last()]
        }
    }
}

/// The legal successors of `m`: every candidate move of the side to move that
/// does not leave its own king in check.
pub open spec fn legal_moves(m: PositionModel) -> Seq<PositionModel> {
    keep_legal(candidates_upto(m, m.pieces.len() as int), m.active_color)
}

proof fn lemma_keep_legal_add(a: Seq<PositionModel>, b: Seq<PositionModel>, c: Color)
    ensures
        keep_legal(a + b, c) == keep_legal(a, c) + keep_legal(b, c),
    decreases b.len(),
{
    if b.len() == 0 {
        assert(a + b =~= a);
        assert(keep_legal(a, c) + keep_legal(b, c) =~= keep_legal(a, c));
    } else {
        assert((a + b).drop_last() =~= a + b.drop_last());
        lemma_keep_legal_add(a, b.drop_last(), c);
    }
}

/// The moves of the live piece `piece`, by its kind.
fn generate_piece_moves(piece: &Piece, game: &Game) -> (r: Vec<Position>)
    requires
        game.wf(),
        is_live_piece(game.position@, *piece),
        game.position@.pieces.len() < usize::MAX,
    ensures
        views(r@) == piece_moves(game.position@, *piece),
        all_wf(r@),
{
    match piece.piece_type {
        PieceType::Knight => generate_knight_moves(piece, game),
        PieceType::Bishop => generate_bishop_moves(piece, game),
        PieceType::Rook => generate_rook_moves(piece, game),
        PieceType::Queen => generate_queen_moves(piece, game),
        PieceType::King => generate_king_moves(piece, game),
        PieceType::Pawn => generate_pawn_moves(piece, game),
    }
}

/// The legal successors of the game's position: for each live piece of the side
/// to move, in store order, its candidate moves that do not leave that side's
/// king in check.
pub fn generate_moves(game: &Game) -> (r: Vec<Position>)
    requires
        game.wf(),
        game.position@.pieces.len() < usize::MAX,
    ensures
        views(r@) == legal_moves(game.position@),
        all_wf(r@),
{
    let ghost m = game.position@;
    let mut new_positions: Vec<Position> = Vec::new();
    proof {
        assert(views(new_positions@) =~= keep_legal(candidates_upto(m, 0), m.active_color));
    }
    for i in 0..game.position.pieces.len()
        invariant
            game.wf(),
            m == game.position@,
            m.pieces.len() < usize::MAX,
            views(new_positions@) == keep_legal(candidates_upto(m, i as int), m.active_color),
            all_wf(new_positions@),
    {
        let piece = game.position.pieces[i];
        if piece.alive && piece.color == game.position.active_color {
            proof {
                assert(m.pieces[i as int].alive);
            }
            let positions = generate_piece_moves(&piece, game);
            let ghost before = views(new_positions@);
            for j in 0..positions.len()
                invariant
                    game.wf(),
                    m == game.position@,
                    all_wf(positions@),
                    all_wf(new_positions@),
                    views(positions@) == piece_moves(m, piece),
                    views(new_positions@) == before + keep_legal(
                        views(positions@).take(j as int),
                        m.active_color,
                    ),
            {
                let pos = &positions[j];
                let ghost taken = views(positions@).take(j + 1);
                proof {
                    assert(taken.drop_last() =~= views(positions@).take(j as int));
                    assert(taken.last() == pos@);
                }
                if !king_is_in_check(
                    pos,
                    game.position.active_color,
                    &game.ray_attacks,
                    &game.knight_attacks,
                ) {
                    let copy = pos.duplicate();
                    proof {
                        lemma_views_push(new_positions@, copy);
                    }
                    new_positions.push(copy);
                }
            }
            proof {
                assert(views(positions@).take(positions@.len() as int) =~= views(positions@));
                lemma_keep_legal_add(
                    candidates_upto(m, i as int),
                    piece_moves(m, piece),
                    m.active_color,
                );
            }
        } else {
            proof {
                assert(candidates_upto(m, i + 1) =~= candidates_upto(m, i as int));
            }
        }
    }
    new_positions
}

/// The kind of the `k`-th promotion candidate: queen, bishop, knight, rook.
pub open spec fn promotion_kind(k: int) -> PieceType {
    if k == 0 {
        PieceType::Queen
    } else if k == 1 {
        PieceType::Bishop
    } else if k == 2 {
        PieceType::Knight
    } else {
        PieceType::Rook
    }
}

/// A pawn about to promote, with the square ahead empty and nothing to capture,
/// has exactly four moves, one per promotion kind (queen, bishop, knight, rook):
/// in each the pawn is dead, its square empty, and a new live piece of its side
/// and of that kind, appended to the store, stands on the square ahead.
pub proof fn lemma_promotion_candidates(m: PositionModel, p: Piece)
    requires
        m.wf(),
        is_live_piece(m, p),
        p.piece_type == PieceType::Pawn,
        row_of(square_of_piece(p)) == promotion_row(p.color),
        free_square(m, promotion_row(p.color) + pawn_dir(p.color), col_of(square_of_piece(p))),
        !enemy_square(
            m,
            promotion_row(p.color) + pawn_dir(p.color),
            col_of(square_of_piece(p)) + 1,
            p.color,
        ),
        !enemy_square(
            m,
            promotion_row(p.color) + pawn_dir(p.color),
            col_of(square_of_piece(p)) - 1,
            p.color,
        ),
        m.en_passant is None,
    ensures
        ({
            let moves = pawn_moves(m, p);
            let from = square_of_piece(p);
            let to = square_of(promotion_row(p.color) + pawn_dir(p.color), col_of(from));
            let pi = m.occupant(from);
            &&& moves.len() == 4
            &&& forall|k: int|
                0 <= k < 4 ==> {
                    let c = #[trigger] moves[k];
                    &&& c.pieces.len() == m.pieces.len() + 1
                    &&& !c.pieces[pi].alive
                    &&& c.pieces.last() == Piece {
                        position: bit_at(to),
                        color: p.color,
                        piece_type: promotion_kind(k),
                        alive: true,
                    }
                    &&& c.squares[to] == Square::Occupied(m.pieces.len() as usize)
                    &&& c.squares[from] == Square::Empty
                }
        }),
{
    let moves = pawn_moves(m, p);
    let from = square_of_piece(p);
    let to = square_of(promotion_row(p.color) + pawn_dir(p.color), col_of(from));
    assert(pawn_plain_targets(m, p) =~= Seq::<int>::empty());
    assert(pawn_en_passant(m, p) =~= Seq::<PositionModel>::empty());
    assert(pawn_promotions(m, p) =~= promotions(m, from, to));
    assert(moves =~= promotions(m, from, to));
    assert(from != to);
}

proof fn lemma_keep_legal_sound(s: Seq<PositionModel>, c: Color)
    ensures
        forall|k: int| 0 <= k < keep_legal(s, c).len() ==> !in_check(#[trigger] keep_legal(s, c)[k], c),
    decreases s.len(),
{
    if s.len() > 0 {
        lemma_keep_legal_sound(s.drop_last(), c);
        let front = keep_legal(s.drop_last(), c);
        assert forall|k: int| 0 <= k < keep_legal(s, c).len() implies !in_check(
            #[trigger] keep_legal(s, c)[k],
            c,
        ) by {
            if k < front.len() {
                assert(keep_legal(s, c)[k] == front[k]);
            }
        }
    }
}

/// No legal successor leaves the mover's own king in check: every position
/// `generate_moves` returns has the side to move out of check.
pub proof fn lemma_legal_moves_leave_no_check(m: PositionModel)
    ensures
        forall|k: int|
            0 <= k < legal_moves(m).len() ==> !in_check(#[trigger] legal_moves(m)[k], m.active_color),
{
    lemma_keep_legal_sound(candidates_upto(m, m.pieces.len() as int), m.active_color);
}

} // verus!
