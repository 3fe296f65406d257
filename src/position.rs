use crate::utils::{
    bit_at, bit_scan, col_of, group_bitboard, has_bit, index, lemma_lowest_unique,
    lemma_mask_square, lowest_bit, on_board, row_of, rowcol, square_of, Bitboard,
};
use crate::text::{chars_of, push_char};
use vstd::prelude::*;
use vstd::utf8::is_ascii_chars_encode_utf8;

verus! {

broadcast use group_bitboard;

/// The side a piece belongs to.
#[derive(Debug, PartialEq, Eq, Structural, Clone, Copy)]
pub enum Color {
    White,
    Black,
}

impl Color {
    /// The other side.
    pub open spec fn other(self) -> Color {
        match self {
            Color::White => Color::Black,
            Color::Black => Color::White,
        }
    }

    pub fn opposite(&self) -> (r: Self)
        ensures
            r == self.other(),
            r != *self,
    {
        match self {
            Color::White => Color::Black,
            Color::Black => Color::White,
        }
    }
}

#[derive(Debug, PartialEq, Eq, Structural, Clone, Copy)]
pub enum PieceType {
    Pawn,
    Rook,
    Knight,
    Bishop,
    Queen,
    King,
}

/// A piece: its square as a one-bit mask, its side, its kind, and whether it is
/// still on the board. Captured pieces stay in the store, marked dead.
#[derive(Debug, PartialEq, Eq, Structural, Clone, Copy)]
pub struct Piece {
    pub position: Bitboard,
    pub color: Color,
    pub piece_type: PieceType,
    pub alive: bool,
}

/// What a board square holds: nothing, or the piece with this index in the store.
#[derive(Debug, PartialEq, Eq, Structural, Clone, Copy)]
pub enum Square {
    Empty,
    Occupied(usize),
}

/// The four castling flags.
#[derive(Debug, PartialEq, Eq, Structural, Clone, Copy)]
pub struct CastlingRights {
    pub white_king_side: bool,
    pub white_queen_side: bool,
    pub black_king_side: bool,
    pub black_queen_side: bool,
}

impl CastlingRights {
    /// No castling right, as a value.
    pub open spec fn empty_spec() -> CastlingRights {
        CastlingRights {
            white_king_side: false,
            white_queen_side: false,
            black_king_side: false,
            black_queen_side: false,
        }
    }

    /// Every castling right, as a value.
    pub open spec fn all_spec() -> CastlingRights {
        CastlingRights {
            white_king_side: true,
            white_queen_side: true,
            black_king_side: true,
            black_queen_side: true,
        }
    }

    /// No castling right.
    pub fn empty() -> (r: Self)
        ensures
            r == Self::empty_spec(),
    {
        CastlingRights {
            white_king_side: false,
            white_queen_side: false,
            black_king_side: false,
            black_queen_side: false,
        }
    }

    /// Every castling right.
    pub fn all() -> (r: Self)
        ensures
            r == Self::all_spec(),
    {
        CastlingRights {
            white_king_side: true,
            white_queen_side: true,
            black_king_side: true,
            black_queen_side: true,
        }
    }

    /// The rights whose flags are the bits of `bits`: 1 white king side, 2 white
    /// queen side, 4 black king side, 8 black queen side; `None` if another bit is set.
    pub fn from_bits(bits: u8) -> (r: Option<Self>)
        ensures
            r is Some <==> bits < 16,
            r is Some ==> r->0.white_king_side == (bits & 1 != 0) && r->0.white_queen_side == (
            bits & 2 != 0) && r->0.black_king_side == (bits & 4 != 0) && r->0.black_queen_side
                == (bits & 8 != 0),
    {
        if bits >= 16 {
            return None;
        }
        Some(
            CastlingRights {
                white_king_side: bits & 1 != 0,
                white_queen_side: bits & 2 != 0,
                black_king_side: bits & 4 != 0,
                black_queen_side: bits & 8 != 0,
            },
        )
    }
}

/// A chess position: the piece store, the board of 64 squares pointing into it,
/// the side to move, castling rights, the en passant target, the move counters,
/// and one occupancy mask per side.
#[derive(Clone)]
pub struct Position {
    pub pieces: Vec<Piece>,
    pub squares: Vec<Square>,
    pub active_color: Color,
    pub castling_rights: CastlingRights,
    pub en_passant: Option<Bitboard>,
    pub halfmove_clock: usize,
    pub fullmove_number: usize,
    pub white_occupancy: Bitboard,
    pub black_occupancy: Bitboard,
}

/// The mathematical value of a `Position`.
pub struct PositionModel {
    pub pieces: Seq<Piece>,
    pub squares: Seq<Square>,
    pub active_color: Color,
    pub castling_rights: CastlingRights,
    pub en_passant: Option<u64>,
    pub halfmove_clock: usize,
    pub fullmove_number: usize,
    pub white_occupancy: u64,
    pub black_occupancy: u64,
}

impl View for Position {
    type V = PositionModel;

    open spec fn view(&self) -> PositionModel {
        PositionModel {
            pieces: self.pieces@,
            squares: self.squares@,
            active_color: self.active_color,
            castling_rights: self.castling_rights,
            en_passant: self.en_passant,
            halfmove_clock: self.halfmove_clock,
            fullmove_number: self.fullmove_number,
            white_occupancy: self.white_occupancy,
            black_occupancy: self.black_occupancy,
        }
    }
}

/// `b` is the one-bit mask of a board square.
pub open spec fn is_square_mask(b: u64) -> bool {
    0 <= lowest_bit(b) < 64 && b == bit_at(lowest_bit(b))
}

impl PositionModel {
    /// Index into the store of the piece on square `s`.
    pub open spec fn occupant(self, s: int) -> int {
        self.squares[s]->Occupied_0 as int
    }

    /// Square `s` holds a piece.
    pub open spec fn occupied(self, s: int) -> bool {
        self.squares[s] is Occupied
    }

    /// The piece on square `s`.
    pub open spec fn piece_on(self, s: int) -> Piece {
        self.pieces[self.occupant(s)]
    }

    /// Square `s` holds a piece of side `c`.
    pub open spec fn holds(self, s: int, c: Color) -> bool {
        self.occupied(s) && self.piece_on(s).color == c
    }

    /// Square `(row, col)` is on the board and holds a pawn of the side opposed to `c`.
    pub open spec fn enemy_pawn_at(self, row: int, col: int, c: Color) -> bool {
        on_board(row, col) && self.occupied(square_of(row, col)) && self.piece_on(
            square_of(row, col),
        ).piece_type == PieceType::Pawn && self.piece_on(square_of(row, col)).color != c
    }

    /// The occupancy mask of side `c`.
    pub open spec fn occupancy(self, c: Color) -> u64 {
        match c {
            Color::White => self.white_occupancy,
            Color::Black => self.black_occupancy,
        }
    }

    /// The board, the store and the occupancy masks agree: every occupied square
    /// points at a live piece standing there, every live piece stands on a square
    /// that points back at it, each side's mask is the set of squares holding its
    /// pieces, and an en passant target is a single square.
    pub open spec fn wf(self) -> bool {
        &&& self.squares.len() == 64
        &&& forall|s: int|
            0 <= s < 64 && (#[trigger] self.squares[s]) is Occupied ==> {
                let i = self.squares[s]->Occupied_0 as int;
                &&& 0 <= i < self.pieces.len()
                &&& self.pieces[i].alive
                &&& self.pieces[i].position == bit_at(s)
            }
        &&& forall|i: int|
            0 <= i < self.pieces.len() && (#[trigger] self.pieces[i]).alive ==> {
                let s = lowest_bit(self.pieces[i].position);
                &&& is_square_mask(self.pieces[i].position)
                &&& self.occupied(s)
                &&& self.occupant(s) == i
            }
        &&& forall|s: int|
            0 <= s < 64 ==> (#[trigger] has_bit(self.white_occupancy, s) <==> self.holds(
                s,
                Color::White,
            ))
        &&& forall|s: int|
            0 <= s < 64 ==> (#[trigger] has_bit(self.black_occupancy, s) <==> self.holds(
                s,
                Color::Black,
            ))
        &&& self.en_passant is Some ==> is_square_mask(self.en_passant->0)
    }

    /// Where an en passant target stands after moving the piece on `from` to `to`:
    /// a pawn's double push past an enemy pawn next to its landing square sets it
    /// to the square passed over, any other double push clears it, any other pawn
    /// move keeps it, and any other piece's move clears it.
    pub open spec fn en_passant_after(self, from: int, to: int) -> Option<u64> {
        let mover = self.piece_on(from);
        if mover.piece_type != PieceType::Pawn {
            None
        } else if row_of(to) - row_of(from) == 2 || row_of(from) - row_of(to) == 2 {
            if self.enemy_pawn_at(row_of(to), col_of(from) + 1, mover.color) || self.enemy_pawn_at(
                row_of(to),
                col_of(from) - 1,
                mover.color,
            ) {
                let mid = if row_of(to) > row_of(from) {
                    row_of(from) + 1
                } else {
                    row_of(from) - 1
                };
                Some(bit_at(square_of(mid, col_of(from))))
            } else {
                None
            }
        } else {
            self.en_passant
        }
    }

    /// The position after the piece on `from` moves to `to`, taking whatever stands there.
    pub open spec fn moved(self, from: int, to: int) -> PositionModel {
        let pi = self.occupant(from);
        let mover = self.pieces[pi];
        let relocated = self.pieces.update(pi, Piece { position: bit_at(to), ..mover });
        let pieces = if self.occupied(to) {
            let q = self.occupant(to);
            relocated.update(q, Piece { alive: false, ..relocated[q] })
        } else {
            relocated
        };
        let own = (self.occupancy(mover.color) & !bit_at(from)) | bit_at(to);
        let enemy = self.occupancy(mover.color.other()) & !bit_at(to);
        PositionModel {
            pieces: pieces,
            squares: self.squares.update(from, Square::Empty).update(to, Square::Occupied(pi as usize)),
            en_passant: self.en_passant_after(from, to),
            white_occupancy: if mover.color == Color::White { own } else { enemy },
            black_occupancy: if mover.color == Color::Black { own } else { enemy },
            ..self
        }
    }

    /// A move of the piece on `from` to `to` that `move_piece` accepts: `from`
    /// holds a piece, and `to` is another square, empty or holding an enemy piece.
    pub open spec fn can_move(self, from: int, to: int) -> bool {
        &&& 0 <= from < 64
        &&& 0 <= to < 64
        &&& from != to
        &&& self.occupied(from)
        &&& self.occupied(to) ==> self.piece_on(to).color != self.piece_on(from).color
    }

    /// The square of the pawn taken en passant by the piece on `from` landing on
    /// `to`: in `to`'s column, one row back towards `from`.
    pub open spec fn en_passant_victim(self, from: int, to: int) -> int {
        if row_of(to) > row_of(from) {
            square_of(row_of(to) - 1, col_of(to))
        } else {
            square_of(row_of(to) + 1, col_of(to))
        }
    }

    /// An en passant capture that `take_en_passant` accepts: `from` holds a piece,
    /// `to` is an empty square one row away, and the square behind `to` holds an
    /// enemy piece.
    pub open spec fn can_take_en_passant(self, from: int, to: int) -> bool {
        &&& 0 <= from < 64
        &&& 0 <= to < 64
        &&& (row_of(to) == row_of(from) + 1 || row_of(to) == row_of(from) - 1)
        &&& self.occupied(from)
        &&& !self.occupied(to)
        &&& self.holds(self.en_passant_victim(from, to), self.piece_on(from).color.other())
    }

    /// The position after the piece on `from` moves to `to` and takes the pawn
    /// behind `to`; the en passant target is cleared.
    pub open spec fn took_en_passant(self, from: int, to: int) -> PositionModel {
        let pi = self.occupant(from);
        let mover = self.pieces[pi];
        let t = self.en_passant_victim(from, to);
        let q = self.occupant(t);
        let relocated = self.pieces.update(pi, Piece { position: bit_at(to), ..mover });
        let own = (self.occupancy(mover.color) & !bit_at(from)) | bit_at(to);
        let enemy = self.occupancy(mover.color.other()) & !bit_at(t);
        PositionModel {
            pieces: relocated.update(q, Piece { alive: false, ..relocated[q] }),
            squares: self.squares.update(from, Square::Empty).update(to, Square::Occupied(pi as usize)).update(t, Square::Empty),
            en_passant: None,
            white_occupancy: if mover.color == Color::White { own } else { enemy },
            black_occupancy: if mover.color == Color::Black { own } else { enemy },
            ..self
        }
    }

    /// A promotion that `perform_promotion` accepts: `from` holds a piece, `to` is
    /// empty once it has left, and the new kind is queen, rook, bishop or knight.
    pub open spec fn can_promote(self, from: int, to: int, kind: PieceType) -> bool {
        &&& 0 <= from < 64
        &&& 0 <= to < 64
        &&& self.occupied(from)
        &&& (to == from || !self.occupied(to))
        &&& is_promotion_kind(kind)
        &&& self.pieces.len() < usize::MAX
    }

    /// The position after the piece on `from` is removed and a new live piece of
    /// its side and of kind `kind` is appended to the store on square `to`.
    pub open spec fn promoted(self, from: int, to: int, kind: PieceType) -> PositionModel {
        let pi = self.occupant(from);
        let mover = self.pieces[pi];
        let fresh = Piece { position: bit_at(to), color: mover.color, piece_type: kind, alive: true };
        let own = (self.occupancy(mover.color) & !bit_at(from)) | bit_at(to);
        PositionModel {
            pieces: self.pieces.update(pi, Piece { alive: false, ..mover }).push(fresh),
            squares: self.squares.update(from, Square::Empty).update(to, Square::Occupied(self.pieces.len() as usize)),
            white_occupancy: if mover.color == Color::White { own } else { self.white_occupancy },
            black_occupancy: if mover.color == Color::Black { own } else { self.black_occupancy },
            ..self
        }
    }

    /// The position after a new live piece is placed on the empty square `s`.
    pub open spec fn added(self, c: Color, kind: PieceType, s: int) -> PositionModel {
        let fresh = Piece { position: bit_at(s), color: c, piece_type: kind, alive: true };
        PositionModel {
            pieces: self.pieces.push(fresh),
            squares: self.squares.update(s, Square::Occupied(self.pieces.len() as usize)),
            white_occupancy: if c == Color::White { self.white_occupancy | bit_at(s) } else { self.white_occupancy },
            black_occupancy: if c == Color::Black { self.black_occupancy | bit_at(s) } else { self.black_occupancy },
            ..self
        }
    }

    /// Side and kind of the piece on square `s`, if any.
    pub open spec fn board_at(self, s: int) -> Option<(Color, PieceType)> {
        if self.occupied(s) {
            Some((self.piece_on(s).color, self.piece_on(s).piece_type))
        } else {
            None
        }
    }
}

/// The kinds a pawn may promote to.
pub open spec fn is_promotion_kind(kind: PieceType) -> bool {
    kind == PieceType::Queen || kind == PieceType::Rook || kind == PieceType::Bishop || kind
        == PieceType::Knight
}

/// The number of live pieces in a store.
pub open spec fn alive_count(pieces: Seq<Piece>) -> nat
    decreases pieces.len(),
{
    if pieces.len() == 0 {
        0
    } else {
        alive_count(pieces.drop_last()) + if pieces.last().alive {
            1nat
        } else {
            0nat
        }
    }
}

/// Moving a piece keeps a consistent position consistent.
pub proof fn lemma_moved_wf(m: PositionModel, from: int, to: int)
    requires
        m.wf(),
        m.can_move(from, to),
    ensures
        m.moved(from, to).wf(),
{
    let n = m.moved(from, to);
    let pi = m.occupant(from);
    let c = m.pieces[pi].color;
    lemma_mask_square(from);
    lemma_mask_square(to);
    assert(m.squares[from] is Occupied);
    assert(m.pieces[pi].position == bit_at(from));
    if m.occupied(to) {
        assert(m.squares[to] is Occupied);
        assert(m.pieces[m.occupant(to)].position == bit_at(to));
    }
    assert forall|s: int| 0 <= s < 64 && (#[trigger] n.squares[s]) is Occupied implies {
        let i = n.squares[s]->Occupied_0 as int;
        &&& 0 <= i < n.pieces.len()
        &&& n.pieces[i].alive
        &&& n.pieces[i].position == bit_at(s)
    } by {
        if s != to && s != from {
            assert(m.squares[s] is Occupied);
            let i = m.occupant(s);
            lemma_mask_square(s);
            assert(i != pi);
            if m.occupied(to) {
                assert(i != m.occupant(to));
            }
        }
    }
    assert forall|i: int| 0 <= i < n.pieces.len() && (#[trigger] n.pieces[i]).alive implies {
        let s = lowest_bit(n.pieces[i].position);
        &&& is_square_mask(n.pieces[i].position)
        &&& n.occupied(s)
        &&& n.occupant(s) == i
    } by {
        if i != pi {
            assert(m.pieces[i].alive);
            let s = lowest_bit(m.pieces[i].position);
            assert(m.occupant(s) == i);
            assert(s != from);
            if s == to {
                assert(m.occupied(to));
                assert(m.occupant(to) == i);
                assert(n.pieces[i] == m.pieces[i]);
            }
        }
    }
    assert forall|s: int| 0 <= s < 64 implies (#[trigger] has_bit(n.white_occupancy, s)
        <==> n.holds(s, Color::White)) by {
        assert(has_bit(m.white_occupancy, s) <==> m.holds(s, Color::White));
        if s != to && s != from {
            assert(m.squares[s] is Occupied ==> m.occupant(s) != pi);
            if m.occupied(s) {
                lemma_mask_square(s);
                assert(m.pieces[m.occupant(s)].position == bit_at(s));
                if m.occupied(to) {
                    assert(m.occupant(s) != m.occupant(to));
                }
            }
        }
    }
    assert forall|s: int| 0 <= s < 64 implies (#[trigger] has_bit(n.black_occupancy, s)
        <==> n.holds(s, Color::Black)) by {
        assert(has_bit(m.black_occupancy, s) <==> m.holds(s, Color::Black));
        if s != to && s != from {
            assert(m.squares[s] is Occupied ==> m.occupant(s) != pi);
            if m.occupied(s) {
                lemma_mask_square(s);
                assert(m.pieces[m.occupant(s)].position == bit_at(s));
                if m.occupied(to) {
                    assert(m.occupant(s) != m.occupant(to));
                }
            }
        }
    }
    if n.en_passant is Some && n.en_passant != m.en_passant {
        let mid = if row_of(to) > row_of(from) {
            row_of(from) + 1
        } else {
            row_of(from) - 1
        };
        assert(0 <= square_of(mid, col_of(from)) < 64);
        lemma_mask_square(square_of(mid, col_of(from)));
    }
}

/// Taking en passant keeps a consistent position consistent.
pub proof fn lemma_took_en_passant_wf(m: PositionModel, from: int, to: int)
    requires
        m.wf(),
        m.can_take_en_passant(from, to),
    ensures
        m.took_en_passant(from, to).wf(),
{
    let n = m.took_en_passant(from, to);
    let pi = m.occupant(from);
    let t = m.en_passant_victim(from, to);
    let q = m.occupant(t);
    lemma_mask_square(from);
    lemma_mask_square(to);
    assert(0 <= t < 64);
    lemma_mask_square(t);
    assert(m.squares[from] is Occupied);
    assert(m.squares[t] is Occupied);
    assert(m.pieces[pi].position == bit_at(from));
    assert(m.pieces[q].position == bit_at(t));
    assert(t != from);
    assert(t != to);
    assert(q != pi);
    assert forall|s: int| 0 <= s < 64 && (#[trigger] n.squares[s]) is Occupied implies {
        let i = n.squares[s]->Occupied_0 as int;
        &&& 0 <= i < n.pieces.len()
        &&& n.pieces[i].alive
        &&& n.pieces[i].position == bit_at(s)
    } by {
        if s != to && s != from && s != t {
            assert(m.squares[s] is Occupied);
            let i = m.occupant(s);
            lemma_mask_square(s);
            assert(i != pi);
            assert(i != q);
        }
    }
    assert forall|i: int| 0 <= i < n.pieces.len() && (#[trigger] n.pieces[i]).alive implies {
        let s = lowest_bit(n.pieces[i].position);
        &&& is_square_mask(n.pieces[i].position)
        &&& n.occupied(s)
        &&& n.occupant(s) == i
    } by {
        if i != pi && i != q {
            assert(m.pieces[i].alive);
            let s = lowest_bit(m.pieces[i].position);
            assert(m.occupant(s) == i);
            assert(s != from);
            assert(s != t);
            assert(s != to);
        }
    }
    assert forall|s: int| 0 <= s < 64 implies (#[trigger] has_bit(n.white_occupancy, s)
        <==> n.holds(s, Color::White)) by {
        assert(has_bit(m.white_occupancy, s) <==> m.holds(s, Color::White));
        if s != to && s != from && s != t && m.occupied(s) {
            lemma_mask_square(s);
            assert(m.pieces[m.occupant(s)].position == bit_at(s));
            assert(m.occupant(s) != pi);
            assert(m.occupant(s) != q);
        }
    }
    assert forall|s: int| 0 <= s < 64 implies (#[trigger] has_bit(n.black_occupancy, s)
        <==> n.holds(s, Color::Black)) by {
        assert(has_bit(m.black_occupancy, s) <==> m.holds(s, Color::Black));
        if s != to && s != from && s != t && m.occupied(s) {
            lemma_mask_square(s);
            assert(m.pieces[m.occupant(s)].position == bit_at(s));
            assert(m.occupant(s) != pi);
            assert(m.occupant(s) != q);
        }
    }
}

/// Promoting keeps a consistent position consistent.
pub proof fn lemma_promoted_wf(m: PositionModel, from: int, to: int, kind: PieceType)
    requires
        m.wf(),
        m.can_promote(from, to, kind),
    ensures
        m.promoted(from, to, kind).wf(),
{
    let n = m.promoted(from, to, kind);
    let pi = m.occupant(from);
    let k = m.pieces.len() as int;
    lemma_mask_square(from);
    lemma_mask_square(to);
    assert(m.squares[from] is Occupied);
    assert(m.pieces[pi].position == bit_at(from));
    assert(n.pieces[k].alive);
    assert forall|s: int| 0 <= s < 64 && (#[trigger] n.squares[s]) is Occupied implies {
        let i = n.squares[s]->Occupied_0 as int;
        &&& 0 <= i < n.pieces.len()
        &&& n.pieces[i].alive
        &&& n.pieces[i].position == bit_at(s)
    } by {
        if s != to && s != from {
            assert(m.squares[s] is Occupied);
            let i = m.occupant(s);
            lemma_mask_square(s);
            assert(i != pi);
        }
    }
    assert forall|i: int| 0 <= i < n.pieces.len() && (#[trigger] n.pieces[i]).alive implies {
        let s = lowest_bit(n.pieces[i].position);
        &&& is_square_mask(n.pieces[i].position)
        &&& n.occupied(s)
        &&& n.occupant(s) == i
    } by {
        if i != pi && i != k {
            assert(m.pieces[i].alive);
            let s = lowest_bit(m.pieces[i].position);
            assert(m.occupant(s) == i);
            assert(s != from);
            assert(s != to);
        }
    }
    assert forall|s: int| 0 <= s < 64 implies (#[trigger] has_bit(n.white_occupancy, s)
        <==> n.holds(s, Color::White)) by {
        assert(has_bit(m.white_occupancy, s) <==> m.holds(s, Color::White));
        if s != to && s != from && m.occupied(s) {
            lemma_mask_square(s);
            assert(m.pieces[m.occupant(s)].position == bit_at(s));
            assert(m.occupant(s) != pi);
        }
    }
    assert forall|s: int| 0 <= s < 64 implies (#[trigger] has_bit(n.black_occupancy, s)
        <==> n.holds(s, Color::Black)) by {
        assert(has_bit(m.black_occupancy, s) <==> m.holds(s, Color::Black));
        if s != to && s != from && m.occupied(s) {
            lemma_mask_square(s);
            assert(m.pieces[m.occupant(s)].position == bit_at(s));
            assert(m.occupant(s) != pi);
        }
    }
}

/// Placing a piece on an empty square keeps a consistent position consistent.
pub proof fn lemma_added_wf(m: PositionModel, c: Color, kind: PieceType, sq: int)
    requires
        m.wf(),
        0 <= sq < 64,
        !m.occupied(sq),
        m.pieces.len() < usize::MAX,
    ensures
        m.added(c, kind, sq).wf(),
{
    let n = m.added(c, kind, sq);
    let k = m.pieces.len() as int;
    lemma_mask_square(sq);
    assert(n.pieces[k].alive);
    assert forall|s: int| 0 <= s < 64 && (#[trigger] n.squares[s]) is Occupied implies {
        let i = n.squares[s]->Occupied_0 as int;
        &&& 0 <= i < n.pieces.len()
        &&& n.pieces[i].alive
        &&& n.pieces[i].position == bit_at(s)
    } by {
        if s != sq {
            assert(m.squares[s] is Occupied);
        }
    }
    assert forall|i: int| 0 <= i < n.pieces.len() && (#[trigger] n.pieces[i]).alive implies {
        let s = lowest_bit(n.pieces[i].position);
        &&& is_square_mask(n.pieces[i].position)
        &&& n.occupied(s)
        &&& n.occupant(s) == i
    } by {
        if i != k {
            assert(m.pieces[i].alive);
            let s = lowest_bit(m.pieces[i].position);
            assert(m.occupant(s) == i);
            assert(s != sq);
        }
    }
    assert forall|s: int| 0 <= s < 64 implies (#[trigger] has_bit(n.white_occupancy, s)
        <==> n.holds(s, Color::White)) by {
        assert(has_bit(m.white_occupancy, s) <==> m.holds(s, Color::White));
    }
    assert forall|s: int| 0 <= s < 64 implies (#[trigger] has_bit(n.black_occupancy, s)
        <==> n.holds(s, Color::Black)) by {
        assert(has_bit(m.black_occupancy, s) <==> m.holds(s, Color::Black));
    }
}

/// `s` names a square in algebraic notation: a file letter `a`-`h` then a rank digit `1`-`8`.
pub open spec fn is_square_name(s: Seq<char>) -> bool {
    s.len() == 2 && 'a' <= s[0] <= 'h' && '1' <= s[1] <= '8'
}

/// The index of the square named `s`.
pub open spec fn named_square(s: Seq<char>) -> int {
    (s[1] as int - '1' as int) * 8 + (s[0] as int - 'a' as int)
}

/// The index of the square named `square` (`"a1"` is 0, `"h8"` is 63).
pub fn square_to_index(square: &str) -> (r: usize)
    requires
        is_square_name(square@),
    ensures
        r == named_square(square@),
        r < 64,
{
    proof {
        is_ascii_chars_encode_utf8(square@);
    }
    let bytes = square.as_bytes();
    let col: u8 = bytes[0] - 97;
    let row: u8 = bytes[1] - 49;
    (row as usize) * 8 + col as usize
}

/// The kind of the piece that starts on file `file` (0 for a) of a back rank.
pub open spec fn back_rank_kind(file: int) -> PieceType {
    if file == 0 || file == 7 {
        PieceType::Rook
    } else if file == 1 || file == 6 {
        PieceType::Knight
    } else if file == 2 || file == 5 {
        PieceType::Bishop
    } else if file == 3 {
        PieceType::Queen
    } else {
        PieceType::King
    }
}

/// What square `s` holds in the starting position.
pub open spec fn start_board(s: int) -> Option<(Color, PieceType)> {
    if 0 <= s < 8 {
        Some((Color::White, back_rank_kind(s)))
    } else if 8 <= s < 16 {
        Some((Color::White, PieceType::Pawn))
    } else if 48 <= s < 56 {
        Some((Color::Black, PieceType::Pawn))
    } else if 56 <= s < 64 {
        Some((Color::Black, back_rank_kind(s - 56)))
    } else {
        None
    }
}

/// The square of the `k`-th piece of the starting position in reading order:
/// rank 8, rank 7, rank 2, then rank 1, each from file a.
pub open spec fn start_square(k: int) -> int {
    if k < 8 {
        56 + k
    } else if k < 16 {
        40 + k
    } else if k < 24 {
        k - 8
    } else {
        k - 24
    }
}

/// The rank of square `s` in that reading order (32 for a square left empty).
pub open spec fn start_order(s: int) -> int {
    if 56 <= s < 64 {
        s - 56
    } else if 48 <= s < 56 {
        s - 40
    } else if 8 <= s < 16 {
        s + 8
    } else if 0 <= s < 8 {
        s + 24
    } else {
        32
    }
}

fn start_square_exec(k: usize) -> (r: usize)
    requires
        k < 32,
    ensures
        r == start_square(k as int),
        r < 64,
        start_order(r as int) == k,
{
    if k < 8 {
        56 + k
    } else if k < 16 {
        40 + k
    } else if k < 24 {
        k - 8
    } else {
        k - 24
    }
}

fn back_rank_kind_exec(file: usize) -> (r: PieceType)
    ensures
        r == back_rank_kind(file as int),
{
    if file == 0 || file == 7 {
        PieceType::Rook
    } else if file == 1 || file == 6 {
        PieceType::Knight
    } else if file == 2 || file == 5 {
        PieceType::Bishop
    } else if file == 3 {
        PieceType::Queen
    } else {
        PieceType::King
    }
}

/// `m` is the starting position, white to move, all castling rights, no en
/// passant target, halfmove clock 0 and fullmove number 1, its pieces stored in
/// reading order.
pub open spec fn is_start_position(m: PositionModel) -> bool {
    &&& forall|s: int| 0 <= s < 64 ==> #[trigger] m.board_at(s) == start_board(s)
    &&& forall|s: int|
        0 <= s < 64 && (#[trigger] m.squares[s]) is Occupied ==> m.occupant(s) == start_order(s)
    &&& m.active_color == Color::White
    &&& m.castling_rights == CastlingRights::all_spec()
    &&& m.en_passant is None
    &&& m.halfmove_clock == 0
    &&& m.fullmove_number == 1
}

/// `m` has an empty board and store, white to move, no castling rights, no en
/// passant target, halfmove clock 0 and fullmove number 1.
pub open spec fn is_empty_position(m: PositionModel) -> bool {
    &&& m.pieces.len() == 0
    &&& forall|s: int| 0 <= s < 64 ==> !(#[trigger] m.occupied(s))
    &&& m.active_color == Color::White
    &&& m.castling_rights == CastlingRights::empty_spec()
    &&& m.en_passant is None
    &&& m.halfmove_clock == 0
    &&& m.fullmove_number == 1
}

impl Position {
    /// The starting position, white to move, all castling rights, no en passant
    /// target, halfmove clock 0 and fullmove number 1; the pieces enter the store
    /// in reading order, rank 8 first.
    pub fn new() -> (r: Position)
        ensures
            r@.wf(),
            is_start_position(r@),
    {
        let mut game = Position::empty();
        for k in 0..32usize
            invariant
                game@.wf(),
                game@.pieces.len() == k,
                forall|s: int|
                    0 <= s < 64 ==> #[trigger] game@.board_at(s) == if start_order(s) < k {
                        start_board(s)
                    } else {
                        None
                    },
                forall|s: int|
                    0 <= s < 64 && (#[trigger] game@.squares[s]) is Occupied ==> game@.occupant(s)
                        == start_order(s),
                game.active_color == Color::White,
                game.en_passant is None,
                game.halfmove_clock == 0,
                game.fullmove_number == 1,
        {
            let square = start_square_exec(k);
            let (color, kind) = if square >= 48 {
                (Color::Black, if square >= 56 { back_rank_kind_exec(square - 56) } else { PieceType::Pawn })
            } else {
                (Color::White, if square < 8 { back_rank_kind_exec(square) } else { PieceType::Pawn })
            };
            let ghost m = game@;
            proof {
                assert(m.board_at(square as int) is None);
            }
            game.add_at(color, kind, square);
            proof {
                assert forall|s: int| 0 <= s < 64 implies #[trigger] game@.board_at(s) == if start_order(s) < k + 1 {
                    start_board(s)
                } else {
                    None
                } by {
                    if s != square {
                        if m.occupied(s) {
                            assert(m.squares[s] is Occupied);
                        }
                        assert(start_order(s) != k);
                        assert(game@.board_at(s) == m.board_at(s));
                    } else {
                        assert(game@.squares[s] is Occupied);
                        assert(game@.occupant(s) == k);
                        assert(game@.pieces[k as int].color == color);
                        assert(game@.pieces[k as int].piece_type == kind);
                        assert(start_board(s) == Some((color, kind)));
                        assert(game@.board_at(s) == Some((color, kind)));
                        assert(start_order(s) == k);
                    }
                }
                assert forall|s: int|
                    0 <= s < 64 && (#[trigger] game@.squares[s]) is Occupied implies game@.occupant(s)
                        == start_order(s) by {
                    if s != square {
                        assert(m.squares[s] is Occupied);
                    }
                }
            }
        }
        let ghost placed = game@;
        game.castling_rights = CastlingRights::all();
        proof {
            let m = game@;
            assert(m.pieces == placed.pieces);
            assert(m.squares == placed.squares);
            assert(m.white_occupancy == placed.white_occupancy);
            assert(m.black_occupancy == placed.black_occupancy);
            assert(forall|i: int| 0 <= i < 64 ==> #[trigger] m.board_at(i) == placed.board_at(i));
        }
        game
    }
}

/// The letter of a piece: `p r n b q k`, upper case for white.
pub open spec fn piece_letter(p: Piece) -> char {
    let lower = match p.piece_type {
        PieceType::Pawn => 'p',
        PieceType::Rook => 'r',
        PieceType::Knight => 'n',
        PieceType::Bishop => 'b',
        PieceType::Queen => 'q',
        PieceType::King => 'k',
    };
    if p.color == Color::White {
        ((lower as u32) - 32) as char
    } else {
        lower
    }
}

/// The two characters that show square `s` of `m`: the piece letter and a
/// space, or a dot and a space.
pub open spec fn square_text(m: PositionModel, s: int) -> Seq<char> {
    if m.occupied(s) {
        seq![piece_letter(m.piece_on(s)), ' ']
    } else {
        seq!['.', ' ']
    }
}

/// The text of the first `file` squares of rank `rank` (0 for the first).
pub open spec fn rank_text(m: PositionModel, rank: int, file: int) -> Seq<char>
    decreases file,
{
    if file <= 0 {
        Seq::empty()
    } else {
        rank_text(m, rank, file - 1) + square_text(m, rank * 8 + file - 1)
    }
}

/// The text of the top `n` ranks, rank 8 first, one line each.
pub open spec fn board_text(m: PositionModel, n: int) -> Seq<char>
    decreases n,
{
    if n <= 0 {
        Seq::empty()
    } else {
        board_text(m, n - 1) + rank_text(m, 8 - n, 8) + seq!['\n']
    }
}

impl Piece {
    /// The piece letter: `p r n b q k`, upper case for white.
    pub fn letter(&self) -> (r: char)
        ensures
            r == piece_letter(*self),
    {
        let lower = match self.piece_type {
            PieceType::Pawn => 'p',
            PieceType::Rook => 'r',
            PieceType::Knight => 'n',
            PieceType::Bishop => 'b',
            PieceType::Queen => 'q',
            PieceType::King => 'k',
        };
        match self.color {
            Color::White => ((lower as u32) - 32) as u8 as char,
            Color::Black => lower,
        }
    }

    /// The piece letter followed by a space.
    pub fn to_string(&self) -> (r: String)
        ensures
            r@ == seq![piece_letter(*self), ' '],
    {
        let mut result = String::new();
        push_char(&mut result, self.letter());
        push_char(&mut result, ' ');
        result
    }
}

impl Position {
    /// The board drawn as text: rank 8 first, one line per rank, each square as
    /// its piece letter (upper case for white) or a dot, followed by a space.
    pub fn to_string(&self) -> (r: String)
        requires
            self@.wf(),
        ensures
            r@ == board_text(self@, 8),
    {
        let mut board = String::new();
        for n in 0..8usize
            invariant
                self@.wf(),
                board@ == board_text(self@, n as int),
        {
            let rank = 7 - n;
            let ghost line_start = board@;
            for file in 0..8usize
                invariant
                    self@.wf(),
                    rank == 7 - n,
                    n < 8,
                    board@ == line_start + rank_text(self@, rank as int, file as int),
            {
                let i = rank * 8 + file;
                match self.squares[i] {
                    Square::Occupied(idx) => {
                        let ghost before = board@;
                        push_char(&mut board, self.pieces[idx].letter());
                        push_char(&mut board, ' ');
                        proof {
                            assert(board@ =~= before + square_text(self@, i as int));
                        }
                    },
                    Square::Empty => {
                        let ghost before = board@;
                        push_char(&mut board, '.');
                        push_char(&mut board, ' ');
                        proof {
                            assert(board@ =~= before + square_text(self@, i as int));
                        }
                    },
                }
            }
            push_char(&mut board, '\n');
            proof {
                assert(board@ =~= board_text(self@, n + 1));
            }
        }
        board
    }
}

/// Why a square name or mask was refused.
#[derive(Debug, PartialEq, Eq, Structural, Clone, Copy)]
pub enum SquareError {
    /// The mask holds no square.
    NoPiece,
    /// The name does not have two characters; the count it has.
    InvalidLength(usize),
    /// The first character is not a file letter `a`-`h`.
    InvalidColumn(char),
    /// The second character is not a rank digit `1`-`8`.
    InvalidRow(char),
}

/// The algebraic name of square `i`: file letter, then rank digit.
pub open spec fn square_name(i: int) -> Seq<char> {
    seq![(97 + i % 8) as char, (49 + i / 8) as char]
}

/// What reading `s` as a square name gives: its index, or why it is refused.
pub open spec fn parse_square_name(s: Seq<char>) -> Result<int, SquareError> {
    if s.len() != 2 {
        Err(SquareError::InvalidLength(s.len() as usize))
    } else if !('a' <= s[0] <= 'h') {
        Err(SquareError::InvalidColumn(s[0]))
    } else if !('1' <= s[1] <= '8') {
        Err(SquareError::InvalidRow(s[1]))
    } else {
        Ok(named_square(s))
    }
}

/// The name of square `index` (`0` is `"a1"`, `63` is `"h8"`).
pub fn index_to_position(index: usize) -> (r: String)
    requires
        index < 64,
    ensures
        r@ == square_name(index as int),
{
    let column = (index % 8) as u8;
    let row = (index / 8) as u8;
    let mut name = String::new();
    push_char(&mut name, (97 + column) as char);
    push_char(&mut name, (49 + row) as char);
    name
}

/// The name of the lowest square of `bit`; an empty mask is refused.
pub fn bit_to_position(bit: Bitboard) -> (r: Result<String, SquareError>)
    ensures
        r is Err <==> bit == 0,
        r is Err ==> r->Err_0 == SquareError::NoPiece,
        r is Ok ==> r->Ok_0@ == square_name(lowest_bit(bit)),
{
    if bit == 0 {
        Err(SquareError::NoPiece)
    } else {
        let onebit_index = bit_scan(bit);
        proof {
            lemma_lowest_unique(bit, onebit_index as int);
        }
        Ok(index_to_position(onebit_index))
    }
}

/// The index of the square named by `chars[lo..hi]`, or why the name is refused.
pub fn parse_square(chars: &Vec<char>, lo: usize, hi: usize) -> (r: Result<usize, SquareError>)
    requires
        lo <= hi <= chars@.len(),
    ensures
        r is Ok <==> parse_square_name(chars@.subrange(lo as int, hi as int)) is Ok,
        r is Ok ==> r->Ok_0 == parse_square_name(chars@.subrange(lo as int, hi as int))->Ok_0
            && r->Ok_0 < 64,
        r is Err ==> r->Err_0 == parse_square_name(chars@.subrange(lo as int, hi as int))->Err_0,
{
    let ghost s = chars@.subrange(lo as int, hi as int);
    if hi - lo != 2 {
        return Err(SquareError::InvalidLength(hi - lo));
    }
    let file = chars[lo];
    assert(file == s[0]);
    if !('a' <= file && file <= 'h') {
        return Err(SquareError::InvalidColumn(file));
    }
    let rank = chars[lo + 1];
    assert(rank == s[1]);
    if !('1' <= rank && rank <= '8') {
        return Err(SquareError::InvalidRow(rank));
    }
    let column = (file as u32 - 'a' as u32) as usize;
    let row = (rank as u32 - '1' as u32) as usize;
    Ok(row * 8 + column)
}

/// The one-square mask of the square named `position`, or why the name is refused.
pub fn position_to_bit(position: &str) -> (r: Result<Bitboard, SquareError>)
    ensures
        r is Ok <==> parse_square_name(position@) is Ok,
        r is Ok ==> r->Ok_0 == bit_at(parse_square_name(position@)->Ok_0),
        r is Err ==> r->Err_0 == parse_square_name(position@)->Err_0,
{
    let chars = chars_of(position);
    proof {
        assert(chars@.subrange(0, chars@.len() as int) == chars@);
    }
    let square = parse_square(&chars, 0, chars.len())?;
    Ok(1u64 << (square as u64))
}

/// The index of the square named `position`, or why the name is refused.
pub fn position_to_index(position: &str) -> (r: Result<usize, SquareError>)
    ensures
        r is Ok <==> parse_square_name(position@) is Ok,
        r is Ok ==> r->Ok_0 == parse_square_name(position@)->Ok_0,
        r is Err ==> r->Err_0 == parse_square_name(position@)->Err_0,
{
    let bitboard = position_to_bit(position)?;
    proof {
        lemma_mask_square(parse_square_name(position@)->Ok_0);
    }
    let i = bit_scan(bitboard);
    proof {
        lemma_lowest_unique(bitboard, i as int);
    }
    Ok(i)
}

impl Position {
    /// Square `(row, col)` is on the board and holds a pawn of the side opposed to `color`.
    fn has_enemy_pawn(&self, row: i32, col: i32, color: Color) -> (r: bool)
        requires
            self@.wf(),
        ensures
            r == self@.enemy_pawn_at(row as int, col as int, color),
    {
        if let Some(idx) = index(row, col) {
            match self.squares[idx] {
                Square::Occupied(pidx) => {
                    let piece = self.pieces[pidx];
                    piece.piece_type == PieceType::Pawn && piece.color != color
                },
                Square::Empty => false,
            }
        } else {
            false
        }
    }

    /// Moves the piece standing on `piece_position` to square `new_position`,
    /// capturing any enemy piece there, and keeps board, store, occupancy and en
    /// passant target in step.
    pub fn move_piece(&mut self, piece_position: Bitboard, new_position: usize)
        requires
            old(self)@.wf(),
            is_square_mask(piece_position),
            old(self)@.can_move(lowest_bit(piece_position), new_position as int),
        ensures
            final(self)@ == old(self)@.moved(lowest_bit(piece_position), new_position as int),
            final(self)@.wf(),
    {
        let ghost m = self@;
        proof {
            lemma_mask_square(lowest_bit(piece_position));
        }
        let square_index = bit_scan(piece_position);
        proof {
            lemma_lowest_unique(piece_position, square_index as int);
            lemma_moved_wf(m, square_index as int, new_position as int);
        }
        let piece_index = if let Square::Occupied(idx) = self.squares[square_index] {
            idx
        } else {
            return ;
        };
        let mover = self.pieces[piece_index];
        let (old_row, col) = rowcol(square_index);
        let (new_row, _) = rowcol(new_position);
        let double_push = old_row - new_row == 2 || new_row - old_row == 2;
        let mut new_en_passant = self.en_passant;
        if mover.piece_type != PieceType::Pawn {
            new_en_passant = None;
        } else if double_push {
            let pawn_left = self.has_enemy_pawn(new_row, col + 1, mover.color);
            let pawn_right = self.has_enemy_pawn(new_row, col - 1, mover.color);
            if pawn_left || pawn_right {
                let mid = if new_row > old_row {
                    old_row + 1
                } else {
                    old_row - 1
                };
                if let Some(idx) = index(mid, col) {
                    new_en_passant = Some(1u64 << (idx as u64));
                }
            } else {
                new_en_passant = None;
            }
        }
        let from_bit = 1u64 << (square_index as u64);
        let to_bit = 1u64 << (new_position as u64);
        let mut relocated = mover;
        relocated.position = to_bit;
        self.pieces.set(piece_index, relocated);
        self.squares.set(square_index, Square::Empty);
        if let Square::Occupied(other_idx) = self.squares[new_position] {
            let mut captured = self.pieces[other_idx];
            captured.alive = false;
            self.pieces.set(other_idx, captured);
        }
        self.squares.set(new_position, Square::Occupied(piece_index));
        match mover.color {
            Color::White => {
                self.white_occupancy = (self.white_occupancy & !from_bit) | to_bit;
                self.black_occupancy = self.black_occupancy & !to_bit;
            },
            Color::Black => {
                self.black_occupancy = (self.black_occupancy & !from_bit) | to_bit;
                self.white_occupancy = self.white_occupancy & !to_bit;
            },
        }
        self.en_passant = new_en_passant;
        proof {
            assert(self@.pieces == m.moved(square_index as int, new_position as int).pieces);
            assert(self@.squares == m.moved(square_index as int, new_position as int).squares);
        }
    }
    /// Moves the pawn on `piece_position` to the empty square `new_position` and
    /// takes the pawn standing behind it; the en passant target is cleared.
    pub fn take_en_passant(&mut self, piece_position: Bitboard, new_position: Bitboard)
        requires
            old(self)@.wf(),
            is_square_mask(piece_position),
            is_square_mask(new_position),
            old(self)@.can_take_en_passant(lowest_bit(piece_position), lowest_bit(new_position)),
        ensures
            final(self)@ == old(self)@.took_en_passant(
                lowest_bit(piece_position),
                lowest_bit(new_position),
            ),
            final(self)@.wf(),
    {
        let ghost m = self@;
        proof {
            lemma_mask_square(lowest_bit(piece_position));
            lemma_mask_square(lowest_bit(new_position));
        }
        let square_index = bit_scan(piece_position);
        let new_index = bit_scan(new_position);
        proof {
            lemma_lowest_unique(piece_position, square_index as int);
            lemma_lowest_unique(new_position, new_index as int);
            lemma_took_en_passant_wf(m, square_index as int, new_index as int);
        }
        let piece_index = if let Square::Occupied(idx) = self.squares[square_index] {
            idx
        } else {
            return ;
        };
        let mover = self.pieces[piece_index];
        let (old_row, _) = rowcol(square_index);
        let (new_row, new_col) = rowcol(new_index);
        let taken_row = if new_row > old_row {
            new_row - 1
        } else {
            new_row + 1
        };
        let taken_index = if let Some(idx) = index(taken_row, new_col) {
            idx
        } else {
            return ;
        };
        let taken_piece = if let Square::Occupied(pidx) = self.squares[taken_index] {
            pidx
        } else {
            return ;
        };
        let mut relocated = mover;
        relocated.position = new_position;
        self.pieces.set(piece_index, relocated);
        let mut captured = self.pieces[taken_piece];
        captured.alive = false;
        self.pieces.set(taken_piece, captured);
        self.squares.set(square_index, Square::Empty);
        self.squares.set(new_index, Square::Occupied(piece_index));
        self.squares.set(taken_index, Square::Empty);
        let taken_bit = 1u64 << (taken_index as u64);
        match mover.color {
            Color::White => {
                self.white_occupancy = (self.white_occupancy & !piece_position) | new_position;
                self.black_occupancy = self.black_occupancy & !taken_bit;
            },
            Color::Black => {
                self.black_occupancy = (self.black_occupancy & !piece_position) | new_position;
                self.white_occupancy = self.white_occupancy & !taken_bit;
            },
        }
        self.en_passant = None;
        proof {
            let n = m.took_en_passant(square_index as int, new_index as int);
            assert(self@.pieces == n.pieces);
            assert(self@.squares == n.squares);
        }
    }

    /// Removes the pawn on `piece_position` and appends a new live piece of its
    /// side and of kind `promotion_type` on square `new_index`.
    pub fn perform_promotion(
        &mut self,
        piece_position: Bitboard,
        new_index: usize,
        promotion_type: PieceType,
    )
        requires
            old(self)@.wf(),
            is_square_mask(piece_position),
            old(self)@.can_promote(lowest_bit(piece_position), new_index as int, promotion_type),
        ensures
            final(self)@ == old(self)@.promoted(
                lowest_bit(piece_position),
                new_index as int,
                promotion_type,
            ),
            final(self)@.wf(),
    {
        let ghost m = self@;
        proof {
            lemma_mask_square(lowest_bit(piece_position));
        }
        let square_index = bit_scan(piece_position);
        proof {
            lemma_lowest_unique(piece_position, square_index as int);
            lemma_promoted_wf(m, square_index as int, new_index as int, promotion_type);
        }
        let piece_index = if let Square::Occupied(idx) = self.squares[square_index] {
            idx
        } else {
            return ;
        };
        let current_piece = self.pieces[piece_index];
        let new_position = 1u64 << (new_index as u64);
        let mut dead = current_piece;
        dead.alive = false;
        self.pieces.set(piece_index, dead);
        self.squares.set(square_index, Square::Empty);
        let promoted_index = self.pieces.len();
        self.pieces.push(
            Piece {
                position: new_position,
                color: current_piece.color,
                piece_type: promotion_type,
                alive: true,
            },
        );
        self.squares.set(new_index, Square::Occupied(promoted_index));
        match current_piece.color {
            Color::White => {
                self.white_occupancy = (self.white_occupancy & !piece_position) | new_position;
            },
            Color::Black => {
                self.black_occupancy = (self.black_occupancy & !piece_position) | new_position;
            },
        }
        proof {
            let n = m.promoted(square_index as int, new_index as int, promotion_type);
            assert(self@.pieces == n.pieces);
            assert(self@.squares == n.squares);
        }
    }

    /// Places a new live piece on the empty square named `square`.
    pub fn add(&mut self, piece_color: Color, piece_type: PieceType, square: &str)
        requires
            old(self)@.wf(),
            is_square_name(square@),
            !old(self)@.occupied(named_square(square@)),
            old(self)@.pieces.len() < usize::MAX,
        ensures
            final(self)@ == old(self)@.added(piece_color, piece_type, named_square(square@)),
            final(self)@.wf(),
    {
        let index = square_to_index(square);
        self.add_at(piece_color, piece_type, index);
    }

    /// Places a new live piece on the empty square `square`.
    pub fn add_at(&mut self, piece_color: Color, piece_type: PieceType, square: usize)
        requires
            old(self)@.wf(),
            square < 64,
            !old(self)@.occupied(square as int),
            old(self)@.pieces.len() < usize::MAX,
        ensures
            final(self)@ == old(self)@.added(piece_color, piece_type, square as int),
            final(self)@.wf(),
    {
        proof {
            lemma_added_wf(self@, piece_color, piece_type, square as int);
        }
        let piece_index = self.pieces.len();
        self.pieces.push(
            Piece {
                position: 1u64 << (square as u64),
                color: piece_color,
                piece_type: piece_type,
                alive: true,
            },
        );
        self.squares.set(square, Square::Occupied(piece_index));
        match piece_color {
            Color::White => self.white_occupancy = self.white_occupancy | (1u64 << (square as u64)),
            Color::Black => self.black_occupancy = self.black_occupancy | (1u64 << (square as u64)),
        }
    }

    /// A position with an empty board, white to move, no castling rights, no en
    /// passant target, halfmove clock 0 and fullmove number 1.
    pub fn empty() -> (r: Position)
        ensures
            r@.wf(),
            is_empty_position(r@),
    {
        let mut squares: Vec<Square> = Vec::new();
        for i in 0..64usize
            invariant
                squares@.len() == i,
                forall|s: int| 0 <= s < i ==> #[trigger] squares@[s] == Square::Empty,
        {
            squares.push(Square::Empty);
        }
        Position {
            pieces: Vec::new(),
            squares: squares,
            active_color: Color::White,
            castling_rights: CastlingRights::empty(),
            en_passant: None,
            halfmove_clock: 0,
            fullmove_number: 1,
            white_occupancy: 0,
            black_occupancy: 0,
        }
    }

    /// A copy of the position.
    pub fn duplicate(&self) -> (r: Position)
        ensures
            r@ == self@,
    {
        let mut pieces: Vec<Piece> = Vec::new();
        for i in 0..self.pieces.len()
            invariant
                pieces@ == self.pieces@.subrange(0, i as int),
        {
            pieces.push(self.pieces[i]);
        }
        let mut squares: Vec<Square> = Vec::new();
        for i in 0..self.squares.len()
            invariant
                squares@ == self.squares@.subrange(0, i as int),
        {
            squares.push(self.squares[i]);
        }
        proof {
            assert(pieces@ == self.pieces@);
            assert(squares@ == self.squares@);
        }
        Position {
            pieces: pieces,
            squares: squares,
            active_color: self.active_color,
            castling_rights: self.castling_rights,
            en_passant: self.en_passant,
            halfmove_clock: self.halfmove_clock,
            fullmove_number: self.fullmove_number,
            white_occupancy: self.white_occupancy,
            black_occupancy: self.black_occupancy,
        }
    }

    /// The number of live pieces.
    pub fn count_pieces(&self) -> (r: usize)
        ensures
            r == alive_count(self.pieces@),
    {
        let mut count: usize = 0;
        for i in 0..self.pieces.len()
            invariant
                count == alive_count(self.pieces@.subrange(0, i as int)),
                count <= i,
        {
            proof {
                let sub = self.pieces@.subrange(0, i + 1);
                assert(sub.drop_last() == self.pieces@.subrange(0, i as int));
            }
            if self.pieces[i].alive {
                count = count + 1;
            }
        }
        proof {
            assert(self.pieces@.subrange(0, self.pieces@.len() as int) == self.pieces@);
        }
        count
    }

    /// Square `(row, col)`, both counted from 1, is on the board and holds a pawn.
    pub fn has_pawn(&self, row: i32, col: i32) -> (r: bool)
        requires
            self@.wf(),
        ensures
            r == (on_board(row as int, col as int) && self@.occupied(square_of(row as int, col as int))
                && self@.piece_on(square_of(row as int, col as int)).piece_type == PieceType::Pawn),
    {
        if let Some(idx) = index(row, col) {
            match self.squares[idx] {
                Square::Occupied(pidx) => self.pieces[pidx].piece_type == PieceType::Pawn,
                Square::Empty => false,
            }
        } else {
            false
        }
    }
}

/// After a pawn's double push, the en passant target is set exactly when an enemy
/// pawn stands next to the landing square on its row, and then it is the square
/// the pawn passed over; otherwise it is cleared.
pub proof fn lemma_double_push_en_passant(m: PositionModel, from: int, to: int)
    requires
        m.wf(),
        m.can_move(from, to),
        m.piece_on(from).piece_type == PieceType::Pawn,
        col_of(to) == col_of(from),
        row_of(to) == row_of(from) + 2 || row_of(to) == row_of(from) - 2,
    ensures
        ({
            let c = m.piece_on(from).color;
            let row = row_of(to);
            let col = col_of(to);
            let passed = if row > row_of(from) {
                row - 1
            } else {
                row + 1
            };
            &&& m.moved(from, to).en_passant is Some <==> (m.enemy_pawn_at(row, col + 1, c)
                || m.enemy_pawn_at(row, col - 1, c))
            &&& m.moved(from, to).en_passant is Some ==> m.moved(from, to).en_passant
                == Some(bit_at(square_of(passed, col)))
        }),
{
}

} // verus!
