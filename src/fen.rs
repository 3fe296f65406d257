use crate::position::{
    parse_square, parse_square_name, CastlingRights, Color, PieceType, Position, PositionModel,
    SquareError,
};
use crate::text::{after_sep, before_sep, chars_of, find_char, lemma_find_from};
use crate::utils::{bit_at, lemma_mask_square};
use vstd::prelude::*;

verus! {

/// Why a position description was refused.
#[derive(Debug, PartialEq, Eq, Structural, Clone, Copy)]
pub enum FenError {
    /// The piece placement is not eight ranks of eight squares each.
    InvalidPlacement,
    /// The side to move is neither `w` nor `b`.
    InvalidColor,
    /// The castling field holds this character, which is none of `KQkq-`.
    InvalidCastling(char),
    /// The en passant field is neither `-` nor a square name.
    InvalidEnPassant(SquareError),
    /// The halfmove clock is not a decimal number that fits.
    InvalidHalfmove,
    /// The fullmove number is not a decimal number that fits, or more fields follow.
    InvalidFullmove,
}

/// Side and kind of the piece letter `c`: upper case for white, lower case for black.
pub open spec fn piece_of_char(c: char) -> Option<(Color, PieceType)> {
    let color = if 'A' <= c <= 'Z' {
        Color::White
    } else {
        Color::Black
    };
    if c == 'p' || c == 'P' {
        Some((color, PieceType::Pawn))
    } else if c == 'r' || c == 'R' {
        Some((color, PieceType::Rook))
    } else if c == 'n' || c == 'N' {
        Some((color, PieceType::Knight))
    } else if c == 'b' || c == 'B' {
        Some((color, PieceType::Bishop))
    } else if c == 'q' || c == 'Q' {
        Some((color, PieceType::Queen))
    } else if c == 'k' || c == 'K' {
        Some((color, PieceType::King))
    } else {
        None
    }
}

/// Where reading a piece placement has got to: whether it is still well formed,
/// the rank (0 for the first) and file being filled, and the board so far.
pub struct PlacementState {
    pub ok: bool,
    pub rank: int,
    pub file: int,
    pub board: Seq<Option<(Color, PieceType)>>,
}

/// The state after reading the placement text `p`, rank 8 first, each rank from
/// file a: a piece letter fills one square, a digit `1`-`8` skips that many, `/`
/// passes to the rank below once eight files are filled.
pub open spec fn placement_state(p: Seq<char>) -> PlacementState
    decreases p.len(),
{
    if p.len() == 0 {
        PlacementState { ok: true, rank: 7, file: 0, board: Seq::new(64, |i: int| None) }
    } else {
        let st = placement_state(p.drop_last());
        let c = p.last();
        let failed = PlacementState { ok: false, ..st };
        if !st.ok {
            st
        } else if c == '/' {
            if st.file == 8 && st.rank > 0 {
                PlacementState { rank: st.rank - 1, file: 0, ..st }
            } else {
                failed
            }
        } else if piece_of_char(c) is Some {
            if st.file < 8 {
                PlacementState {
                    file: st.file + 1,
                    board: st.board.update(st.rank * 8 + st.file, piece_of_char(c)),
                    ..st
                }
            } else {
                failed
            }
        } else if '1' <= c <= '8' {
            let n = c as int - '0' as int;
            if st.file + n <= 8 {
                PlacementState { file: st.file + n, ..st }
            } else {
                failed
            }
        } else {
            failed
        }
    }
}

/// The placement text describes all eight ranks in full.
pub open spec fn valid_placement(p: Seq<char>) -> bool {
    let st = placement_state(p);
    st.ok && st.rank == 0 && st.file == 8
}

/// The castling field holds only `K`, `Q`, `k`, `q` and `-`.
pub open spec fn castling_char(c: char) -> bool {
    c == 'K' || c == 'Q' || c == 'k' || c == 'q' || c == '-'
}

/// Position of the first character of `f` that is not a castling letter, or its length.
pub open spec fn first_bad_castling(f: Seq<char>, i: int) -> int
    decreases f.len() - i,
{
    if i < 0 || i >= f.len() {
        f.len() as int
    } else if !castling_char(f[i]) {
        i
    } else {
        first_bad_castling(f, i + 1)
    }
}

/// The castling rights the field `f` names.
pub open spec fn castling_of(f: Seq<char>) -> CastlingRights {
    CastlingRights {
        white_king_side: f.contains('K'),
        white_queen_side: f.contains('Q'),
        black_king_side: f.contains('k'),
        black_queen_side: f.contains('q'),
    }
}

/// The value of the decimal digits `s`.
pub open spec fn digits_value(s: Seq<char>) -> int
    decreases s.len(),
{
    if s.len() == 0 {
        0
    } else {
        digits_value(s.drop_last()) * 10 + (s.last() as int - '0' as int)
    }
}

/// `s` is a non-empty run of decimal digits whose value fits in a `usize`.
pub open spec fn valid_number(s: Seq<char>) -> bool {
    &&& s.len() > 0
    &&& forall|i: int| 0 <= i < s.len() ==> '0' <= #[trigger] s[i] <= '9'
    &&& digits_value(s) <= usize::MAX
}

/// The six space-separated fields of a position description; the last one is
/// all that follows the fifth space.
pub open spec fn fen_field(s: Seq<char>, k: nat) -> Seq<char>
    decreases k,
{
    if k == 0 {
        before_sep(s, ' ')
    } else if k == 5 {
        fen_rest(s, 5)
    } else {
        before_sep(fen_rest(s, k), ' ')
    }
}

/// What follows the `k`-th space of `s`.
pub open spec fn fen_rest(s: Seq<char>, k: nat) -> Seq<char>
    decreases k,
{
    if k == 0 {
        s
    } else {
        after_sep(fen_rest(s, (k - 1) as nat), ' ')
    }
}

/// The en passant field is `-` or a square name.
pub open spec fn valid_en_passant(f: Seq<char>) -> bool {
    f == seq!['-'] || parse_square_name(f) is Ok
}

/// What reading the position description `s` gives: `Ok` when every field is
/// well formed, else the error of the first field that is not.
pub open spec fn fen_check(s: Seq<char>) -> Result<(), FenError> {
    let castling = fen_field(s, 2);
    if !valid_placement(fen_field(s, 0)) {
        Err(FenError::InvalidPlacement)
    } else if fen_field(s, 1) != seq!['w'] && fen_field(s, 1) != seq!['b'] {
        Err(FenError::InvalidColor)
    } else if first_bad_castling(castling, 0) < castling.len() {
        Err(FenError::InvalidCastling(castling[first_bad_castling(castling, 0)]))
    } else if !valid_en_passant(fen_field(s, 3)) {
        Err(FenError::InvalidEnPassant(parse_square_name(fen_field(s, 3))->Err_0))
    } else if !valid_number(fen_field(s, 4)) {
        Err(FenError::InvalidHalfmove)
    } else if !valid_number(fen_field(s, 5)) {
        Err(FenError::InvalidFullmove)
    } else {
        Ok(())
    }
}

/// The position described by a well-formed description `s`, on the board: each
/// square holds what the placement puts there, and the other fields are read as
/// they stand.
pub open spec fn describes(m: PositionModel, s: Seq<char>) -> bool {
    &&& forall|i: int| 0 <= i < 64 ==> #[trigger] m.board_at(i) == placement_state(fen_field(s, 0)).board[i]
    &&& m.active_color == if fen_field(s, 1) == seq!['w'] {
        Color::White
    } else {
        Color::Black
    }
    &&& m.castling_rights == castling_of(fen_field(s, 2))
    &&& m.en_passant == if fen_field(s, 3) == seq!['-'] {
        None
    } else {
        Some(bit_at(parse_square_name(fen_field(s, 3))->Ok_0))
    }
    &&& m.halfmove_clock == digits_value(fen_field(s, 4))
    &&& m.fullmove_number == digits_value(fen_field(s, 5))
}

/// Two positions agree on everything but the board and the store.
pub open spec fn same_header(a: PositionModel, b: PositionModel) -> bool {
    &&& a.active_color == b.active_color
    &&& a.castling_rights == b.castling_rights
    &&& a.en_passant == b.en_passant
    &&& a.halfmove_clock == b.halfmove_clock
    &&& a.fullmove_number == b.fullmove_number
}

proof fn lemma_placement_fails(p: Seq<char>, j: int)
    requires
        0 <= j <= p.len(),
        !placement_state(p.take(j)).ok,
    ensures
        !placement_state(p).ok,
    decreases p.len() - j,
{
    if j < p.len() {
        assert(p.drop_last().take(j) == p.take(j));
        lemma_placement_fails(p.drop_last(), j);
    } else {
        assert(p.take(j) == p);
    }
}

/// Side and kind of the piece letter `c`, if it is one.
fn piece_from_char(c: char) -> (r: Option<(Color, PieceType)>)
    ensures
        r == piece_of_char(c),
{
    let color = if 'A' <= c && c <= 'Z' {
        Color::White
    } else {
        Color::Black
    };
    if c == 'p' || c == 'P' {
        Some((color, PieceType::Pawn))
    } else if c == 'r' || c == 'R' {
        Some((color, PieceType::Rook))
    } else if c == 'n' || c == 'N' {
        Some((color, PieceType::Knight))
    } else if c == 'b' || c == 'B' {
        Some((color, PieceType::Bishop))
    } else if c == 'q' || c == 'Q' {
        Some((color, PieceType::Queen))
    } else if c == 'k' || c == 'K' {
        Some((color, PieceType::King))
    } else {
        None
    }
}

/// Places on the empty board of `position` the pieces of the placement text
/// `chars[lo..hi]`; false when that text is not well formed.
fn parse_row(chars: &Vec<char>, lo: usize, hi: usize, position: &mut Position) -> (r: bool)
    requires
        lo <= hi <= chars@.len(),
        old(position)@.wf(),
        old(position)@.pieces.len() == 0,
        forall|s: int| 0 <= s < 64 ==> !(#[trigger] old(position)@.occupied(s)),
    ensures
        r == valid_placement(chars@.subrange(lo as int, hi as int)),
        final(position)@.wf(),
        final(position)@.pieces.len() <= hi - lo,
        r ==> forall|s: int|
            0 <= s < 64 ==> #[trigger] final(position)@.board_at(s) == placement_state(
                chars@.subrange(lo as int, hi as int),
            ).board[s],
        same_header(final(position)@, old(position)@),
{
    let ghost p = chars@.subrange(lo as int, hi as int);
    let ghost start = position@;
    let mut rank: i32 = 7;
    let mut file: i32 = 0;
    let mut j = lo;
    proof {
        assert(p.take(0) =~= Seq::<char>::empty());
        assert forall|s: int| 0 <= s < 64 implies #[trigger] position@.board_at(s)
            == placement_state(p.take(0)).board[s] by {}
    }
    while j < hi
        invariant
            lo <= j <= hi <= chars@.len(),
            p == chars@.subrange(lo as int, hi as int),
            placement_state(p.take(j - lo)).ok,
            placement_state(p.take(j - lo)).rank == rank,
            placement_state(p.take(j - lo)).file == file,
            placement_state(p.take(j - lo)).board.len() == 64,
            0 <= rank <= 7,
            0 <= file <= 8,
            position@.wf(),
            position@.pieces.len() <= j - lo,
            forall|s: int|
                0 <= s < 64 ==> #[trigger] position@.board_at(s) == placement_state(
                    p.take(j - lo),
                ).board[s],
            forall|s: int|
                0 <= s < 64 && (s / 8 < rank || (s / 8 == rank && s % 8 >= file))
                    ==> #[trigger] placement_state(p.take(j - lo)).board[s] is None,
            same_header(position@, start),
            start == old(position)@,
        decreases hi - j,
    {
        let c = chars[j];
        let ghost before = placement_state(p.take(j - lo));
        proof {
            assert(p.take(j - lo + 1).drop_last() =~= p.take(j - lo));
            assert(p.take(j - lo + 1).last() == c);
        }
        if c == '/' {
            if file == 8 && rank > 0 {
                rank = rank - 1;
                file = 0;
            } else {
                proof {
                    lemma_placement_fails(p, j - lo + 1);
                }
                return false;
            }
        } else if let Some((color, kind)) = piece_from_char(c) {
            if file < 8 {
                let square = (rank * 8 + file) as usize;
                proof {
                    assert(square / 8 == rank && square % 8 == file);
                    assert(position@.board_at(square as int) is None);
                }
                let ghost m = position@;
                position.add_at(color, kind, square);
                proof {
                    let after = placement_state(p.take(j - lo + 1));
                    assert forall|s: int| 0 <= s < 64 implies #[trigger] position@.board_at(s)
                        == after.board[s] by {
                        if s != square {
                            assert(m.board_at(s) == before.board[s]);
                            if m.occupied(s) {
                                assert(m.squares[s] is Occupied);
                            }
                        }
                    }
                }
                file = file + 1;
            } else {
                proof {
                    lemma_placement_fails(p, j - lo + 1);
                }
                return false;
            }
        } else if '1' <= c && c <= '8' {
            let n = (c as u32 - '0' as u32) as i32;
            if file + n <= 8 {
                file = file + n;
            } else {
                proof {
                    lemma_placement_fails(p, j - lo + 1);
                }
                return false;
            }
        } else {
            proof {
                lemma_placement_fails(p, j - lo + 1);
            }
            return false;
        }
        j = j + 1;
    }
    proof {
        assert(p.take(j - lo) =~= p);
    }
    rank == 0 && file == 8
}

/// The end of the field that starts at `lo`, and the start of the rest after the
/// space that ends it.
fn next_field(chars: &Vec<char>, lo: usize) -> (r: (usize, usize))
    requires
        lo <= chars@.len(),
    ensures
        lo <= r.0 <= r.1 <= chars@.len(),
        chars@.subrange(lo as int, r.0 as int) == before_sep(
            chars@.subrange(lo as int, chars@.len() as int),
            ' ',
        ),
        chars@.subrange(r.1 as int, chars@.len() as int) == after_sep(
            chars@.subrange(lo as int, chars@.len() as int),
            ' ',
        ),
{
    let n = chars.len();
    let k = find_char(chars, ' ', lo, n);
    let ghost t = chars@.subrange(lo as int, n as int);
    proof {
        lemma_find_from(t, ' ', 0);
        assert(t.take(k - lo) =~= chars@.subrange(lo as int, k as int));
    }
    if k < n {
        proof {
            assert(t.skip(k - lo + 1) =~= chars@.subrange(k + 1, n as int));
        }
        (k, k + 1)
    } else {
        proof {
            assert(chars@.subrange(n as int, n as int) =~= Seq::<char>::empty());
        }
        (k, n)
    }
}

proof fn lemma_contains_push(s: Seq<char>, c: char, x: char)
    ensures
        s.push(c).contains(x) <==> s.contains(x) || c == x,
{
    if s.contains(x) {
        let i = choose|i: int| 0 <= i < s.len() && s[i] == x;
        assert(s.push(c)[i] == x);
    }
    if c == x {
        assert(s.push(c)[s.len() as int] == x);
    }
    if s.push(c).contains(x) {
        let i = choose|i: int| 0 <= i < s.len() + 1 && s.push(c)[i] == x;
        if i < s.len() {
            assert(s[i] == x);
        }
    }
}

proof fn lemma_first_bad_castling(f: Seq<char>, i: int)
    requires
        0 <= i <= f.len(),
    ensures
        i <= first_bad_castling(f, i) <= f.len(),
    decreases f.len() - i,
{
    if i < f.len() && castling_char(f[i]) {
        lemma_first_bad_castling(f, i + 1);
    }
}

/// The castling rights named by `chars[lo..hi]`, or its first character that is
/// none of `KQkq-`.
fn parse_castling(chars: &Vec<char>, lo: usize, hi: usize) -> (r: Result<CastlingRights, char>)
    requires
        lo <= hi <= chars@.len(),
    ensures
        ({
            let f = chars@.subrange(lo as int, hi as int);
            &&& first_bad_castling(f, 0) <= f.len()
            &&& r is Ok <==> first_bad_castling(f, 0) == f.len()
            &&& r is Err ==> r->Err_0 == f[first_bad_castling(f, 0)]
            &&& r is Ok ==> r->Ok_0 == castling_of(f)
        }),
{
    let ghost f = chars@.subrange(lo as int, hi as int);
    proof {
        lemma_first_bad_castling(f, 0);
    }
    let mut rights = CastlingRights::empty();
    for j in lo..hi
        invariant
            lo <= j <= hi <= chars@.len(),
            f == chars@.subrange(lo as int, hi as int),
            first_bad_castling(f, 0) == first_bad_castling(f, j - lo),
            rights == castling_of(f.take(j - lo)),
    {
        let c = chars[j];
        proof {
            assert(f[j - lo] == c);
            assert(f.take(j - lo + 1) =~= f.take(j - lo).push(c));
            lemma_contains_push(f.take(j - lo), c, 'K');
            lemma_contains_push(f.take(j - lo), c, 'Q');
            lemma_contains_push(f.take(j - lo), c, 'k');
            lemma_contains_push(f.take(j - lo), c, 'q');
        }
        if c == 'K' {
            rights.white_king_side = true;
        } else if c == 'Q' {
            rights.white_queen_side = true;
        } else if c == 'k' {
            rights.black_king_side = true;
        } else if c == 'q' {
            rights.black_queen_side = true;
        } else if c != '-' {
            return Err(c);
        }
    }
    proof {
        assert(f.take(f.len() as int) =~= f);
        assert(castling_of(f.take(0)) == CastlingRights::empty_spec()) by {
            assert(!f.take(0).contains('K'));
            assert(!f.take(0).contains('Q'));
            assert(!f.take(0).contains('k'));
            assert(!f.take(0).contains('q'));
        }
    }
    Ok(rights)
}

proof fn lemma_digits_grow(s: Seq<char>, k: int)
    requires
        0 <= k <= s.len(),
        forall|i: int| 0 <= i < s.len() ==> '0' <= #[trigger] s[i] <= '9',
    ensures
        digits_value(s) >= digits_value(s.take(k)),
        digits_value(s) >= 0,
    decreases s.len(),
{
    if s.len() == 0 {
        assert(s.take(k) =~= s);
    } else if k == s.len() {
        assert(s.take(k) =~= s);
        lemma_digits_grow(s.drop_last(), 0);
    } else {
        assert(s.drop_last().take(k) =~= s.take(k));
        lemma_digits_grow(s.drop_last(), k);
    }
}

/// The value of the decimal number `chars[lo..hi]`, if it is one and fits.
fn parse_number(chars: &Vec<char>, lo: usize, hi: usize) -> (r: Option<usize>)
    requires
        lo <= hi <= chars@.len(),
    ensures
        r is Some <==> valid_number(chars@.subrange(lo as int, hi as int)),
        r is Some ==> r->0 == digits_value(chars@.subrange(lo as int, hi as int)),
{
    let ghost s = chars@.subrange(lo as int, hi as int);
    if lo == hi {
        return None;
    }
    let mut value: usize = 0;
    proof {
        assert(s.take(0) =~= Seq::<char>::empty());
    }
    for j in lo..hi
        invariant
            lo <= j <= hi <= chars@.len(),
            s == chars@.subrange(lo as int, hi as int),
            value == digits_value(s.take(j - lo)),
            forall|i: int| 0 <= i < j - lo ==> '0' <= #[trigger] s[i] <= '9',
    {
        let c = chars[j];
        proof {
            assert(s[j - lo] == c);
            assert(s.take(j - lo + 1).drop_last() =~= s.take(j - lo));
        }
        if !('0' <= c && c <= '9') {
            return None;
        }
        let d = (c as u32 - '0' as u32) as usize;
        if value > (usize::MAX - d) / 10 {
            proof {
                assert(value * 10 + d > usize::MAX) by (nonlinear_arith)
                    requires
                        value > (usize::MAX - d) / 10,
                        d <= 9,
                ;
                if forall|i: int| 0 <= i < s.len() ==> '0' <= #[trigger] s[i] <= '9' {
                    lemma_digits_grow(s, j - lo + 1);
                }
            }
            return None;
        }
        assert(value * 10 + d <= usize::MAX) by (nonlinear_arith)
            requires
                value <= (usize::MAX - d) / 10,
                d <= 9,
        ;
        value = value * 10 + d;
    }
    proof {
        assert(s.take(s.len() as int) =~= s);
    }
    Some(value)
}

impl Position {
    /// Reads a position description: piece placement (rank 8 first, ranks split
    /// by `/`, piece letters upper case for white, digits for empty squares), side
    /// to move `w` or `b`, castling rights from `KQkq` or `-`, en passant square
    /// or `-`, halfmove clock and fullmove number, separated by single spaces.
    /// Pieces enter the store in reading order.
    #[allow(non_snake_case)]
    pub fn read_FEN(fen: &str) -> (r: Result<Position, FenError>)
        ensures
            r is Ok <==> fen_check(fen@) is Ok,
            r is Err ==> r->Err_0 == fen_check(fen@)->Err_0,
            r is Ok ==> r->Ok_0@.wf() && describes(r->Ok_0@, fen@),
    {
        let chars = chars_of(fen);
        let n = chars.len();
        let ghost s = fen@;
        proof {
            assert(chars@.subrange(0, n as int) =~= s);
        }
        let (e0, s1) = next_field(&chars, 0);
        let (e1, s2) = next_field(&chars, s1);
        let (e2, s3) = next_field(&chars, s2);
        let (e3, s4) = next_field(&chars, s3);
        let (e4, s5) = next_field(&chars, s4);
        proof {
            assert(fen_rest(s, 0) == s);
            assert(fen_field(s, 0) == chars@.subrange(0, e0 as int));
            assert(fen_rest(s, 1) == chars@.subrange(s1 as int, n as int));
            assert(fen_field(s, 1) == chars@.subrange(s1 as int, e1 as int));
            assert(fen_rest(s, 2) == chars@.subrange(s2 as int, n as int));
            assert(fen_field(s, 2) == chars@.subrange(s2 as int, e2 as int));
            assert(fen_rest(s, 3) == chars@.subrange(s3 as int, n as int));
            assert(fen_field(s, 3) == chars@.subrange(s3 as int, e3 as int));
            assert(fen_rest(s, 4) == chars@.subrange(s4 as int, n as int));
            assert(fen_field(s, 4) == chars@.subrange(s4 as int, e4 as int));
            assert(fen_rest(s, 5) == chars@.subrange(s5 as int, n as int));
            assert(fen_field(s, 5) == chars@.subrange(s5 as int, n as int));
        }
        let mut game = Position::empty();
        if !parse_row(&chars, 0, e0, &mut game) {
            return Err(FenError::InvalidPlacement);
        }
        let ghost placed = game@;
        let ghost f1 = chars@.subrange(s1 as int, e1 as int);
        game.active_color = if e1 - s1 == 1 && chars[s1] == 'w' {
            assert(f1 =~= seq!['w']);
            Color::White
        } else if e1 - s1 == 1 && chars[s1] == 'b' {
            assert(f1 =~= seq!['b']);
            Color::Black
        } else {
            assert(f1 != seq!['w'] && f1 != seq!['b']) by {
                if f1.len() == 1 {
                    assert(f1[0] == chars[s1 as int]);
                }
            }
            return Err(FenError::InvalidColor);
        };
        game.castling_rights = match parse_castling(&chars, s2, e2) {
            Ok(rights) => rights,
            Err(c) => {
                return Err(FenError::InvalidCastling(c));
            },
        };
        let ghost f3 = chars@.subrange(s3 as int, e3 as int);
        if e3 - s3 == 1 && chars[s3] == '-' {
            assert(f3 =~= seq!['-']);
            game.en_passant = None;
        } else {
            assert(f3 != seq!['-']) by {
                if f3.len() == 1 {
                    assert(f3[0] == chars[s3 as int]);
                }
            }
            match parse_square(&chars, s3, e3) {
                Ok(square) => {
                    proof {
                        lemma_mask_square(square as int);
                    }
                    game.en_passant = Some(1u64 << (square as u64));
                },
                Err(e) => {
                    return Err(FenError::InvalidEnPassant(e));
                },
            }
        }
        game.halfmove_clock = match parse_number(&chars, s4, e4) {
            Some(v) => v,
            None => {
                return Err(FenError::InvalidHalfmove);
            },
        };
        game.fullmove_number = match parse_number(&chars, s5, n) {
            Some(v) => v,
            None => {
                return Err(FenError::InvalidFullmove);
            },
        };
        proof {
            let m = game@;
            assert(m.pieces == placed.pieces);
            assert(m.squares == placed.squares);
            assert(m.white_occupancy == placed.white_occupancy);
            assert(m.black_occupancy == placed.black_occupancy);
            assert(forall|i: int| 0 <= i < 64 ==> #[trigger] m.board_at(i) == placed.board_at(i));
        }
        Ok(game)
    }
}

} // verus!
