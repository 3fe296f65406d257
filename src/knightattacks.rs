use crate::utils::{col_of, on_board, row_of, rowcol, set_bit, square_bit, Bitboard};
use vstd::prelude::*;

verus! {

/// The squares a knight on `(row, col)` attacks: the eight `(±1, ±2)` / `(±2, ±1)`
/// hops that stay on the board.
pub open spec fn knight_mask(row: int, col: int) -> u64 {
    square_bit(row + 1, col + 2) | square_bit(row + 1, col - 2) | square_bit(row - 1, col + 2)
        | square_bit(row - 1, col - 2) | square_bit(row + 2, col + 1) | square_bit(row + 2, col - 1)
        | square_bit(row - 2, col + 1) | square_bit(row - 2, col - 1)
}

/// Knight attacks from square `sq`.
pub open spec fn knight_mask_at(sq: int) -> u64 {
    knight_mask(row_of(sq), col_of(sq))
}

/// Knight attack table: one attack mask per origin square.
pub struct KnightAttacks(pub Vec<Bitboard>);

impl KnightAttacks {
    /// Holds the knight attack mask of every square.
    pub open spec fn wf(&self) -> bool {
        self.0@.len() == 64 && forall|i: int| 0 <= i < 64 ==> #[trigger] self.0@[i] == knight_mask_at(i)
    }

    pub fn new() -> (r: Self)
        ensures
            r.wf(),
    {
        let mut attacks: Vec<Bitboard> = Vec::new();
        for i in 0..64usize
            invariant
                attacks@.len() == i,
                forall|j: int| 0 <= j < i ==> #[trigger] attacks@[j] == knight_mask_at(j),
        {
            let (row, col) = rowcol(i);
            attacks.push(knight_attacks(row, col));
        }
        KnightAttacks(attacks)
    }
}

fn knight_attacks(row: i32, col: i32) -> (r: Bitboard)
    requires
        on_board(row as int, col as int),
    ensures
        r == knight_mask(row as int, col as int),
{
    set_bit(row + 1, col + 2) | set_bit(row + 1, col - 2) | set_bit(row - 1, col + 2) | set_bit(
        row - 1,
        col - 2,
    ) | set_bit(row + 2, col + 1) | set_bit(row + 2, col - 1) | set_bit(row - 2, col + 1)
        | set_bit(row - 2, col - 1)
}

} // verus!
