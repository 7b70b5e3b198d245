//! Empty tables.

use vstd::prelude::*;
use crate::types::{Bitboard, Piece};

verus! {

/// A mailbox without pieces.
pub(crate) fn empty_squares() -> (r: [Option<Piece>; 64])
    ensures
        forall|i: int| 0 <= i < 64 ==> #[trigger] r@[i] == None::<Piece>,
{
    [None; 64]
}

/// Empty piece sets.
pub(crate) fn empty_sets() -> (r: [[Bitboard; 6]; 2])
    ensures
        forall|c: int, k: int| 0 <= c < 2 && 0 <= k < 6 ==> #[trigger] r@[c]@[k] == Bitboard(0),
{
    let row: [Bitboard; 6] = [Bitboard(0); 6];
    [row; 2]
}

/// Empty occupancies.
pub(crate) fn empty_pair() -> (r: [Bitboard; 2])
    ensures
        forall|c: int| 0 <= c < 2 ==> #[trigger] r@[c] == Bitboard(0),
{
    [Bitboard(0); 2]
}

} // verus!
