//! One integer per cell.
//!
//! Verus knows how the hash containers of the standard library behave where
//! their keys are integers, so a cell is stored as a single `u128`: the
//! column in the upper 64 bits and the row in the lower 64 bits, each moved
//! up by 2^63 to make it non-negative.  Every `u128` stands for exactly one
//! cell and every cell for exactly one `u128`.

use vstd::prelude::*;
use crate::cell::representable;
use crate::cell::Cell;

verus! {

/// 2^63: the number of negative values of an `i64`.
pub(crate) const HALF: i128 = 0x8000_0000_0000_0000;

/// 2^64: the number of values of an `i64`.
pub(crate) const SPAN: u128 = 0x1_0000_0000_0000_0000;

/// The key of the position `p`.
pub(crate) open spec fn key_of(p: (int, int)) -> int {
    (p.0 + HALF) * SPAN + (p.1 + HALF)
}

/// The position that the key `k` stands for.
pub(crate) open spec fn point_of(k: int) -> (int, int) {
    (k / (SPAN as int) - HALF, k % (SPAN as int) - HALF)
}

/// The key of a position that a cell can hold fits in `u128` and leads back
/// to it.
pub(crate) proof fn lemma_key_of_point(p: (int, int))
    requires
        representable(p),
    ensures
        0 <= key_of(p) <= u128::MAX,
        point_of(key_of(p)) == p,
{
}

/// Every `u128` is the key of a position that a cell can hold.
pub(crate) proof fn lemma_point_of_key(k: int)
    requires
        0 <= k <= u128::MAX,
    ensures
        representable(point_of(k)),
        key_of(point_of(k)) == k,
{
}

/// The key of `cell`.
pub(crate) fn pack(cell: Cell) -> (k: u128)
    ensures
        k == key_of(cell@),
{
    let column: u128 = (cell.x as i128 + HALF) as u128;
    let row: u128 = (cell.y as i128 + HALF) as u128;
    column * SPAN + row
}

/// The cell that the key `k` stands for.
pub(crate) fn unpack(k: u128) -> (cell: Cell)
    ensures
        cell@ == point_of(k as int),
        key_of(cell@) == k,
{
    let column: u128 = k / SPAN;
    let row: u128 = k % SPAN;
    Cell { x: (column as i128 - HALF) as i64, y: (row as i128 - HALF) as i64 }
}

} // verus!
