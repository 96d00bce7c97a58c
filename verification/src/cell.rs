//! The state of one cell and the position of a cell on the grid.

use vstd::prelude::*;

verus! {

/// What a grid position holds. `Unknown` is the answer for a position outside
/// the grid; a grid never stores it.
#[derive(PartialEq, Eq, Structural, Clone, Copy, Debug)]
pub enum CellState {
    Dead,
    Alive,
    Unknown,
}

/// A position on the grid: column `x`, row `y`.
#[derive(PartialEq, Eq, Structural, Clone, Copy, Debug)]
pub struct CellPosition {
    pub x: usize,
    pub y: usize,
}

impl View for CellPosition {
    type V = (int, int);

    open spec fn view(&self) -> (int, int) {
        (self.x as int, self.y as int)
    }
}

/// The positions of `s` as pairs of integers.
pub open spec fn as_pairs(s: Seq<CellPosition>) -> Seq<(int, int)> {
    s.map_values(|p: CellPosition| p@)
}

} // verus!
