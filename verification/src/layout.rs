//! How the grid lies on a drawing surface: square cells of `cell_size` units
//! side by side, each with a border of `cell_border_size` units inside its
//! edge.

use vstd::prelude::*;
use crate::cell::CellPosition;

verus! {

/// Whether `offset`, counted from the edge of a cell, lies strictly inside
/// the borders of that cell.
pub open spec fn inside_borders(offset: int, cell_size: int, border: int) -> bool {
    border < offset && offset + border < cell_size
}

/// The cell whose inside holds the point `(x, y)`, if the point is not on a
/// border.
pub open spec fn pointed_cell(x: int, y: int, cell_size: int, border: int) -> Option<(int, int)> {
    if inside_borders(x % cell_size, cell_size, border) && inside_borders(
        y % cell_size,
        cell_size,
        border,
    ) {
        Some((x / cell_size, y / cell_size))
    } else {
        None
    }
}

/// The widest border, not wider than `border`, that leaves a cell an inside.
pub open spec fn fitting_border(cell_size: int, border: int) -> int {
    if 2 * border >= cell_size {
        (cell_size - 1) / 2
    } else {
        border
    }
}

/// The cell that a press at `(x_pressed, y_pressed)` hits: the cell around
/// the point, unless the point lies on a border.
pub fn cell_at_pointer(
    x_pressed: usize,
    y_pressed: usize,
    cell_size: usize,
    cell_border_size: usize,
) -> (hit: Option<CellPosition>)
    requires
        cell_size > 0,
    ensures
        match hit {
            Some(position) => pointed_cell(
                x_pressed as int,
                y_pressed as int,
                cell_size as int,
                cell_border_size as int,
            ) == Some(position@),
            None => pointed_cell(
                x_pressed as int,
                y_pressed as int,
                cell_size as int,
                cell_border_size as int,
            ) is None,
        },
{
    let x_within_square_representation = x_pressed % cell_size;
    let y_within_square_representation = y_pressed % cell_size;
    let x_was_within_square: bool = cell_border_size < x_within_square_representation
        && cell_border_size < cell_size - x_within_square_representation;
    let y_was_within_square: bool = cell_border_size < y_within_square_representation
        && cell_border_size < cell_size - y_within_square_representation;
    if x_was_within_square && y_was_within_square {
        Some(CellPosition { x: x_pressed / cell_size, y: y_pressed / cell_size })
    } else {
        None
    }
}

/// The border to draw for a wanted `cell_border_size`: the wanted one where
/// two of them leave room inside a cell, else the widest that does.
pub fn fit_border(cell_size: usize, cell_border_size: usize) -> (fitted: usize)
    requires
        cell_size > 0,
    ensures
        fitted == fitting_border(cell_size as int, cell_border_size as int),
        fitted <= cell_border_size,
        2 * fitted < cell_size,
{
    if cell_border_size >= cell_size - cell_size / 2 {
        let half = cell_size / 2;
        if cell_size % 2 == 0 {
            half - 1
        } else {
            half
        }
    } else {
        cell_border_size
    }
}

} // verus!
