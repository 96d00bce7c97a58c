//! The grid storage with bounds-checked reads and writes.

use vstd::prelude::*;
use crate::cell::{as_pairs, CellPosition, CellState};
use crate::grid::{lemma_index_in_range, lemma_neighbour_positions, lemma_with_state, Grid};
use crate::neighbours::{as_ints, axis_candidates, differs_from, lemma_pairs_index, pairs};

verus! {

/// Why a field could not be made.
#[derive(PartialEq, Eq, Structural, Clone, Copy, Debug)]
pub enum FieldError {
    /// A dimension is zero, or the number of cells does not fit in `usize`
    /// or is not the number of cells given.
    InvalidDimensions,
    /// One of the cells given is `Unknown`.
    UnknownCell,
}

/// The dimensions that a field can have: both positive, and a number of
/// cells that fits in `usize`.
pub open spec fn valid_dimensions(width: int, height: int) -> bool {
    width > 0 && height > 0 && width * height <= usize::MAX
}

/// The grid at one generation.
pub struct Field {
    width: usize,
    height: usize,
    cells: Vec<CellState>,
}

impl View for Field {
    type V = Grid;

    closed spec fn view(&self) -> Grid {
        Grid { width: self.width as nat, height: self.height as nat, cells: self.cells@ }
    }
}

impl Clone for Field {
    fn clone(&self) -> (copy: Field)
        ensures
            copy@ == self@,
    {
        proof {
            use_type_invariant(self);
        }
        let cells = self.cells.clone();
        assert(cells@ =~= self.cells@);
        Field { width: self.width, height: self.height, cells }
    }
}

impl Field {
    /// Every field is a well-formed grid.
    #[verifier::type_invariant]
    pub open spec fn inv(&self) -> bool {
        self@.wf()
    }

    /// The number of cells of a field fits in `usize`.
    pub proof fn lemma_cells_fit(&self)
        requires
            self.inv(),
        ensures
            self@.width * self@.height <= usize::MAX,
    {
        assert(self.cells.len() == self.cells@.len());
    }

    /// The index of a position inside the grid is computed without overflow
    /// and lies inside `cells`.
    proof fn lemma_index_fits(&self, x: usize, y: usize)
        requires
            self.inv(),
            self@.in_bounds(x as int, y as int),
        ensures
            y * self.width <= x + y * self.width < self.cells.len() <= usize::MAX,
            x + y * self.width == self@.index_of(x as int, y as int),
    {
        lemma_index_in_range(self@, x as int, y as int);
    }

    /// A grid of `width` by `height` dead cells.
    pub fn new(width: usize, height: usize) -> (field: Field)
        requires
            valid_dimensions(width as int, height as int),
        ensures
            field@ == Grid::blank(width as nat, height as nat),
            field@.wf(),
    {
        let n_cells: usize = width * height;
        let cells: Vec<CellState> = vec![CellState::Dead; n_cells];
        assert(cells@ =~= Seq::new(width as nat * height as nat, |k: int| CellState::Dead));
        Field { width, height, cells }
    }

    /// A grid of `width` by `height` dead cells, where the dimensions are
    /// valid; `InvalidDimensions` where they are not.
    pub fn try_new(width: usize, height: usize) -> (made: Result<Field, FieldError>)
        ensures
            made is Ok <==> valid_dimensions(width as int, height as int),
            made matches Ok(field) ==> field@ == Grid::blank(width as nat, height as nat)
                && field@.wf(),
            made matches Err(error) ==> error == FieldError::InvalidDimensions,
    {
        if width == 0 || height == 0 {
            return Err(FieldError::InvalidDimensions);
        }
        match width.checked_mul(height) {
            Some(_) => Ok(Field::new(width, height)),
            None => Err(FieldError::InvalidDimensions),
        }
    }

    /// The field of the given dimensions and cells, row by row. The
    /// dimensions must be valid and `cells` must hold one cell for each
    /// position, else the result is `InvalidDimensions`; no cell may be
    /// `Unknown`, else it is `UnknownCell`.
    pub fn from_cells(width: usize, height: usize, cells: Vec<CellState>) -> (made: Result<
        Field,
        FieldError,
    >)
        ensures
            made is Ok <==> (Grid { width: width as nat, height: height as nat, cells: cells@ }).wf(),
            made matches Ok(field) ==> field@ == (Grid {
                width: width as nat,
                height: height as nat,
                cells: cells@,
            }),
            made matches Err(error) ==> error == if valid_dimensions(width as int, height as int)
                && cells@.len() == width * height {
                FieldError::UnknownCell
            } else {
                FieldError::InvalidDimensions
            },
    {
        if width == 0 || height == 0 {
            return Err(FieldError::InvalidDimensions);
        }
        match width.checked_mul(height) {
            Some(n_cells) => {
                if cells.len() != n_cells {
                    return Err(FieldError::InvalidDimensions);
                }
            },
            None => {
                return Err(FieldError::InvalidDimensions);
            },
        }
        for k in 0..cells.len()
            invariant
                valid_dimensions(width as int, height as int),
                cells@.len() == width * height,
                forall|i: int| 0 <= i < k ==> cells@[i] != CellState::Unknown,
        {
            if cells[k] == CellState::Unknown {
                return Err(FieldError::UnknownCell);
            }
        }
        Ok(Field { width, height, cells })
    }

    /// The cells, row by row.
    pub fn to_cells(&self) -> (cells: Vec<CellState>)
        ensures
            cells@ == self@.cells,
    {
        let cells = self.cells.clone();
        assert(cells@ =~= self.cells@);
        cells
    }

    pub fn get_width(&self) -> (width: usize)
        ensures
            width == self@.width,
    {
        self.width
    }

    pub fn get_height(&self) -> (height: usize)
        ensures
            height == self@.height,
    {
        self.height
    }

    pub fn is_within_boundaries(&self, x: usize, y: usize) -> (inside: bool)
        ensures
            inside == self@.in_bounds(x as int, y as int),
    {
        x < self.width && y < self.height
    }

    /// The state at `(x, y)`; `Unknown` exactly for a position outside the
    /// grid.
    pub fn get_cell_state(&self, x: usize, y: usize) -> (state: CellState)
        ensures
            state == self@.state_at(x as int, y as int),
            state == CellState::Unknown <==> !self@.in_bounds(x as int, y as int),
    {
        proof {
            use_type_invariant(self);
        }
        if self.is_within_boundaries(x, y) {
            proof {
                self.lemma_index_fits(x, y);
            }
            return self.cells[x + y * self.width];
        }
        CellState::Unknown
    }

    /// The neighbours of `(x, y)`: the positions of the three-by-three block
    /// around it that lie on the grid, column by column and each column from
    /// the top, without `(x, y)` itself. With `consider_extremes_adjacent`,
    /// opposite edges of the grid are adjacent. No more than eight are
    /// listed.
    pub fn get_cell_neighbour_positions(
        &self,
        x: usize,
        y: usize,
        consider_extremes_adjacent: bool,
    ) -> (positions: Vec<CellPosition>)
        ensures
            as_pairs(positions@) == self@.neighbour_positions(
                x as int,
                y as int,
                consider_extremes_adjacent,
            ),
            positions@.len() <= 8,
            forall|k: int|
                0 <= k < positions@.len() ==> self@.in_bounds(
                    #[trigger] positions@[k].x as int,
                    positions@[k].y as int,
                ),
    {
        let xs = axis_candidates(x, self.width, consider_extremes_adjacent);
        let ys = axis_candidates(y, self.height, consider_extremes_adjacent);
        let ghost block = pairs(as_ints(xs@), as_ints(ys@));
        let ghost keep = differs_from((x as int, y as int));
        let mut positions: Vec<CellPosition> = Vec::new();
        proof {
            assert(0 * ys.len() == 0) by (nonlinear_arith);
            assert(block.take(0) =~= Seq::empty());
            assert(as_pairs(positions@) =~= Seq::empty());
            reveal(Seq::filter);
        }
        for a in 0..xs.len()
            invariant
                block == pairs(as_ints(xs@), as_ints(ys@)),
                keep == differs_from((x as int, y as int)),
                0 <= a * ys.len() <= block.len(),
                as_pairs(positions@) == block.take(a * ys.len()).filter(keep),
        {
            for b in 0..ys.len()
                invariant
                    block == pairs(as_ints(xs@), as_ints(ys@)),
                    keep == differs_from((x as int, y as int)),
                    a < xs.len(),
                    0 <= a * ys.len() + b <= block.len(),
                    as_pairs(positions@) == block.take(a * ys.len() + b).filter(keep),
            {
                let i = xs[a];
                let j = ys[b];
                proof {
                    let k = a * ys.len() + b;
                    lemma_pairs_index(as_ints(xs@), as_ints(ys@), a as int, b as int);
                    block.lemma_take_succ_push(k);
                    block.take(k).lemma_filter_push(block[k], keep);
                }
                let ghost before = positions@;
                let is_the_cell_position_itself = i == x && j == y;
                if !is_the_cell_position_itself {
                    positions.push(CellPosition { x: i, y: j });
                    assert(as_pairs(positions@) =~= as_pairs(before).push((i as int, j as int)));
                }
            }
            assert((a + 1) * ys.len() == a * ys.len() + ys.len()) by (nonlinear_arith);
        }
        proof {
            assert(xs.len() * ys.len() == block.len());
            assert(block.take(block.len() as int) =~= block);
            lemma_neighbour_positions(self@, x as int, y as int, consider_extremes_adjacent);
            assert forall|k: int| 0 <= k < positions@.len() implies self@.in_bounds(
                #[trigger] positions@[k].x as int,
                positions@[k].y as int,
            ) by {
                assert(as_pairs(positions@)[k] == positions@[k]@);
            }
        }
        positions
    }

    /// How many neighbours of `(x, y)` are alive.
    pub fn get_number_of_neighbours_alive(
        &self,
        x: usize,
        y: usize,
        consider_extremes_adjacent: bool,
    ) -> (count: usize)
        ensures
            count == self@.alive_neighbours(x as int, y as int, consider_extremes_adjacent),
            count <= 8,
    {
        let mut number_of_neighbours_alive: usize = 0;
        let cell_neighbour_positions = self.get_cell_neighbour_positions(
            x,
            y,
            consider_extremes_adjacent,
        );
        let ghost all = as_pairs(cell_neighbour_positions@);
        proof {
            assert(all.take(0) =~= Seq::empty());
            reveal(Seq::filter);
        }
        for k in 0..cell_neighbour_positions.len()
            invariant
                all == as_pairs(cell_neighbour_positions@),
                number_of_neighbours_alive == all.take(k as int).filter(self@.is_alive()).len(),
                number_of_neighbours_alive <= k,
        {
            let cell_position = cell_neighbour_positions[k];
            proof {
                all.lemma_take_succ_push(k as int);
                all.take(k as int).lemma_filter_len_push(self@.is_alive(), all[k as int]);
            }
            if self.get_cell_state(cell_position.x, cell_position.y) == CellState::Alive {
                number_of_neighbours_alive += 1
            }
        }
        proof {
            assert(all.take(all.len() as int) =~= all);
        }
        number_of_neighbours_alive
    }

    /// Writes `cell_state` at `(x, y)`. A write outside the grid is ignored,
    /// and so is a write of `Unknown`, which no grid stores.
    pub fn set_cell_state(&mut self, x: usize, y: usize, cell_state: CellState)
        ensures
            final(self)@ == old(self)@.with_state(x as int, y as int, cell_state),
            !old(self)@.in_bounds(x as int, y as int) ==> final(self)@ == old(self)@,
            final(self)@.wf(),
    {
        proof {
            use_type_invariant(&*self);
            lemma_with_state(self@, x as int, y as int, cell_state, x as int, y as int);
        }
        if self.is_within_boundaries(x, y) && cell_state != CellState::Unknown {
            proof {
                self.lemma_index_fits(x, y);
            }
            store(&mut self.cells, x + y * self.width, cell_state);
        }
    }
}

/// Overwrites one element of `cells`.
fn store(cells: &mut Vec<CellState>, index: usize, state: CellState)
    requires
        index < old(cells).len(),
    ensures
        final(cells)@ == old(cells)@.update(index as int, state),
    no_unwind
{
    cells[index] = state;
}

} // verus!
