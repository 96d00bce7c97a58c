//! One running simulation: a field and the count of its generations.

use vstd::prelude::*;
use crate::cell::CellState;
use crate::field::{valid_dimensions, Field, FieldError};
use crate::grid::{
    lemma_equal_by_positions, lemma_index_in_range, lemma_overlaid, lemma_step, lemma_with_state,
    seed_1, state_of_draw, swept, Grid,
};

verus! {

/// The model of a game: its grid and the number of generations advanced.
pub struct GameView {
    pub field: Grid,
    pub generation: nat,
}

/// A game of life: a field, and how many generations it was advanced.
pub struct Game {
    field: Field,
    generation: usize,
}

impl View for Game {
    type V = GameView;

    closed spec fn view(&self) -> GameView {
        GameView { field: self.field@, generation: self.generation as nat }
    }
}

impl Game {
    /// A game on a grid of `width` by `height` dead cells, at generation 0.
    pub fn new(width: usize, height: usize) -> (game: Game)
        requires
            valid_dimensions(width as int, height as int),
        ensures
            game@ == (GameView { field: Grid::blank(width as nat, height as nat), generation: 0 }),
            game@.field.wf(),
    {
        Game { field: Field::new(width, height), generation: 0 }
    }

    /// A game as `new` makes it, where the dimensions are valid;
    /// `InvalidDimensions` where they are not.
    pub fn try_new(width: usize, height: usize) -> (made: Result<Game, FieldError>)
        ensures
            made is Ok <==> valid_dimensions(width as int, height as int),
            made matches Ok(game) ==> game@ == (GameView {
                field: Grid::blank(width as nat, height as nat),
                generation: 0,
            }),
            made matches Err(error) ==> error == FieldError::InvalidDimensions,
    {
        match Field::try_new(width, height) {
            Ok(field) => Ok(Game { field, generation: 0 }),
            Err(error) => Err(error),
        }
    }

    /// The game on `field` that has advanced `generation` generations.
    pub fn from_parts(field: Field, generation: usize) -> (game: Game)
        ensures
            game@ == (GameView { field: field@, generation: generation as nat }),
    {
        Game { field, generation }
    }

    /// The field, for reading.
    pub fn field(&self) -> (field: &Field)
        ensures
            field@ == self@.field,
    {
        &self.field
    }

    pub fn get_generation(&self) -> (generation: usize)
        ensures
            generation == self@.generation,
    {
        self.generation
    }

    /// The field, for reading and editing cells. An edit leaves the
    /// generation count as it is.
    pub fn get_field(&mut self) -> (field: &mut Field)
        ensures
            field@ == old(self)@.field,
            final(self)@.field == final(field)@,
            final(self)@.generation == old(self)@.generation,
    {
        &mut self.field
    }

    /// Replaces the grid by its next generation and counts it.
    pub fn advance_generation(&mut self, consider_extremes_adjacent: bool)
        requires
            old(self)@.generation < usize::MAX,
        ensures
            final(self)@.field == old(self)@.field.step(consider_extremes_adjacent),
            final(self)@.generation == old(self)@.generation + 1,
            final(self)@.field.wf(),
    {
        let previous_field = self.field.clone();
        let width = self.field.get_width();
        let height = self.field.get_height();
        let ghost before = previous_field@;
        let ghost wrap = consider_extremes_adjacent;
        proof {
            use_type_invariant(&previous_field);
        }
        for i in 0..width
            invariant
                before.wf(),
                before == previous_field@,
                wrap == consider_extremes_adjacent,
                width == before.width,
                height == before.height,
                self.generation == old(self).generation,
                self.field@.width == before.width,
                self.field@.height == before.height,
                self.field@.cells.len() == before.cells.len(),
                forall|x: int, y: int|
                    before.in_bounds(x, y) ==> #[trigger] self.field@.state_at(x, y) == (if x < i {
                        before.next_state(x, y, wrap)
                    } else {
                        before.state_at(x, y)
                    }),
        {
            for j in 0..height
                invariant
                    before.wf(),
                    before == previous_field@,
                    wrap == consider_extremes_adjacent,
                    i < width,
                    width == before.width,
                    height == before.height,
                    self.generation == old(self).generation,
                    self.field@.width == before.width,
                    self.field@.height == before.height,
                    self.field@.cells.len() == before.cells.len(),
                    forall|x: int, y: int|
                        before.in_bounds(x, y) ==> #[trigger] self.field@.state_at(x, y) == (if swept(
                            x,
                            y,
                            i as int,
                            j as int,
                        ) {
                            before.next_state(x, y, wrap)
                        } else {
                            before.state_at(x, y)
                        }),
            {
                let ghost current = self.field@;
                let number_of_neighbours_alive = previous_field.get_number_of_neighbours_alive(
                    i,
                    j,
                    consider_extremes_adjacent,
                );
                if number_of_neighbours_alive < 2 || number_of_neighbours_alive > 3 {
                    self.field.set_cell_state(i, j, CellState::Dead);
                } else if number_of_neighbours_alive == 3 {
                    self.field.set_cell_state(i, j, CellState::Alive);
                }
                proof {
                    let state = before.next_state(i as int, j as int, wrap);
                    lemma_with_state(current, i as int, j as int, state, i as int, j as int);
                    assert(before.state_at(i as int, j as int) == current.state_at(
                        i as int,
                        j as int,
                    ));
                    assert forall|x: int, y: int| before.in_bounds(x, y) implies #[trigger] self.field@.state_at(
                        x,
                        y,
                    ) == (if swept(x, y, i as int, j + 1) {
                        before.next_state(x, y, wrap)
                    } else {
                        before.state_at(x, y)
                    }) by {
                        lemma_with_state(current, i as int, j as int, state, x, y);
                        assert(current.state_at(x, y) == (if swept(x, y, i as int, j as int) {
                            before.next_state(x, y, wrap)
                        } else {
                            before.state_at(x, y)
                        }));
                    }
                }
            }
        }
        proof {
            let after = before.step(wrap);
            assert forall|x: int, y: int| before.in_bounds(x, y) implies #[trigger] self.field@.state_at(
                x,
                y,
            ) == after.state_at(x, y) by {
                lemma_step(before, wrap, x, y);
            }
            lemma_equal_by_positions(self.field@, after);
        }
        self.generation = self.generation + 1;
        proof {
            use_type_invariant(&self.field);
        }
    }

    /// Makes every cell dead. The generation count stays.
    pub fn clear(&mut self)
        ensures
            final(self)@.field == old(self)@.field.cleared(),
            final(self)@.generation == old(self)@.generation,
            final(self)@.field.wf(),
    {
        let width = self.field.get_width();
        let height = self.field.get_height();
        let ghost before = self.field@;
        proof {
            use_type_invariant(&self.field);
        }
        for i in 0..width
            invariant
                before.wf(),
                width == before.width,
                height == before.height,
                self.generation == old(self).generation,
                self.field@.width == before.width,
                self.field@.height == before.height,
                self.field@.cells.len() == before.cells.len(),
                forall|x: int, y: int|
                    before.in_bounds(x, y) && x < i ==> #[trigger] self.field@.state_at(x, y)
                        == CellState::Dead,
        {
            for j in 0..height
                invariant
                    before.wf(),
                    i < width,
                    width == before.width,
                    height == before.height,
                    self.generation == old(self).generation,
                    self.field@.width == before.width,
                    self.field@.height == before.height,
                    self.field@.cells.len() == before.cells.len(),
                    forall|x: int, y: int|
                        before.in_bounds(x, y) && swept(x, y, i as int, j as int)
                            ==> #[trigger] self.field@.state_at(x, y) == CellState::Dead,
            {
                let ghost current = self.field@;
                self.field.set_cell_state(i, j, CellState::Dead);
                proof {
                    lemma_with_state(current, i as int, j as int, CellState::Dead, i as int, j as int);
                    assert forall|x: int, y: int|
                        before.in_bounds(x, y) && swept(x, y, i as int, j + 1)
                        implies #[trigger] self.field@.state_at(x, y) == CellState::Dead by {
                        lemma_with_state(current, i as int, j as int, CellState::Dead, x, y);
                    }
                }
            }
        }
        proof {
            let blank = Grid::blank(before.width, before.height);
            assert forall|x: int, y: int| before.in_bounds(x, y) implies #[trigger] self.field@.state_at(
                x,
                y,
            ) == blank.state_at(x, y) by {
                lemma_index_in_range(blank, x, y);
            }
            lemma_equal_by_positions(self.field@, blank);
            use_type_invariant(&self.field);
        }
    }

    /// Gives every cell the state that its draw decides: cell `k`, counted
    /// row by row, is alive where `draws[k]` is true and dead where it is
    /// false. The generation count stays.
    pub fn randomize(&mut self, draws: &[bool])
        requires
            draws@.len() == old(self)@.field.width * old(self)@.field.height,
        ensures
            final(self)@.field == Grid::drawn(
                old(self)@.field.width,
                old(self)@.field.height,
                draws@,
            ),
            final(self)@.generation == old(self)@.generation,
            final(self)@.field.wf(),
    {
        let width = self.field.get_width();
        let height = self.field.get_height();
        let ghost before = self.field@;
        let ghost target = Grid::drawn(before.width, before.height, draws@);
        proof {
            use_type_invariant(&self.field);
            self.field.lemma_cells_fit();
        }
        for i in 0..width
            invariant
                before.wf(),
                target == Grid::drawn(before.width, before.height, draws@),
                draws@.len() == before.width * before.height,
                draws@.len() <= usize::MAX,
                width == before.width,
                height == before.height,
                self.generation == old(self).generation,
                self.field@.width == before.width,
                self.field@.height == before.height,
                self.field@.cells.len() == before.cells.len(),
                forall|x: int, y: int|
                    before.in_bounds(x, y) && x < i ==> #[trigger] self.field@.state_at(x, y)
                        == target.state_at(x, y),
        {
            for j in 0..height
                invariant
                    before.wf(),
                    target == Grid::drawn(before.width, before.height, draws@),
                    draws@.len() == before.width * before.height,
                    draws@.len() <= usize::MAX,
                draws@.len() <= usize::MAX,
                    i < width,
                    width == before.width,
                    height == before.height,
                    self.generation == old(self).generation,
                    self.field@.width == before.width,
                    self.field@.height == before.height,
                    self.field@.cells.len() == before.cells.len(),
                    forall|x: int, y: int|
                        before.in_bounds(x, y) && swept(x, y, i as int, j as int)
                            ==> #[trigger] self.field@.state_at(x, y) == target.state_at(x, y),
            {
                let ghost current = self.field@;
                proof {
                    lemma_index_in_range(before, i as int, j as int);
                }
                let is_alive = draws[i + j * width];
                let state = if is_alive {
                    CellState::Alive
                } else {
                    CellState::Dead
                };
                self.field.set_cell_state(i, j, state);
                proof {
                    assert(state == target.state_at(i as int, j as int));
                    lemma_with_state(current, i as int, j as int, state, i as int, j as int);
                    assert forall|x: int, y: int|
                        before.in_bounds(x, y) && swept(x, y, i as int, j + 1)
                        implies #[trigger] self.field@.state_at(x, y) == target.state_at(x, y) by {
                        lemma_with_state(current, i as int, j as int, state, x, y);
                    }
                }
            }
        }
        proof {
            lemma_equal_by_positions(self.field@, target);
            use_type_invariant(&self.field);
        }
    }

    /// Lays the first seed pattern over the grid: the positions of `seed_1`
    /// that lie on the grid become alive, and every other cell stays as it
    /// is. The generation count stays.
    pub fn apply_seed_1_to_field(&mut self)
        ensures
            final(self)@.field == old(self)@.field.overlaid(seed_1()),
            final(self)@.generation == old(self)@.generation,
            final(self)@.field.wf(),
            forall|x: int, y: int| #[trigger]
                final(self)@.field.state_at(x, y) == if old(self)@.field.in_bounds(x, y)
                    && seed_1().contains((x, y)) {
                    CellState::Alive
                } else {
                    old(self)@.field.state_at(x, y)
                },
    {
        let seed_x: usize = 32;
        let seed_y: usize = 32;

        let x = seed_x;
        let y = seed_y;
        let ghost g0 = self.field@;
        proof {
            use_type_invariant(&self.field);
        }
        self.field.set_cell_state(x, y, CellState::Alive);
        let ghost g1 = self.field@;
        self.field.set_cell_state(x - 1, y, CellState::Alive);
        let ghost g2 = self.field@;
        self.field.set_cell_state(x, y - 1, CellState::Alive);
        let ghost g3 = self.field@;
        self.field.set_cell_state(x, y + 1, CellState::Alive);
        let ghost g4 = self.field@;
        self.field.set_cell_state(x + 1, y + 1, CellState::Alive);
        proof {
            let g5 = self.field@;
            let laid = g0.overlaid(seed_1());
            lemma_with_state(g0, 32, 32, CellState::Alive, 0, 0);
            lemma_with_state(g1, 31, 32, CellState::Alive, 0, 0);
            lemma_with_state(g2, 32, 31, CellState::Alive, 0, 0);
            lemma_with_state(g3, 32, 33, CellState::Alive, 0, 0);
            lemma_with_state(g4, 33, 33, CellState::Alive, 0, 0);
            assert forall|px: int, py: int| #[trigger]
                g5.state_at(px, py) == laid.state_at(px, py) && laid.state_at(px, py) == (if g0.in_bounds(
                    px,
                    py,
                ) && seed_1().contains((px, py)) {
                    CellState::Alive
                } else {
                    g0.state_at(px, py)
                }) by {
                lemma_with_state(g0, 32, 32, CellState::Alive, px, py);
                lemma_with_state(g1, 31, 32, CellState::Alive, px, py);
                lemma_with_state(g2, 32, 31, CellState::Alive, px, py);
                lemma_with_state(g3, 32, 33, CellState::Alive, px, py);
                lemma_with_state(g4, 33, 33, CellState::Alive, px, py);
                lemma_overlaid(g0, seed_1(), px, py);
            }
            lemma_equal_by_positions(g5, laid);
            use_type_invariant(&self.field);
        }
    }
}

} // verus!
