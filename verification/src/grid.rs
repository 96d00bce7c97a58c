//! The mathematical model of a grid: its dimensions and its cells as a flat
//! row-major sequence.

use vstd::prelude::*;
use crate::cell::CellState;
use crate::neighbours::{
    candidates, differs_from, lemma_candidates, lemma_filter_drops, lemma_filter_keeps,
    lemma_filter_members, lemma_pairs_index, pairs,
};

verus! {

/// A grid of `width` columns and `height` rows. The cell in column `x` of row
/// `y` is `cells[x + y * width]`.
pub struct Grid {
    pub width: nat,
    pub height: nat,
    pub cells: Seq<CellState>,
}

impl Grid {
    /// Both dimensions are positive, there is one cell per position, and no
    /// cell is `Unknown`.
    pub open spec fn wf(self) -> bool {
        &&& self.width > 0
        &&& self.height > 0
        &&& self.cells.len() == self.width * self.height
        &&& forall|k: int| 0 <= k < self.cells.len() ==> self.cells[k] != CellState::Unknown
    }

    pub open spec fn in_bounds(self, x: int, y: int) -> bool {
        0 <= x < self.width && 0 <= y < self.height
    }

    /// Where the cell of column `x`, row `y` lies in `cells`.
    pub open spec fn index_of(self, x: int, y: int) -> int {
        x + y * self.width
    }

    /// The state at `(x, y)`: `Unknown` outside the grid.
    pub open spec fn state_at(self, x: int, y: int) -> CellState {
        if self.in_bounds(x, y) {
            self.cells[self.index_of(x, y)]
        } else {
            CellState::Unknown
        }
    }

    /// The grid of the given dimensions whose cells are all dead.
    pub open spec fn blank(width: nat, height: nat) -> Grid {
        Grid { width, height, cells: Seq::new(width * height, |k: int| CellState::Dead) }
    }

    /// The positions of the three-by-three block around `(x, y)` that lie on
    /// the grid, every column of the block from top to bottom, the left one
    /// first. With `wrap`, opposite edges of the grid are adjacent.
    pub open spec fn block(self, x: int, y: int, wrap: bool) -> Seq<(int, int)> {
        pairs(
            candidates(x, self.width as int, wrap),
            candidates(y, self.height as int, wrap),
        )
    }

    /// The neighbours of `(x, y)`: its block without `(x, y)` itself. On a
    /// grid so narrow that wrapping leads back to a position, that position
    /// is listed once for each way that leads to it.
    pub open spec fn neighbour_positions(self, x: int, y: int, wrap: bool) -> Seq<(int, int)> {
        self.block(x, y, wrap).filter(differs_from((x, y)))
    }

    /// The test that a position holds a live cell.
    pub open spec fn is_alive(self) -> spec_fn((int, int)) -> bool {
        |p: (int, int)| self.state_at(p.0, p.1) == CellState::Alive
    }

    /// How many of the neighbours of `(x, y)` are alive.
    pub open spec fn alive_neighbours(self, x: int, y: int, wrap: bool) -> nat {
        self.neighbour_positions(x, y, wrap).filter(self.is_alive()).len()
    }

    /// The state of `(x, y)` in the next generation: dead with fewer than two
    /// or more than three live neighbours, alive with exactly three,
    /// unchanged with exactly two.
    pub open spec fn next_state(self, x: int, y: int, wrap: bool) -> CellState {
        let n = self.alive_neighbours(x, y, wrap);
        if n < 2 || n > 3 {
            CellState::Dead
        } else if n == 3 {
            CellState::Alive
        } else {
            self.state_at(x, y)
        }
    }

    /// The next generation: every cell takes its next state, all of them
    /// computed from this grid.
    pub open spec fn step(self, wrap: bool) -> Grid {
        Grid {
            cells: Seq::new(
                self.width * self.height,
                |k: int| self.next_state(k % (self.width as int), k / (self.width as int), wrap),
            ),
            ..self
        }
    }

    /// This grid with every cell dead.
    pub open spec fn cleared(self) -> Grid {
        Grid::blank(self.width, self.height)
    }

    /// This grid with a live cell at every position of `alive` that lies on
    /// it, and its other cells as they are.
    pub open spec fn overlaid(self, alive: Set<(int, int)>) -> Grid {
        Grid {
            cells: Seq::new(
                self.cells.len(),
                |k: int|
                    if alive.contains((k % (self.width as int), k / (self.width as int))) {
                        CellState::Alive
                    } else {
                        self.cells[k]
                    },
            ),
            ..self
        }
    }

    /// The grid of the given dimensions whose cell `k`, in row-major order,
    /// is alive where `draws[k]` is true and dead where it is false.
    pub open spec fn drawn(width: nat, height: nat, draws: Seq<bool>) -> Grid {
        Grid { width, height, cells: draws.map_values(|alive: bool| state_of_draw(alive)) }
    }

    /// This grid with `state` written at `(x, y)`. A write outside the grid,
    /// or of `Unknown`, changes nothing.
    pub open spec fn with_state(self, x: int, y: int, state: CellState) -> Grid {
        if self.in_bounds(x, y) && state != CellState::Unknown {
            Grid { cells: self.cells.update(self.index_of(x, y), state), ..self }
        } else {
            self
        }
    }
}

/// The state that a draw gives a cell.
pub open spec fn state_of_draw(alive: bool) -> CellState {
    if alive {
        CellState::Alive
    } else {
        CellState::Dead
    }
}

/// The five positions of the first seed pattern, around `(32, 32)`.
pub open spec fn seed_1() -> Set<(int, int)> {
    set![(32int, 32int), (31int, 32int), (32int, 31int), (32int, 33int), (33int, 33int)]
}

/// Whether the sweep over the grid, column by column and each column from the
/// top, has passed `(x, y)` when it stands at `(i, j)`.
pub open spec fn swept(x: int, y: int, i: int, j: int) -> bool {
    x < i || (x == i && y < j)
}

/// A position inside the grid has an index inside `cells`.
pub proof fn lemma_index_in_range(g: Grid, x: int, y: int)
    requires
        g.in_bounds(x, y),
    ensures
        0 <= y * g.width <= g.index_of(x, y) < g.width * g.height,
{
    let w = g.width as int;
    let h = g.height as int;
    assert(0 <= y * w <= x + y * w < w * h) by (nonlinear_arith)
        requires
            0 <= x < w,
            0 <= y < h,
    ;
}

/// Two positions inside the grid with one index are one position.
pub proof fn lemma_index_injective(g: Grid, x1: int, y1: int, x2: int, y2: int)
    requires
        g.in_bounds(x1, y1),
        g.in_bounds(x2, y2),
        g.index_of(x1, y1) == g.index_of(x2, y2),
    ensures
        x1 == x2,
        y1 == y2,
{
    let w = g.width as int;
    assert(y1 == y2) by (nonlinear_arith)
        requires
            0 <= x1 < w,
            0 <= x2 < w,
            x1 + y1 * w == x2 + y2 * w,
    ;
}

/// The position of an index inside `cells`: the inverse of `index_of`.
pub proof fn lemma_position_of_index(g: Grid, k: int)
    requires
        g.width > 0,
        0 <= k < g.width * g.height,
    ensures
        g.in_bounds(k % (g.width as int), k / (g.width as int)),
        g.index_of(k % (g.width as int), k / (g.width as int)) == k,
{
    let w = g.width as int;
    let h = g.height as int;
    assert(0 <= k % w < w && 0 <= k / w < h && k % w + (k / w) * w == k) by (nonlinear_arith)
        requires
            0 < w,
            0 <= k < w * h,
    ;
}

/// Two grids of the same dimensions that agree at every position are equal.
pub proof fn lemma_equal_by_positions(g1: Grid, g2: Grid)
    requires
        g1.width > 0,
        g1.width == g2.width,
        g1.height == g2.height,
        g1.cells.len() == g1.width * g1.height,
        g2.cells.len() == g1.cells.len(),
        forall|x: int, y: int|
            g1.in_bounds(x, y) ==> #[trigger] g1.state_at(x, y) == g2.state_at(x, y),
    ensures
        g1 == g2,
{
    assert forall|k: int| 0 <= k < g1.cells.len() implies g1.cells[k] == g2.cells[k] by {
        lemma_position_of_index(g1, k);
        let x = k % (g1.width as int);
        let y = k / (g1.width as int);
        assert(g1.state_at(x, y) == g2.state_at(x, y));
    }
    assert(g1.cells =~= g2.cells);
}

/// A write changes the state at the written position and at no other.
pub proof fn lemma_with_state(g: Grid, x: int, y: int, state: CellState, x2: int, y2: int)
    requires
        g.cells.len() == g.width * g.height,
    ensures
        g.with_state(x, y, state).state_at(x2, y2) == if x2 == x && y2 == y && g.in_bounds(x, y)
            && state != CellState::Unknown {
            state
        } else {
            g.state_at(x2, y2)
        },
        g.with_state(x, y, state).width == g.width,
        g.with_state(x, y, state).height == g.height,
        g.with_state(x, y, state).cells.len() == g.cells.len(),
        g.wf() ==> g.with_state(x, y, state).wf(),
{
    if g.in_bounds(x, y) {
        lemma_index_in_range(g, x, y);
        if g.in_bounds(x2, y2) {
            lemma_index_in_range(g, x2, y2);
            if g.index_of(x, y) == g.index_of(x2, y2) {
                lemma_index_injective(g, x, y, x2, y2);
            }
        }
    }
}

/// An overlay makes the positions of `alive` alive and changes no other.
pub proof fn lemma_overlaid(g: Grid, alive: Set<(int, int)>, x: int, y: int)
    requires
        g.width > 0,
        g.cells.len() == g.width * g.height,
    ensures
        g.overlaid(alive).state_at(x, y) == if g.in_bounds(x, y) && alive.contains((x, y)) {
            CellState::Alive
        } else {
            g.state_at(x, y)
        },
        g.wf() ==> g.overlaid(alive).wf(),
{
    if g.in_bounds(x, y) {
        lemma_index_in_range(g, x, y);
        let k = g.index_of(x, y);
        lemma_position_of_index(g, k);
        lemma_index_injective(g, x, y, k % (g.width as int), k / (g.width as int));
    }
}

/// In the next generation every position holds its next state.
pub proof fn lemma_step(g: Grid, wrap: bool, x: int, y: int)
    requires
        g.wf(),
        g.in_bounds(x, y),
    ensures
        g.step(wrap).state_at(x, y) == g.next_state(x, y, wrap),
        g.next_state(x, y, wrap) != CellState::Unknown,
{
    lemma_index_in_range(g, x, y);
    let k = g.index_of(x, y);
    lemma_position_of_index(g, k);
    lemma_index_injective(g, x, y, k % (g.width as int), k / (g.width as int));
}

/// A generation step keeps a grid well formed.
pub proof fn lemma_step_wf(g: Grid, wrap: bool)
    requires
        g.wf(),
    ensures
        g.step(wrap).wf(),
{
    let next = g.step(wrap);
    assert forall|k: int| 0 <= k < next.cells.len() implies next.cells[k]
        != CellState::Unknown by {
        lemma_position_of_index(g, k);
        lemma_step(g, wrap, k % (g.width as int), k / (g.width as int));
    }
}

/// Every neighbour lies on the grid, and no position has more than eight.
pub proof fn lemma_neighbour_positions(g: Grid, x: int, y: int, wrap: bool)
    ensures
        g.neighbour_positions(x, y, wrap).len() <= 8,
        forall|k: int|
            0 <= k < g.neighbour_positions(x, y, wrap).len() ==> {
                let p = #[trigger] g.neighbour_positions(x, y, wrap)[k];
                g.in_bounds(p.0, p.1) && p != (x, y)
            },
{
    let xs = candidates(x, g.width as int, wrap);
    let ys = candidates(y, g.height as int, wrap);
    let block = g.block(x, y, wrap);
    let keep = differs_from((x, y));
    lemma_candidates(x, g.width as int, wrap);
    lemma_candidates(y, g.height as int, wrap);
    assert(block.len() <= 9) by (nonlinear_arith)
        requires
            block.len() == xs.len() * ys.len(),
            xs.len() <= 3,
            ys.len() <= 3,
    ;
    block.lemma_filter_len(keep);
    if block.len() == 9 {
        assert(xs.len() == 3 && ys.len() == 3) by (nonlinear_arith)
            requires
                xs.len() * ys.len() == 9,
                xs.len() <= 3,
                ys.len() <= 3,
        ;
        lemma_pairs_index(xs, ys, 1, 1);
        lemma_filter_drops(block, keep, 4);
    }
    lemma_filter_members(block, keep);
    assert forall|k: int| 0 <= k < block.filter(keep).len() implies {
        let p = #[trigger] block.filter(keep)[k];
        g.in_bounds(p.0, p.1) && p != (x, y)
    } by {
        let p = block.filter(keep)[k];
        let j = choose|j: int| 0 <= j < block.len() && block[j] == p;
        let m = ys.len() as int;
        assert(0 <= j / m < xs.len() && 0 <= j % m < m) by (nonlinear_arith)
            requires
                0 <= j < xs.len() * m,
        ;
    }
}

/// No position has more than eight live neighbours.
pub proof fn lemma_alive_neighbours_at_most_eight(g: Grid, x: int, y: int, wrap: bool)
    ensures
        g.alive_neighbours(x, y, wrap) <= 8,
{
    lemma_neighbour_positions(g, x, y, wrap);
    g.neighbour_positions(x, y, wrap).lemma_filter_len(g.is_alive());
}

/// Without wrapping, a corner of a grid of at least two by two cells has
/// exactly three neighbours, so at most three live ones.
pub proof fn lemma_corner_neighbours(g: Grid, x: int, y: int)
    requires
        g.wf(),
        g.width >= 2,
        g.height >= 2,
        x == 0 || x == g.width - 1,
        y == 0 || y == g.height - 1,
    ensures
        g.neighbour_positions(x, y, false).len() == 3,
        g.alive_neighbours(x, y, false) <= 3,
{
    let xs = candidates(x, g.width as int, false);
    let ys = candidates(y, g.height as int, false);
    let block = g.block(x, y, false);
    let keep = differs_from((x, y));
    assert(xs.len() == 2 && ys.len() == 2);
    lemma_pairs_index(xs, ys, 0, 0);
    lemma_pairs_index(xs, ys, 0, 1);
    lemma_pairs_index(xs, ys, 1, 0);
    lemma_pairs_index(xs, ys, 1, 1);
    assert(block =~= seq![(xs[0], ys[0]), (xs[0], ys[1]), (xs[1], ys[0]), (xs[1], ys[1])]);
    assert(block.filter(keep).len() == 3) by {
        reveal_with_fuel(Seq::filter, 5);
    }
    g.neighbour_positions(x, y, false).lemma_filter_len(g.is_alive());
}

/// With wrapping, the top left cell is a neighbour of the cells across the
/// edges: of the last cell of its row on a grid of two columns or more, of the
/// last cell of its column on a grid of two rows or more, and of the opposite
/// corner on every grid but the one of a single cell.
pub proof fn lemma_wrap_joins_edges(g: Grid)
    requires
        g.wf(),
    ensures
        g.width >= 2 ==> g.neighbour_positions(0, 0, true).contains((g.width - 1, 0int)),
        g.height >= 2 ==> g.neighbour_positions(0, 0, true).contains((0int, g.height - 1)),
        g.width >= 2 || g.height >= 2 ==> g.neighbour_positions(0, 0, true).contains(
            (g.width - 1, g.height - 1),
        ),
{
    let xs = candidates(0, g.width as int, true);
    let ys = candidates(0, g.height as int, true);
    let block = g.block(0, 0, true);
    let keep = differs_from((0int, 0int));
    assert(xs[0] == g.width - 1 && xs[1] == 0);
    assert(ys[0] == g.height - 1 && ys[1] == 0);
    lemma_pairs_index(xs, ys, 0, 0);
    lemma_pairs_index(xs, ys, 0, 1);
    lemma_pairs_index(xs, ys, 1, 0);
    let m = ys.len() as int;
    if g.width >= 2 {
        lemma_filter_keeps(block, keep, 0 * m + 1);
    }
    if g.height >= 2 {
        lemma_filter_keeps(block, keep, 1 * m + 0);
    }
    if g.width >= 2 || g.height >= 2 {
        lemma_filter_keeps(block, keep, 0 * m + 0);
    }
}

/// On a grid of dead cells, such as a new one, no position has a live
/// neighbour.
pub proof fn lemma_blank_has_no_live_neighbours(
    width: nat,
    height: nat,
    x: int,
    y: int,
    wrap: bool,
)
    ensures
        Grid::blank(width, height).alive_neighbours(x, y, wrap) == 0,
{
    let g = Grid::blank(width, height);
    let around = g.neighbour_positions(x, y, wrap);
    assert forall|k: int| 0 <= k < around.len() implies !(g.is_alive())(#[trigger] around[k]) by {
        let p = around[k];
        if g.in_bounds(p.0, p.1) {
            lemma_index_in_range(g, p.0, p.1);
        }
    }
    around.lemma_all_neg_filter_empty(g.is_alive());
}

/// Clearing a cleared grid changes nothing, and on a cleared grid no
/// position has a live neighbour.
pub proof fn lemma_cleared(g: Grid, x: int, y: int, wrap: bool)
    ensures
        g.cleared().cleared() == g.cleared(),
        g.cleared().width == g.width,
        g.cleared().height == g.height,
        g.cleared().alive_neighbours(x, y, wrap) == 0,
{
    lemma_blank_has_no_live_neighbours(g.width, g.height, x, y, wrap);
}

/// Where every draw has one outcome, every cell has the state of that
/// outcome: all alive when all draws are true, all dead when all are false.
pub proof fn lemma_drawn_uniform(width: nat, height: nat, draws: Seq<bool>, outcome: bool)
    requires
        draws.len() == width * height,
        forall|k: int| 0 <= k < draws.len() ==> draws[k] == outcome,
    ensures
        forall|x: int, y: int|
            Grid::drawn(width, height, draws).in_bounds(x, y) ==> #[trigger] Grid::drawn(
                width,
                height,
                draws,
            ).state_at(x, y) == state_of_draw(outcome),
{
    let g = Grid::drawn(width, height, draws);
    assert forall|x: int, y: int| g.in_bounds(x, y) implies #[trigger] g.state_at(x, y)
        == state_of_draw(outcome) by {
        lemma_index_in_range(g, x, y);
    }
}

} // verus!
