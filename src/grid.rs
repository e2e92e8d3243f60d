//! The mathematical model of a Game of Life board and the laws it obeys.
use vstd::arithmetic::div_mod::lemma_fundamental_div_mod_converse;
use vstd::prelude::*;

verus! {

/// A finite grid of cells, flattened row by row: cell `(x, y)` lives at
/// position `y * width + x` of `cells`.
pub ghost struct Grid {
    pub width: int,
    pub height: int,
    pub cells: Seq<bool>,
}

/// Conway's rule B3/S23: a live cell survives with two or three live
/// neighbours, a dead cell is born with exactly three.
pub open spec fn rule(alive: bool, neighbors: int) -> bool {
    if alive {
        neighbors == 2 || neighbors == 3
    } else {
        neighbors == 3
    }
}

impl Grid {
    /// Dimensions are non-negative and there is exactly one cell per position.
    pub open spec fn wf(self) -> bool {
        &&& self.width >= 0
        &&& self.height >= 0
        &&& self.cells.len() == self.width * self.height
    }

    /// Whether `(x, y)` is a position of the grid.
    pub open spec fn in_bounds(self, x: int, y: int) -> bool {
        0 <= x < self.width && 0 <= y < self.height
    }

    /// The position of cell `(x, y)` in the cell sequence.
    pub open spec fn index(self, x: int, y: int) -> int {
        y * self.width + x
    }

    /// The column of position `i` of the cell sequence.
    pub open spec fn col(self, i: int) -> int {
        i % self.width
    }

    /// The row of position `i` of the cell sequence.
    pub open spec fn row(self, i: int) -> int {
        i / self.width
    }

    /// Whether cell `(x, y)` is alive; positions off the grid are dead.
    pub open spec fn alive(self, x: int, y: int) -> bool {
        self.in_bounds(x, y) && self.cells[self.index(x, y)]
    }

    /// One for a live cell, zero for a dead one or a position off the grid.
    pub open spec fn live(self, x: int, y: int) -> int {
        if self.alive(x, y) { 1 } else { 0 }
    }

    /// The number of live cells among the eight positions around `(x, y)`.
    pub open spec fn neighbors(self, x: int, y: int) -> int {
        self.live(x - 1, y - 1) + self.live(x, y - 1) + self.live(x + 1, y - 1)
            + self.live(x - 1, y) + self.live(x + 1, y)
            + self.live(x - 1, y + 1) + self.live(x, y + 1) + self.live(x + 1, y + 1)
    }

    /// The grid with cell `(x, y)` set to `value`.
    pub open spec fn set(self, x: int, y: int, value: bool) -> Grid {
        Grid { cells: self.cells.update(self.index(x, y), value), ..self }
    }

    /// The grid with cell `(x, y)` flipped.
    pub open spec fn toggled(self, x: int, y: int) -> Grid {
        self.set(x, y, !self.alive(x, y))
    }

    /// The grid of the same size with every cell dead.
    pub open spec fn cleared(self) -> Grid {
        Grid { cells: Seq::new(self.cells.len(), |i: int| false), ..self }
    }

    /// The next generation: every cell follows the rule, reading only this grid.
    pub open spec fn step(self) -> Grid {
        Grid {
            cells: Seq::new(
                self.cells.len(),
                |i: int| rule(self.cells[i], self.neighbors(self.col(i), self.row(i))),
            ),
            ..self
        }
    }
}

/// Position `(x, y)` of a grid lands inside its cell sequence, and its column
/// and row give the coordinates back.
pub proof fn lemma_index_coords(g: Grid, x: int, y: int)
    requires
        g.wf(),
        g.in_bounds(x, y),
    ensures
        0 <= g.index(x, y) < g.width * g.height,
        g.col(g.index(x, y)) == x,
        g.row(g.index(x, y)) == y,
{
    let w = g.width;
    let h = g.height;
    assert(0 <= y * w + x < w * h) by (nonlinear_arith)
        requires
            0 <= x < w,
            0 <= y < h,
    ;
    lemma_fundamental_div_mod_converse(y * w + x, w, y, x);
}

/// Every position of the cell sequence is the index of its column and row.
pub proof fn lemma_coords_of_index(g: Grid, i: int)
    requires
        g.wf(),
        0 <= i < g.width * g.height,
    ensures
        g.in_bounds(g.col(i), g.row(i)),
        g.index(g.col(i), g.row(i)) == i,
{
    let w = g.width;
    let h = g.height;
    assert(w > 0) by (nonlinear_arith)
        requires
            0 <= i < w * h,
            w >= 0,
            h >= 0,
    ;
    let x = i % w;
    let y = i / w;
    assert(i == w * (i / w) + i % w && 0 <= i % w < w) by (nonlinear_arith)
        requires
            w > 0,
    ;
    assert(0 <= y < h) by (nonlinear_arith)
        requires
            i == w * y + x,
            0 <= x < w,
            0 <= i < w * h,
            w > 0,
    ;
}

/// Coordinates and positions correspond one to one: every valid `(x, y)` has
/// its own index in `[0, width * height)`, and every position there is the
/// index of some valid `(x, y)`.
pub proof fn lemma_index_bijective(g: Grid)
    requires
        g.wf(),
    ensures
        forall|x: int, y: int|
            g.in_bounds(x, y) ==> 0 <= #[trigger] g.index(x, y) < g.width * g.height,
        forall|x1: int, y1: int, x2: int, y2: int|
            g.in_bounds(x1, y1) && g.in_bounds(x2, y2) && #[trigger] g.index(x1, y1)
                == #[trigger] g.index(x2, y2) ==> x1 == x2 && y1 == y2,
        forall|i: int|
            0 <= i < g.width * g.height ==> g.in_bounds(#[trigger] g.col(i), g.row(i)) && g.index(
                g.col(i),
                g.row(i),
            ) == i,
{
    assert forall|x: int, y: int| g.in_bounds(x, y) implies 0 <= #[trigger] g.index(x, y) < g.width
        * g.height by {
        lemma_index_coords(g, x, y);
    }
    assert forall|x1: int, y1: int, x2: int, y2: int|
        g.in_bounds(x1, y1) && g.in_bounds(x2, y2) && #[trigger] g.index(x1, y1)
            == #[trigger] g.index(x2, y2) implies x1 == x2 && y1 == y2 by {
        lemma_index_coords(g, x1, y1);
        lemma_index_coords(g, x2, y2);
    }
    assert forall|i: int| 0 <= i < g.width * g.height implies g.in_bounds(
        #[trigger] g.col(i),
        g.row(i),
    ) && g.index(g.col(i), g.row(i)) == i by {
        lemma_coords_of_index(g, i);
    }
}

/// Two well-formed grids of the same size that agree on every cell are equal.
pub proof fn lemma_grid_ext(g1: Grid, g2: Grid)
    requires
        g1.wf(),
        g2.wf(),
        g1.width == g2.width,
        g1.height == g2.height,
        forall|x: int, y: int| g1.in_bounds(x, y) ==> g1.alive(x, y) == #[trigger] g2.alive(x, y),
    ensures
        g1 == g2,
{
    assert forall|i: int| 0 <= i < g1.cells.len() implies g1.cells[i] == g2.cells[i] by {
        lemma_coords_of_index(g1, i);
        assert(g1.alive(g1.col(i), g1.row(i)) == g2.alive(g1.col(i), g1.row(i)));
    }
    assert(g1.cells =~= g2.cells);
}

/// The next generation has the same size, and each of its cells is the rule
/// applied to that cell and its neighbour count in this generation.
pub proof fn lemma_step_alive(g: Grid, x: int, y: int)
    requires
        g.wf(),
        g.in_bounds(x, y),
    ensures
        g.step().wf(),
        g.step().alive(x, y) == rule(g.alive(x, y), g.neighbors(x, y)),
{
    lemma_index_coords(g, x, y);
}

/// Toggling a cell twice gives back the grid it started from.
pub proof fn lemma_toggle_twice(g: Grid, x: int, y: int)
    requires
        g.wf(),
        g.in_bounds(x, y),
    ensures
        g.toggled(x, y).toggled(x, y) == g,
{
    lemma_index_coords(g, x, y);
    assert(g.toggled(x, y).toggled(x, y).cells =~= g.cells);
}

/// After clearing, every cell reads dead, whatever the grid held before.
pub proof fn lemma_cleared_dead(g: Grid, x: int, y: int)
    requires
        g.wf(),
    ensures
        !g.cleared().alive(x, y),
{
    if g.in_bounds(x, y) {
        lemma_index_coords(g, x, y);
    }
}

/// The next generation depends on the cells alone: two grids with the same
/// size and cells have the same next generation.
pub proof fn lemma_step_deterministic(g1: Grid, g2: Grid)
    requires
        g1.width == g2.width,
        g1.height == g2.height,
        g1.cells == g2.cells,
    ensures
        g1.step() == g2.step(),
{
    assert(g1 == g2);
}

/// A 2 × 2 block of live cells away from the edges, with every other cell
/// dead, is a still life: the next generation is the same grid.
pub proof fn lemma_block_still_life(g: Grid, a: int, b: int)
    requires
        g.wf(),
        1 <= a,
        a + 2 < g.width,
        1 <= b,
        b + 2 < g.height,
        forall|x: int, y: int|
            g.in_bounds(x, y) ==> (#[trigger] g.alive(x, y) <==> (a <= x <= a + 1 && b <= y <= b
                + 1)),
    ensures
        g.step() == g,
{
    assert forall|x: int, y: int| g.step().in_bounds(x, y) implies g.step().alive(x, y)
        == #[trigger] g.alive(x, y) by {
        lemma_step_alive(g, x, y);
    }
    assert(g.step().wf());
    lemma_grid_ext(g.step(), g);
}

/// A live cell in the corner `(0, 0)` whose neighbours are all dead dies in
/// the next generation.
pub proof fn lemma_corner_dies(g: Grid)
    requires
        g.wf(),
        g.alive(0, 0),
        !g.alive(1, 0),
        !g.alive(0, 1),
        !g.alive(1, 1),
    ensures
        !g.step().alive(0, 0),
{
    lemma_step_alive(g, 0, 0);
}

} // verus!
