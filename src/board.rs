//! The executable board: a flat vector of cells under Conway's rule.
use crate::grid::{Grid, lemma_grid_ext, lemma_index_coords, lemma_step_alive, rule};
use vstd::arithmetic::div_mod::lemma_fundamental_div_mod_converse;
use vstd::prelude::*;

verus! {

/// A Game of Life board of fixed size. Its view is the [`Grid`] it holds.
pub struct Board {
    width: i32,
    height: i32,
    cells: Vec<bool>,
}

impl View for Board {
    type V = Grid;

    closed spec fn view(&self) -> Grid {
        Grid { width: self.width as int, height: self.height as int, cells: self.cells@ }
    }
}

impl Default for Board {
    /// A 10 × 10 board with every cell dead.
    fn default() -> (r: Board)
        ensures
            r.wf(),
            r@.width == 10,
            r@.height == 10,
            forall|i: int| 0 <= i < r@.cells.len() ==> !#[trigger] r@.cells[i],
    {
        Board::new(10, 10)
    }
}

/// The live cells among the first `k` positions of the 3×3 window around
/// `(x, y)`, taken column by column, the centre left out.
spec fn window_count(g: Grid, x: int, y: int, k: nat) -> int
    decreases k,
{
    if k == 0 {
        0
    } else {
        let j = (k - 1) as int;
        window_count(g, x, y, (k - 1) as nat) + if j == 4 {
            0
        } else {
            g.live(x + j / 3 - 1, y + j % 3 - 1)
        }
    }
}

/// The whole window counts exactly the eight neighbours.
proof fn lemma_window_complete(g: Grid, x: int, y: int)
    ensures
        window_count(g, x, y, 9) == g.neighbors(x, y),
{
    reveal_with_fuel(window_count, 10);
}

impl Board {
    /// The board is well formed: one cell per position of a grid of
    /// non-negative size.
    pub open spec fn wf(&self) -> bool {
        self@.wf()
    }

    /// A `width` × `height` board with every cell dead. A board with no
    /// columns or no rows is allowed and has no cells.
    pub fn new(width: i32, height: i32) -> (r: Board)
        requires
            width >= 0,
            height >= 0,
            width * height <= usize::MAX,
        ensures
            r.wf(),
            r@.width == width,
            r@.height == height,
            forall|i: int| 0 <= i < r@.cells.len() ==> !#[trigger] r@.cells[i],
    {
        let n: usize = (width as usize) * (height as usize);
        let cells: Vec<bool> = vec![false; n];
        Board { width, height, cells }
    }

    /// A `width` × `height` board with every cell dead, or `None` where a
    /// dimension is negative or the board would not fit in memory.
    pub fn try_new(width: i32, height: i32) -> (r: Option<Board>)
        ensures
            r is None <==> (width < 0 || height < 0 || width * height > usize::MAX),
            r matches Some(b) ==> b.wf() && b@.width == width && b@.height == height && (forall|
                i: int,
            | 0 <= i < b@.cells.len() ==> !#[trigger] b@.cells[i]),
    {
        if width < 0 || height < 0 {
            return None;
        }
        match (width as usize).checked_mul(height as usize) {
            Some(_) => Some(Board::new(width, height)),
            None => None,
        }
    }

    /// The number of columns.
    pub fn width(&self) -> (r: i32)
        ensures
            r == self@.width,
    {
        self.width
    }

    /// The number of rows.
    pub fn height(&self) -> (r: i32)
        ensures
            r == self@.height,
    {
        self.height
    }

    /// The cells, row by row.
    pub fn cells(&self) -> (r: &Vec<bool>)
        ensures
            r@ == self@.cells,
    {
        &self.cells
    }

    /// The index of cell `(x, y)` in the flat cell vector.
    pub fn get_index(&self, x: i32, y: i32) -> (r: usize)
        requires
            self.wf(),
            self@.in_bounds(x as int, y as int),
        ensures
            r == self@.index(x as int, y as int),
            r < self@.cells.len(),
    {
        proof {
            lemma_index_coords(self@, x as int, y as int);
            assert(self.cells@.len() == self.cells.len());
        }
        (y as usize) * (self.width as usize) + (x as usize)
    }

    /// Whether cell `(x, y)` is alive.
    pub fn get_cell(&self, x: i32, y: i32) -> (r: bool)
        requires
            self.wf(),
            self@.in_bounds(x as int, y as int),
        ensures
            r == self@.alive(x as int, y as int),
    {
        self.cells[self.get_index(x, y)]
    }

    /// Sets cell `(x, y)` to `value`, leaving every other cell as it was.
    pub fn set_cell(&mut self, x: i32, y: i32, value: bool)
        requires
            old(self).wf(),
            old(self)@.in_bounds(x as int, y as int),
        ensures
            final(self).wf(),
            final(self)@ == old(self)@.set(x as int, y as int, value),
    {
        let index: usize = self.get_index(x, y);
        self.cells.set(index, value);
    }

    /// Flips cell `(x, y)`, leaving every other cell as it was.
    pub fn toggle_cell(&mut self, x: i32, y: i32)
        requires
            old(self).wf(),
            old(self)@.in_bounds(x as int, y as int),
        ensures
            final(self).wf(),
            final(self)@ == old(self)@.toggled(x as int, y as int),
    {
        let index: usize = self.get_index(x, y);
        let alive: bool = self.cells[index];
        self.cells.set(index, !alive);
    }

    /// Makes every cell dead; the size stays.
    pub fn clear(&mut self)
        requires
            old(self).wf(),
        ensures
            final(self).wf(),
            final(self)@ == old(self)@.cleared(),
    {
        let n: usize = self.cells.len();
        let mut i: usize = 0;
        while i < n
            invariant
                n == self.cells@.len(),
                self.width == old(self).width,
                self.height == old(self).height,
                i <= n,
                forall|j: int| 0 <= j < i ==> !#[trigger] self.cells@[j],
            decreases n - i,
        {
            self.cells.set(i, false);
            i += 1;
        }
        proof {
            assert(self@.cells =~= old(self)@.cleared().cells);
        }
    }

    /// The next generation, as a new board of the same size: every cell
    /// follows the rule, reading only this board, which is left unchanged.
    pub fn next_generation(&self) -> (r: Board)
        requires
            self.wf(),
        ensures
            r.wf(),
            r@ == self@.step(),
            forall|x: int, y: int|
                self@.in_bounds(x, y) ==> #[trigger] r@.alive(x, y) == rule(
                    self@.alive(x, y),
                    self@.neighbors(x, y),
                ),
    {
        let ghost g = self@;
        proof {
            assert(self.cells@.len() == self.cells.len());
        }
        let mut next: Board = Board::new(self.width, self.height);
        let mut x: i32 = 0;
        while x < self.width
            invariant
                self.wf(),
                g == self@,
                next.wf(),
                next@.width == g.width,
                next@.height == g.height,
                0 <= x <= g.width,
                forall|i: int, j: int|
                    0 <= i < x && 0 <= j < g.height ==> #[trigger] next@.alive(i, j) == rule(
                        g.alive(i, j),
                        g.neighbors(i, j),
                    ),
            decreases g.width - x,
        {
            let mut y: i32 = 0;
            while y < self.height
                invariant
                    self.wf(),
                    g == self@,
                    next.wf(),
                    next@.width == g.width,
                    next@.height == g.height,
                    0 <= x < g.width,
                    0 <= y <= g.height,
                    forall|i: int, j: int|
                        (0 <= i < x && 0 <= j < g.height) || (i == x && 0 <= j < y)
                            ==> #[trigger] next@.alive(i, j) == rule(
                            g.alive(i, j),
                            g.neighbors(i, j),
                        ),
                decreases g.height - y,
            {
                let neighbors: i32 = self.count_neighbors(x, y);
                let cell: bool = self.get_cell(x, y);
                let alive: bool = match (cell, neighbors) {
                    (true, 2) | (true, 3) => true,
                    (false, 3) => true,
                    _ => false,
                };
                let ghost before = next@;
                next.set_cell(x, y, alive);
                proof {
                    assert forall|i: int, j: int| next@.in_bounds(i, j) && (i != x || j != y)
                        implies #[trigger] next@.alive(i, j) == before.alive(i, j) by {
                        lemma_index_coords(before, i, j);
                        lemma_index_coords(before, x as int, y as int);
                    }
                    lemma_index_coords(before, x as int, y as int);
                }
                y += 1;
            }
            x += 1;
        }
        proof {
            assert forall|i: int, j: int| next@.in_bounds(i, j) implies next@.alive(i, j)
                == #[trigger] g.step().alive(i, j) by {
                lemma_step_alive(g, i, j);
            }
            assert(g.step().wf());
            lemma_grid_ext(next@, g.step());
        }
        next
    }

    /// The number of live cells around `(x, y)`, positions off the board
    /// counting as dead.
    fn count_neighbors(&self, x: i32, y: i32) -> (r: i32)
        requires
            self.wf(),
            self@.in_bounds(x as int, y as int),
        ensures
            r == self@.neighbors(x as int, y as int),
    {
        let ghost g = self@;
        let mut count: i32 = 0;
        let mut dx: i32 = -1;
        while dx <= 1
            invariant
                self.wf(),
                g == self@,
                g.in_bounds(x as int, y as int),
                -1 <= dx <= 2,
                count == window_count(g, x as int, y as int, (3 * (dx + 1)) as nat),
                0 <= count <= 3 * (dx + 1),
            decreases 2 - dx,
        {
            let mut dy: i32 = -1;
            while dy <= 1
                invariant
                    self.wf(),
                    g == self@,
                    g.in_bounds(x as int, y as int),
                    -1 <= dx <= 1,
                    -1 <= dy <= 2,
                    count == window_count(g, x as int, y as int, (3 * (dx + 1) + dy + 1) as nat),
                    0 <= count <= 3 * (dx + 1) + dy + 1,
                decreases 2 - dy,
            {
                let ghost j = 3 * (dx + 1) + dy + 1;
                proof {
                    lemma_fundamental_div_mod_converse(j, 3, dx + 1, dy + 1);
                    assert(window_count(g, x as int, y as int, (j + 1) as nat) == count + if j
                        == 4 {
                        0
                    } else {
                        g.live(x + dx, y + dy)
                    });
                }
                if !(dx == 0 && dy == 0) {
                    let nx: i32 = x + dx;
                    let ny: i32 = y + dy;
                    if nx >= 0 && nx < self.width && ny >= 0 && ny < self.height {
                        if self.get_cell(nx, ny) {
                            count += 1;
                        }
                    }
                }
                dy += 1;
            }
            dx += 1;
        }
        proof {
            lemma_window_complete(g, x as int, y as int);
        }
        count
    }
}

} // verus!
