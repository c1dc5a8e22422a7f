//! The mathematical model of the board: a torus of cells in row-major order,
//! and the rule that takes one generation to the next.

use vstd::arithmetic::div_mod::{
    lemma_fundamental_div_mod, lemma_fundamental_div_mod_converse, lemma_mod_add_multiples_vanish,
    lemma_small_mod,
};
use vstd::prelude::*;

verus! {

/// A board of `width * height` cells. Cell `(row, col)` is `cells[row * width + col]`,
/// `true` when it is alive.
pub struct Grid {
    pub width: nat,
    pub height: nat,
    pub cells: Seq<bool>,
}

/// 1 for a live cell, 0 for a dead one.
pub open spec fn population(alive: bool) -> int {
    if alive {
        1
    } else {
        0
    }
}

/// The coordinate `delta` steps after `x` on a ring of `n` positions.
pub open spec fn wrap(x: int, delta: int, n: nat) -> int {
    (x + delta) % (n as int)
}

/// The rule B3/S23: a live cell survives with two or three live neighbours, a
/// dead cell comes alive with exactly three.
pub open spec fn rule(alive: bool, live_neighbors: int) -> bool {
    if alive {
        live_neighbors == 2 || live_neighbors == 3
    } else {
        live_neighbors == 3
    }
}

impl Grid {
    /// There is exactly one cell for each position.
    pub open spec fn wf(self) -> bool {
        self.cells.len() == self.width * self.height
    }

    pub open spec fn in_bounds(self, row: int, col: int) -> bool {
        0 <= row < self.height && 0 <= col < self.width
    }

    /// Where cell `(row, col)` lies in `cells`.
    pub open spec fn index(self, row: int, col: int) -> int {
        row * self.width + col
    }

    pub open spec fn alive(self, row: int, col: int) -> bool {
        self.cells[self.index(row, col)]
    }

    /// The row above `row`; the row above the first is the last.
    pub open spec fn north(self, row: int) -> int {
        wrap(row, self.height - 1, self.height)
    }

    /// The row below `row`; the row below the last is the first.
    pub open spec fn south(self, row: int) -> int {
        wrap(row, 1, self.height)
    }

    /// The column left of `col`; left of the first is the last.
    pub open spec fn west(self, col: int) -> int {
        wrap(col, self.width - 1, self.width)
    }

    /// The column right of `col`; right of the last is the first.
    pub open spec fn east(self, col: int) -> int {
        wrap(col, 1, self.width)
    }

    /// How many of the eight cells around `(row, col)` are alive. On a board of
    /// one row or one column a cell is its own neighbour across the edge, and
    /// is counted as such.
    pub open spec fn live_neighbors(self, row: int, col: int) -> int {
        let (n, s) = (self.north(row), self.south(row));
        let (w, e) = (self.west(col), self.east(col));
        population(self.alive(n, w)) + population(self.alive(n, col)) + population(
            self.alive(n, e),
        ) + population(self.alive(row, w)) + population(self.alive(row, e)) + population(
            self.alive(s, w),
        ) + population(self.alive(s, col)) + population(self.alive(s, e))
    }

    /// Whether cell `(row, col)` is alive in the next generation.
    pub open spec fn next_alive(self, row: int, col: int) -> bool {
        rule(self.alive(row, col), self.live_neighbors(row, col))
    }

    /// The board of the given size whose cell `(row, col)` is `cell(row, col)`.
    pub open spec fn from_fn(width: nat, height: nat, cell: spec_fn(int, int) -> bool) -> Grid {
        Grid {
            width,
            height,
            cells: Seq::new(width * height, |i: int| cell(i / (width as int), i % (width as int))),
        }
    }

    /// The next generation.
    pub open spec fn step(self) -> Grid {
        Grid::from_fn(self.width, self.height, |row: int, col: int| self.next_alive(row, col))
    }

    /// The board after `n` generations.
    pub open spec fn steps(self, n: nat) -> Grid
        decreases n,
    {
        if n == 0 {
            self
        } else {
            self.step().steps((n - 1) as nat)
        }
    }

    /// A board on which nothing lives.
    pub open spec fn dead(width: nat, height: nat) -> Grid {
        Grid { width, height, cells: Seq::new(width * height, |i: int| false) }
    }

    /// Whether nothing lives on the board.
    pub open spec fn is_dead(self) -> bool {
        forall|i: int| 0 <= i < self.cells.len() ==> !self.cells[i]
    }

    /// The same board with other cells.
    pub open spec fn with_cells(self, cells: Seq<bool>) -> Grid {
        Grid { width: self.width, height: self.height, cells }
    }

    /// The board with cell `(row, col)` set to `alive`.
    pub open spec fn put(self, row: int, col: int, alive: bool) -> Grid {
        self.with_cells(self.cells.update(self.index(row, col), alive))
    }

    /// The board with cell `(row, col)` flipped.
    pub open spec fn toggle(self, row: int, col: int) -> Grid {
        self.put(row, col, !self.alive(row, col))
    }

    /// The board with each position that `coords` lists set to `alive`.
    pub open spec fn with_all(self, coords: Seq<(u32, u32)>, alive: bool) -> Grid {
        Grid::from_fn(
            self.width,
            self.height,
            |row: int, col: int|
                if listed(coords, row, col) {
                    alive
                } else {
                    self.alive(row, col)
                },
        )
    }

    /// Every position that `coords` lists is on the board.
    pub open spec fn holds_all(self, coords: Seq<(u32, u32)>) -> bool {
        forall|k: int|
            0 <= k < coords.len() ==> self.in_bounds(
                (#[trigger] coords[k]).0 as int,
                coords[k].1 as int,
            )
    }
}

/// Whether `coords` lists the position `(row, col)`.
pub open spec fn listed(coords: Seq<(u32, u32)>, row: int, col: int) -> bool {
    exists|k: int| 0 <= k < coords.len() && (#[trigger] coords[k]).0 == row && coords[k].1 == col
}

/// On a ring of `n` positions, one step back from the first position is the
/// last, and one step on from the last is the first.
pub proof fn lemma_wrap(x: int, n: nat)
    requires
        0 <= x < n,
    ensures
        wrap(x, 0, n) == x,
        wrap(x, n - 1, n) == if x == 0 {
            n - 1
        } else {
            x - 1
        },
        wrap(x, 1, n) == if x + 1 == n {
            0
        } else {
            x + 1
        },
{
    lemma_small_mod(x as nat, n);
    if x == 0 {
        lemma_small_mod((n - 1) as nat, n);
    } else {
        lemma_small_mod((x - 1) as nat, n);
        lemma_mod_add_multiples_vanish(x - 1, n as int);
    }
    if x + 1 == n {
        lemma_mod_add_multiples_vanish(0, n as int);
        lemma_small_mod(0, n);
    } else {
        lemma_small_mod((x + 1) as nat, n);
    }
}

/// A position on the board has its place among the `width * height` cells.
pub proof fn lemma_index_in_range(width: nat, height: nat, row: int, col: int)
    requires
        0 <= row < height,
        0 <= col < width,
    ensures
        0 <= row * width + col < width * height,
{
    assert(row * width + col < width * height) by (nonlinear_arith)
        requires
            0 <= row < height,
            0 <= col < width,
    ;
    assert(0 <= row * width) by (nonlinear_arith)
        requires
            0 <= row,
    ;
}

/// Each place among the cells belongs to one position on the board: row
/// `i / width`, column `i % width`.
pub proof fn lemma_index_split(width: nat, height: nat, i: int)
    requires
        0 <= i < width * height,
    ensures
        0 <= i / (width as int) < height,
        0 <= i % (width as int) < width,
        (i / (width as int)) * width + i % (width as int) == i,
{
    let w = width as int;
    assert(w > 0) by (nonlinear_arith)
        requires
            0 <= i < w * height,
            w >= 0,
    ;
    lemma_fundamental_div_mod(i, w);
    let q = i / w;
    let r = i % w;
    assert(0 <= r < w);
    assert(q * w == w * q) by (nonlinear_arith);
    assert(0 <= q < height) by (nonlinear_arith)
        requires
            i == q * w + r,
            0 <= r < w,
            0 <= i < w * height,
    ;
}

/// Row and column can be read back from the place of a position.
pub proof fn lemma_index_unique(width: nat, row: int, col: int)
    requires
        0 <= col < width,
    ensures
        (row * width + col) / (width as int) == row,
        (row * width + col) % (width as int) == col,
{
    lemma_fundamental_div_mod_converse(row * width + col, width as int, row, col);
}

impl Grid {
    /// The neighbouring rows and columns of a position are on the board.
    pub proof fn lemma_neighbors_in_bounds(self, row: int, col: int)
        requires
            self.in_bounds(row, col),
        ensures
            0 <= self.north(row) < self.height,
            0 <= self.south(row) < self.height,
            0 <= self.west(col) < self.width,
            0 <= self.east(col) < self.width,
    {
        lemma_wrap(row, self.height);
        lemma_wrap(col, self.width);
    }

    /// Two boards of one size are the same board when they agree at every
    /// position.
    pub proof fn lemma_equal_by_positions(self, other: Grid)
        requires
            self.wf(),
            other.wf(),
            self.width == other.width,
            self.height == other.height,
            forall|row: int, col: int|
                self.in_bounds(row, col) ==> self.alive(row, col) == other.alive(row, col),
        ensures
            self == other,
    {
        assert forall|i: int| 0 <= i < self.cells.len() implies self.cells[i] == other.cells[i] by {
            lemma_index_split(self.width, self.height, i);
            let row = i / (self.width as int);
            let col = i % (self.width as int);
            assert(self.in_bounds(row, col));
            assert(self.alive(row, col) == other.alive(row, col));
        }
        assert(self.cells =~= other.cells);
    }

    /// A board made by `from_fn` has one cell for each position, and at each
    /// position the cell that it was made with.
    pub proof fn lemma_from_fn(width: nat, height: nat, cell: spec_fn(int, int) -> bool)
        ensures
            Grid::from_fn(width, height, cell).wf(),
            forall|row: int, col: int|
                0 <= row < height && 0 <= col < width ==> #[trigger] Grid::from_fn(
                    width,
                    height,
                    cell,
                ).alive(row, col) == cell(row, col),
    {
        let g = Grid::from_fn(width, height, cell);
        assert forall|row: int, col: int| 0 <= row < height && 0 <= col < width implies g.alive(
            row,
            col,
        ) == cell(row, col) by {
            lemma_index_in_range(width, height, row, col);
            lemma_index_unique(width, row, col);
        }
    }

    /// What `step` leaves at a position is what the rule says of it.
    pub proof fn lemma_step_alive(self, row: int, col: int)
        requires
            self.in_bounds(row, col),
        ensures
            self.step().wf(),
            self.step().alive(row, col) == self.next_alive(row, col),
    {
        Grid::lemma_from_fn(
            self.width,
            self.height,
            |row: int, col: int| self.next_alive(row, col),
        );
    }

    /// With nothing listed the board stays as it is.
    pub proof fn lemma_with_none(self, alive: bool)
        requires
            self.wf(),
        ensures
            self.with_all(Seq::empty(), alive) == self,
    {
        let coords = Seq::<(u32, u32)>::empty();
        let g = self.with_all(coords, alive);
        Grid::lemma_from_fn(
            self.width,
            self.height,
            |row: int, col: int|
                if listed(coords, row, col) {
                    alive
                } else {
                    self.alive(row, col)
                },
        );
        g.lemma_equal_by_positions(self);
    }

    /// Listing one more position sets one more cell.
    pub proof fn lemma_with_one_more(self, coords: Seq<(u32, u32)>, k: int, alive: bool)
        requires
            self.wf(),
            0 <= k < coords.len(),
            self.in_bounds(coords[k].0 as int, coords[k].1 as int),
        ensures
            self.with_all(coords.take(k + 1), alive) == self.with_all(coords.take(k), alive).put(
                coords[k].0 as int,
                coords[k].1 as int,
                alive,
            ),
    {
        let before = coords.take(k);
        let after = coords.take(k + 1);
        let (r, c) = (coords[k].0 as int, coords[k].1 as int);
        let g0 = self.with_all(before, alive);
        let g1 = self.with_all(after, alive);
        let g2 = g0.put(r, c, alive);
        Grid::lemma_from_fn(
            self.width,
            self.height,
            |row: int, col: int|
                if listed(before, row, col) {
                    alive
                } else {
                    self.alive(row, col)
                },
        );
        Grid::lemma_from_fn(
            self.width,
            self.height,
            |row: int, col: int|
                if listed(after, row, col) {
                    alive
                } else {
                    self.alive(row, col)
                },
        );
        lemma_index_in_range(self.width, self.height, r, c);
        lemma_index_unique(self.width, r, c);
        assert forall|row: int, col: int| g1.in_bounds(row, col) implies g1.alive(row, col)
            == g2.alive(row, col) by {
            lemma_index_in_range(self.width, self.height, row, col);
            lemma_index_unique(self.width, row, col);
            if listed(after, row, col) {
                let j = choose|j: int|
                    0 <= j < after.len() && (#[trigger] after[j]).0 == row && after[j].1 == col;
                if j < k {
                    assert(before[j] == after[j]);
                }
            }
            if listed(before, row, col) {
                let j = choose|j: int|
                    0 <= j < before.len() && (#[trigger] before[j]).0 == row && before[j].1 == col;
                assert(after[j] == before[j]);
            }
            if row == r && col == c {
                assert(after[k] == coords[k]);
            }
        }
        g1.lemma_equal_by_positions(g2);
    }

    /// What `with_all` leaves at a position.
    pub proof fn lemma_with_all_alive(self, coords: Seq<(u32, u32)>, alive: bool)
        ensures
            self.with_all(coords, alive).wf(),
            forall|row: int, col: int|
                self.in_bounds(row, col) ==> #[trigger] self.with_all(coords, alive).alive(row, col)
                    == if listed(coords, row, col) {
                    alive
                } else {
                    self.alive(row, col)
                },
    {
        Grid::lemma_from_fn(
            self.width,
            self.height,
            |row: int, col: int|
                if listed(coords, row, col) {
                    alive
                } else {
                    self.alive(row, col)
                },
        );
    }
}

} // verus!
