//! The board as it is stored: two dimensions and a bit set of cells.

use crate::bitset::{bit_at, bits, clear_all, packed};
use crate::grid::{lemma_index_in_range, lemma_index_unique, listed, rule, wrap, Grid};
use fixedbitset::FixedBitSet;
use vstd::prelude::*;

verus! {

/// A Game of Life board on a torus.
pub struct Universe {
    width: u32,
    height: u32,
    cells: FixedBitSet,
}

impl View for Universe {
    type V = Grid;

    closed spec fn view(&self) -> Grid {
        Grid { width: self.width as nat, height: self.height as nat, cells: bits(self.cells) }
    }
}

impl Universe {
    /// The bit set holds one bit for each position, and both dimensions and
    /// the number of cells fit the machine.
    pub open spec fn wf(&self) -> bool {
        &&& self@.wf()
        &&& self@.width <= u32::MAX
        &&& self@.height <= u32::MAX
        &&& self@.cells.len() <= usize::MAX
    }

    /// A board of `w` columns and `h` rows whose cells are those of `seed`, one
    /// for each position in row-major order.
    pub fn new(w: u32, h: u32, seed: &[bool]) -> (universe: Universe)
        requires
            seed@.len() == w * h,
        ensures
            universe.wf(),
            universe@ == (Grid { width: w as nat, height: h as nat, cells: seed@ }),
    {
        let size = seed.len();
        let mut cells = FixedBitSet::with_capacity(size);
        for i in 0..size
            invariant
                size == seed@.len(),
                bits(cells).len() == size,
                forall|j: int| 0 <= j < i ==> bits(cells)[j] == seed@[j],
        {
            cells.set(i, seed[i]);
        }
        assert(bits(cells) =~= seed@);
        Universe { width: w, height: h, cells }
    }

    /// Replaces every cell by that of `seed`; the dimensions stay.
    pub fn reset(&mut self, seed: &[bool])
        requires
            old(self).wf(),
            seed@.len() == old(self)@.cells.len(),
        ensures
            final(self).wf(),
            final(self)@ == old(self)@.with_cells(seed@),
    {
        let size = seed.len();
        for i in 0..size
            invariant
                size == seed@.len(),
                bits(self.cells).len() == size,
                self.width == old(self).width,
                self.height == old(self).height,
                forall|j: int| 0 <= j < i ==> bits(self.cells)[j] == seed@[j],
        {
            self.cells.set(i, seed[i]);
        }
        assert(bits(self.cells) =~= seed@);
    }

    /// Kills every cell.
    pub fn kill_universe(&mut self)
        requires
            old(self).wf(),
        ensures
            final(self).wf(),
            final(self)@ == Grid::dead(old(self)@.width, old(self)@.height),
    {
        clear_all(&mut self.cells);
    }

    pub fn width(&self) -> (width: u32)
        ensures
            width == self@.width,
    {
        self.width
    }

    pub fn height(&self) -> (height: u32)
        ensures
            height == self@.height,
    {
        self.height
    }

    /// Where the cell at `(row, column)` lies among the cells.
    pub fn get_index(&self, row: u32, column: u32) -> (index: usize)
        requires
            self.wf(),
            self@.in_bounds(row as int, column as int),
        ensures
            index == self@.index(row as int, column as int),
            index < self@.cells.len(),
    {
        proof {
            lemma_index_in_range(self@.width, self@.height, row as int, column as int);
        }
        (row as usize) * (self.width as usize) + (column as usize)
    }

    /// Sets the cell at each listed position to `alive`.
    fn put_cells(&mut self, cells: &[(u32, u32)], alive: bool)
        requires
            old(self).wf(),
            old(self)@.holds_all(cells@),
        ensures
            final(self).wf(),
            final(self)@ == old(self)@.with_all(cells@, alive),
    {
        let count = cells.len();
        proof {
            old(self)@.lemma_with_none(alive);
            assert(cells@.take(0) =~= Seq::empty());
        }
        for k in 0..count
            invariant
                count == cells@.len(),
                old(self).wf(),
                old(self)@.holds_all(cells@),
                self.wf(),
                self@ == old(self)@.with_all(cells@.take(k as int), alive),
        {
            let (row, col) = cells[k];
            let idx = self.get_index(row, col);
            self.cells.set(idx, alive);
            proof {
                old(self)@.lemma_with_one_more(cells@, k as int, alive);
            }
        }
        assert(cells@.take(count as int) =~= cells@);
    }

    /// Brings the cell at each listed position to life.
    pub fn set_cells(&mut self, cells: &[(u32, u32)])
        requires
            old(self).wf(),
            old(self)@.holds_all(cells@),
        ensures
            final(self).wf(),
            final(self)@ == old(self)@.with_all(cells@, true),
    {
        self.put_cells(cells, true);
    }

    /// Kills the cell at each listed position.
    pub fn unset_cells(&mut self, cells: &[(u32, u32)])
        requires
            old(self).wf(),
            old(self)@.holds_all(cells@),
        ensures
            final(self).wf(),
            final(self)@ == old(self)@.with_all(cells@, false),
    {
        self.put_cells(cells, false);
    }

    /// Draws a glider around `(row, column)`, which heads down and to the
    /// right. The glider's square of three by three cells has to lie on the
    /// board.
    pub fn create_glider(&mut self, row: u32, column: u32)
        requires
            old(self).wf(),
            1 <= row,
            row + 1 < old(self)@.height,
            1 <= column,
            column + 1 < old(self)@.width,
        ensures
            final(self).wf(),
            final(self)@ == old(self)@.with_glider(row as int, column as int),
    {
        let live = [
            (row - 1, column),
            (row, column + 1),
            (row + 1, column - 1),
            (row + 1, column),
            (row + 1, column + 1),
        ];
        let dead = [(row, column), (row - 1, column - 1), (row - 1, column + 1), (row, column - 1)];
        self.set_cells(&live);
        self.unset_cells(&dead);
        proof {
            let before = old(self)@;
            let drawn = before.with_all(live@, true);
            let expected = before.with_glider(row as int, column as int);
            before.lemma_with_all_alive(live@, true);
            drawn.lemma_with_all_alive(dead@, false);
            before.lemma_with_glider(row as int, column as int);
            assert forall|r: int, c: int| expected.in_bounds(r, c) implies self@.alive(r, c)
                == expected.alive(r, c) by {
                lemma_listed_five(live@, r, c);
                lemma_listed_four(dead@, r, c);
            }
            self@.lemma_equal_by_positions(expected);
        }
    }

    /// Draws a pulsar around `(row, column)`. The pulsar reaches six cells from
    /// its anchor in each direction, and all of it has to lie on the board.
    pub fn create_pulsar(&mut self, row: u32, column: u32)
        requires
            old(self).wf(),
            6 <= row,
            row + 6 < old(self)@.height,
            6 <= column,
            column + 6 < old(self)@.width,
        ensures
            final(self).wf(),
            final(self)@ == old(self)@.with_pulsar(row as int, column as int),
    {
        let top_left = [
            (row - 1, column - 2),
            (row - 1, column - 3),
            (row - 1, column - 4),
            (row - 2, column - 1),
            (row - 3, column - 1),
            (row - 4, column - 1),
            (row - 6, column - 2),
            (row - 6, column - 3),
            (row - 6, column - 4),
            (row - 2, column - 6),
            (row - 3, column - 6),
            (row - 4, column - 6),
        ];
        let top_right = [
            (row - 1, column + 2),
            (row - 1, column + 3),
            (row - 1, column + 4),
            (row - 2, column + 1),
            (row - 3, column + 1),
            (row - 4, column + 1),
            (row - 6, column + 2),
            (row - 6, column + 3),
            (row - 6, column + 4),
            (row - 2, column + 6),
            (row - 3, column + 6),
            (row - 4, column + 6),
        ];
        let bottom_left = [
            (row + 1, column - 2),
            (row + 1, column - 3),
            (row + 1, column - 4),
            (row + 2, column - 1),
            (row + 3, column - 1),
            (row + 4, column - 1),
            (row + 6, column - 2),
            (row + 6, column - 3),
            (row + 6, column - 4),
            (row + 2, column - 6),
            (row + 3, column - 6),
            (row + 4, column - 6),
        ];
        let bottom_right = [
            (row + 1, column + 2),
            (row + 1, column + 3),
            (row + 1, column + 4),
            (row + 2, column + 1),
            (row + 3, column + 1),
            (row + 4, column + 1),
            (row + 6, column + 2),
            (row + 6, column + 3),
            (row + 6, column + 4),
            (row + 2, column + 6),
            (row + 3, column + 6),
            (row + 4, column + 6),
        ];
        self.set_cells(&top_left);
        self.set_cells(&top_right);
        self.set_cells(&bottom_left);
        self.set_cells(&bottom_right);
        proof {
            let before = old(self)@;
            let first = before.with_all(top_left@, true);
            let second = first.with_all(top_right@, true);
            let third = second.with_all(bottom_left@, true);
            let expected = before.with_pulsar(row as int, column as int);
            before.lemma_with_all_alive(top_left@, true);
            first.lemma_with_all_alive(top_right@, true);
            second.lemma_with_all_alive(bottom_left@, true);
            third.lemma_with_all_alive(bottom_right@, true);
            before.lemma_with_pulsar(row as int, column as int);
            assert forall|r: int, c: int| expected.in_bounds(r, c) implies self@.alive(r, c)
                == expected.alive(r, c) by {
                lemma_listed_twelve(top_left@, r, c);
                lemma_listed_twelve(top_right@, r, c);
                lemma_listed_twelve(bottom_left@, r, c);
                lemma_listed_twelve(bottom_right@, r, c);
            }
            self@.lemma_equal_by_positions(expected);
        }
    }

    /// Changes the number of columns. The board is made anew, with every cell
    /// dead.
    pub fn set_width(&mut self, width: u32)
        requires
            width * old(self)@.height <= usize::MAX,
        ensures
            final(self).wf(),
            final(self)@ == Grid::dead(width as nat, old(self)@.height),
    {
        self.width = width;
        let size = (width as usize) * (self.height as usize);
        self.cells = FixedBitSet::with_capacity(size);
    }

    /// Changes the number of rows. The board is made anew, with every cell
    /// dead.
    pub fn set_height(&mut self, height: u32)
        requires
            old(self)@.width * height <= usize::MAX,
        ensures
            final(self).wf(),
            final(self)@ == Grid::dead(old(self)@.width, height as nat),
    {
        self.height = height;
        let size = (self.width as usize) * (height as usize);
        self.cells = FixedBitSet::with_capacity(size);
    }

    /// The cells as they are stored: packed 32 to a word.
    pub fn cells(&self) -> (words: &[u32])
        ensures
            packed(words@, self@.cells),
    {
        self.cells.as_slice()
    }

    /// The bit set that holds the cells.
    pub fn get_cells(&self) -> (cells: &FixedBitSet)
        ensures
            bits(*cells) == self@.cells,
    {
        &self.cells
    }

    /// Flips the cell at `(row, column)`.
    pub fn toggle_cell(&mut self, row: u32, column: u32)
        requires
            old(self).wf(),
            old(self)@.in_bounds(row as int, column as int),
        ensures
            final(self).wf(),
            final(self)@ == old(self)@.toggle(row as int, column as int),
    {
        let idx = self.get_index(row, column);
        self.cells.toggle(idx);
    }

    /// Whether the cell at `(row, column)` is alive.
    fn is_alive(&self, row: u32, column: u32) -> (alive: bool)
        requires
            self.wf(),
            self@.in_bounds(row as int, column as int),
        ensures
            alive == self@.alive(row as int, column as int),
    {
        let idx = self.get_index(row, column);
        bit_at(&self.cells, idx)
    }

    /// How many of the eight cells around `(row, column)` are alive, on the
    /// torus: the first row lies below the last, and the first column right of
    /// the last.
    pub fn live_neighbor_count(&self, row: u32, column: u32) -> (count: u8)
        requires
            self.wf(),
            self@.in_bounds(row as int, column as int),
        ensures
            count == self@.live_neighbors(row as int, column as int),
            count <= 8,
    {
        proof {
            self@.lemma_neighbors_in_bounds(row as int, column as int);
        }
        let north = wrapped(row, self.height - 1, self.height);
        let south = wrapped(row, 1, self.height);
        let west = wrapped(column, self.width - 1, self.width);
        let east = wrapped(column, 1, self.width);
        let mut count: u8 = 0;
        if self.is_alive(north, west) {
            count += 1;
        }
        if self.is_alive(north, column) {
            count += 1;
        }
        if self.is_alive(north, east) {
            count += 1;
        }
        if self.is_alive(row, west) {
            count += 1;
        }
        if self.is_alive(row, east) {
            count += 1;
        }
        if self.is_alive(south, west) {
            count += 1;
        }
        if self.is_alive(south, column) {
            count += 1;
        }
        if self.is_alive(south, east) {
            count += 1;
        }
        count
    }

    /// Moves the board on by one generation. Every cell of the new generation
    /// is worked out from the old one.
    pub fn tick(&mut self)
        requires
            old(self).wf(),
        ensures
            final(self).wf(),
            final(self)@ == old(self)@.step(),
    {
        let mut next = self.cells.clone();
        let ghost before = self@;
        let ghost target = before.step().cells;
        let ghost mut done: int = 0;
        for row in 0..self.height
            invariant
                self.wf(),
                self@ == before,
                target == before.step().cells,
                bits(next).len() == before.cells.len(),
                done == row * before.width,
                forall|i: int| 0 <= i < done ==> bits(next)[i] == target[i],
        {
            for col in 0..self.width
                invariant
                    self.wf(),
                    self@ == before,
                    target == before.step().cells,
                    row < before.height,
                    bits(next).len() == before.cells.len(),
                    done == row * before.width,
                    forall|i: int| 0 <= i < done + col ==> bits(next)[i] == target[i],
            {
                let idx = self.get_index(row, col);
                let cell = bit_at(&self.cells, idx);
                let live_neighbors = self.live_neighbor_count(row, col);
                next.set(idx, next_state(cell, live_neighbors));
                proof {
                    lemma_index_unique(before.width, row as int, col as int);
                }
            }
            proof {
                assert((row + 1) * before.width == row * before.width + before.width)
                    by (nonlinear_arith);
                done = done + before.width;
            }
        }
        proof {
            assert(before.height * before.width == before.width * before.height)
                by (nonlinear_arith);
            assert(bits(next) =~= target);
        }
        self.cells = next;
    }
}

/// The coordinate `delta` steps after `x` on a ring of `n` positions.
fn wrapped(x: u32, delta: u32, n: u32) -> (position: u32)
    requires
        0 < n,
    ensures
        position == wrap(x as int, delta as int, n as nat),
{
    ((x as u64 + delta as u64) % (n as u64)) as u32
}

/// The state of a cell in the next generation, from its state in this one and
/// the number of its live neighbours.
fn next_state(cell: bool, live_neighbors: u8) -> (next: bool)
    ensures
        next == rule(cell, live_neighbors as int),
{
    if cell {
        live_neighbors == 2 || live_neighbors == 3
    } else {
        live_neighbors == 3
    }
}

/// A list of four positions lists a position when one of the four is it.
proof fn lemma_listed_four(coords: Seq<(u32, u32)>, row: int, col: int)
    requires
        coords.len() == 4,
    ensures
        listed(coords, row, col) <==> {
            ||| is_at(coords[0], row, col)
            ||| is_at(coords[1], row, col)
            ||| is_at(coords[2], row, col)
            ||| is_at(coords[3], row, col)
        },
{
}

/// A list of five positions lists a position when one of the five is it.
proof fn lemma_listed_five(coords: Seq<(u32, u32)>, row: int, col: int)
    requires
        coords.len() == 5,
    ensures
        listed(coords, row, col) <==> {
            ||| is_at(coords[0], row, col)
            ||| is_at(coords[1], row, col)
            ||| is_at(coords[2], row, col)
            ||| is_at(coords[3], row, col)
            ||| is_at(coords[4], row, col)
        },
{
}

/// A list of twelve positions lists a position when one of the twelve is it.
proof fn lemma_listed_twelve(coords: Seq<(u32, u32)>, row: int, col: int)
    requires
        coords.len() == 12,
    ensures
        listed(coords, row, col) <==> {
            ||| is_at(coords[0], row, col)
            ||| is_at(coords[1], row, col)
            ||| is_at(coords[2], row, col)
            ||| is_at(coords[3], row, col)
            ||| is_at(coords[4], row, col)
            ||| is_at(coords[5], row, col)
            ||| is_at(coords[6], row, col)
            ||| is_at(coords[7], row, col)
            ||| is_at(coords[8], row, col)
            ||| is_at(coords[9], row, col)
            ||| is_at(coords[10], row, col)
            ||| is_at(coords[11], row, col)
        },
{
}

spec fn is_at(position: (u32, u32), row: int, col: int) -> bool {
    position.0 == row && position.1 == col
}

} // verus!
