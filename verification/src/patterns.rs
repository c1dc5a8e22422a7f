//! The shapes that can be drawn on a board, each given by the offsets of its
//! live cells from an anchor.

use crate::grid::Grid;
use vstd::math::abs;
use vstd::prelude::*;

verus! {

/// Whether the offset lies in the three by three square that a glider takes up.
pub open spec fn in_glider_box(dr: int, dc: int) -> bool {
    -1 <= dr <= 1 && -1 <= dc <= 1
}

/// Whether the glider has a live cell at the offset: one in its top row, in
/// the middle; one in its middle row, on the right; and all of its bottom row.
pub open spec fn glider_cell(dr: int, dc: int) -> bool {
    ||| dr == -1 && dc == 0
    ||| dr == 0 && dc == 1
    ||| dr == 1 && -1 <= dc <= 1
}

/// A bar of the pulsar: three cells in a line, two to four steps from one axis
/// and one or six steps from the other.
pub open spec fn pulsar_bar(across: int, along: int) -> bool {
    (across == 1 || across == 6) && 2 <= along <= 4
}

/// Whether the pulsar has a live cell at the offset. The shape is the same in
/// all four quadrants around the anchor: four bars of three cells in each.
pub open spec fn pulsar_cell(dr: int, dc: int) -> bool {
    pulsar_bar(abs(dr) as int, abs(dc) as int) || pulsar_bar(abs(dc) as int, abs(dr) as int)
}

impl Grid {
    /// The board with a glider drawn around `(row, col)`: inside the glider's
    /// square only the glider lives, outside it nothing changes.
    pub open spec fn with_glider(self, row: int, col: int) -> Grid {
        Grid::from_fn(
            self.width,
            self.height,
            |r: int, c: int|
                if in_glider_box(r - row, c - col) {
                    glider_cell(r - row, c - col)
                } else {
                    self.alive(r, c)
                },
        )
    }

    /// The board with a pulsar drawn around `(row, col)`: the pulsar's cells
    /// live, and nothing else changes.
    pub open spec fn with_pulsar(self, row: int, col: int) -> Grid {
        Grid::from_fn(
            self.width,
            self.height,
            |r: int, c: int| self.alive(r, c) || pulsar_cell(r - row, c - col),
        )
    }

    /// What `with_glider` leaves at each position.
    pub proof fn lemma_with_glider(self, row: int, col: int)
        ensures
            self.with_glider(row, col).wf(),
            self.with_glider(row, col).width == self.width,
            self.with_glider(row, col).height == self.height,
            forall|r: int, c: int|
                self.in_bounds(r, c) ==> #[trigger] self.with_glider(row, col).alive(r, c)
                    == if in_glider_box(r - row, c - col) {
                    glider_cell(r - row, c - col)
                } else {
                    self.alive(r, c)
                },
    {
        Grid::lemma_from_fn(
            self.width,
            self.height,
            |r: int, c: int|
                if in_glider_box(r - row, c - col) {
                    glider_cell(r - row, c - col)
                } else {
                    self.alive(r, c)
                },
        );
    }

    /// What `with_pulsar` leaves at each position.
    pub proof fn lemma_with_pulsar(self, row: int, col: int)
        ensures
            self.with_pulsar(row, col).wf(),
            self.with_pulsar(row, col).width == self.width,
            self.with_pulsar(row, col).height == self.height,
            forall|r: int, c: int|
                self.in_bounds(r, c) ==> #[trigger] self.with_pulsar(row, col).alive(r, c) == (
                self.alive(r, c) || pulsar_cell(r - row, c - col)),
    {
        Grid::lemma_from_fn(
            self.width,
            self.height,
            |r: int, c: int| self.alive(r, c) || pulsar_cell(r - row, c - col),
        );
    }
}

} // verus!
