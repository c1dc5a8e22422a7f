//! What holds of the game on every board.

use crate::grid::{lemma_index_in_range, lemma_wrap, Grid};
use crate::patterns::glider_cell;
use crate::universe::Universe;
use vstd::prelude::*;

verus! {

/// The next generation depends on the cells alone: where two boards hold the
/// same cells, what `tick` leaves of the one holds the same cells as what it
/// leaves of the other, however often it is worked out.
pub proof fn lemma_tick_is_deterministic(
    first: Universe,
    second: Universe,
    after_first: Universe,
    after_second: Universe,
)
    requires
        first@ == second@,
        after_first@ == first@.step(),
        after_second@ == second@.step(),
    ensures
        after_first@ == after_second@,
{
}

/// The board is a torus: the cell in the last row and last column is a
/// neighbour of the cell in the first row and first column, so when it lives
/// the first cell counts it.
pub proof fn lemma_corners_touch(grid: Grid)
    requires
        grid.wf(),
        grid.width > 0,
        grid.height > 0,
        grid.alive(grid.height - 1, grid.width - 1),
    ensures
        grid.north(0) == grid.height - 1,
        grid.west(0) == grid.width - 1,
        grid.live_neighbors(0, 0) >= 1,
{
    lemma_wrap(0, grid.height);
    lemma_wrap(0, grid.width);
}

/// Nothing is born from nothing: a board without a live cell stays as it is
/// through any number of generations.
pub proof fn lemma_dead_stays_dead(grid: Grid, generations: nat)
    requires
        grid.wf(),
        grid.is_dead(),
    ensures
        grid.steps(generations) == grid,
    decreases generations,
{
    if generations > 0 {
        let next = grid.step();
        assert forall|row: int, col: int| grid.in_bounds(row, col) implies next.alive(row, col)
            == grid.alive(row, col) by {
            grid.lemma_step_alive(row, col);
            grid.lemma_neighbors_in_bounds(row, col);
            let (n, s) = (grid.north(row), grid.south(row));
            let (w, e) = (grid.west(col), grid.east(col));
            lemma_index_in_range(grid.width, grid.height, row, col);
            lemma_index_in_range(grid.width, grid.height, n, w);
            lemma_index_in_range(grid.width, grid.height, n, col);
            lemma_index_in_range(grid.width, grid.height, n, e);
            lemma_index_in_range(grid.width, grid.height, row, w);
            lemma_index_in_range(grid.width, grid.height, row, e);
            lemma_index_in_range(grid.width, grid.height, s, w);
            lemma_index_in_range(grid.width, grid.height, s, col);
            lemma_index_in_range(grid.width, grid.height, s, e);
        }
        Grid::lemma_from_fn(
            grid.width,
            grid.height,
            |row: int, col: int| grid.next_alive(row, col),
        );
        next.lemma_equal_by_positions(grid);
        lemma_dead_stays_dead(grid, (generations - 1) as nat);
    }
}

/// Flipping a cell twice leaves the board as it was.
pub proof fn lemma_toggle_twice(grid: Grid, row: int, col: int)
    requires
        grid.wf(),
        grid.in_bounds(row, col),
    ensures
        grid.toggle(row, col).toggle(row, col) == grid,
{
    lemma_index_in_range(grid.width, grid.height, row, col);
    assert(grid.toggle(row, col).toggle(row, col).cells =~= grid.cells);
}

/// Whether the block, a square of two by two cells, has a cell at the offset
/// from its top left corner.
pub open spec fn block_cell(dr: int, dc: int) -> bool {
    0 <= dr <= 1 && 0 <= dc <= 1
}

/// Whether a block with its top left corner at `(row, col)` is all that lives
/// on the board.
pub open spec fn holds_only_block(grid: Grid, row: int, col: int) -> bool {
    forall|r: int, c: int|
        grid.in_bounds(r, c) ==> #[trigger] grid.alive(r, c) == block_cell(r - row, c - col)
}

/// The block is a still life: where it is all that lives, a generation changes
/// nothing. The board has at least three rows and three columns, so that the
/// block is surrounded by dead cells; on two rows or columns it would be its
/// own neighbour across the edge.
pub proof fn lemma_block_is_still(grid: Grid, row: int, col: int)
    requires
        grid.wf(),
        grid.height >= 3,
        grid.width >= 3,
        0 <= row,
        row + 1 < grid.height,
        0 <= col,
        col + 1 < grid.width,
        holds_only_block(grid, row, col),
    ensures
        grid.step() == grid,
{
    let next = grid.step();
    assert forall|r: int, c: int| grid.in_bounds(r, c) implies next.alive(r, c) == grid.alive(
        r,
        c,
    ) by {
        grid.lemma_step_alive(r, c);
        grid.lemma_neighbors_in_bounds(r, c);
        lemma_wrap(r, grid.height);
        lemma_wrap(c, grid.width);
    }
    Grid::lemma_from_fn(grid.width, grid.height, |r: int, c: int| grid.next_alive(r, c));
    next.lemma_equal_by_positions(grid);
}

/// The glider one generation after it was drawn, by offsets from its anchor.
pub open spec fn glider_after_one(dr: int, dc: int) -> bool {
    ||| dr == 0 && (dc == -1 || dc == 1)
    ||| dr == 1 && (dc == 0 || dc == 1)
    ||| dr == 2 && dc == 0
}

/// The glider two generations after it was drawn.
pub open spec fn glider_after_two(dr: int, dc: int) -> bool {
    ||| dr == 0 && dc == 1
    ||| dr == 1 && (dc == -1 || dc == 1)
    ||| dr == 2 && (dc == 0 || dc == 1)
}

/// The glider three generations after it was drawn.
pub open spec fn glider_after_three(dr: int, dc: int) -> bool {
    ||| dr == 0 && dc == 0
    ||| dr == 1 && (dc == 1 || dc == 2)
    ||| dr == 2 && (dc == 0 || dc == 1)
}

/// Whether the live cells of the board are those of `shape`, taken as offsets
/// from `(row, col)`.
pub open spec fn shows(grid: Grid, shape: spec_fn(int, int) -> bool, row: int, col: int) -> bool {
    forall|r: int, c: int|
        grid.in_bounds(r, c) ==> #[trigger] grid.alive(r, c) == shape(r - row, c - col)
}

/// Room for a glider drawn around `(row, col)` to take four generations
/// without meeting itself across the edges of the board.
pub open spec fn has_room_for_glider(grid: Grid, row: int, col: int) -> bool {
    &&& grid.height >= 5
    &&& grid.width >= 5
    &&& 1 <= row
    &&& row + 2 < grid.height
    &&& 1 <= col
    &&& col + 2 < grid.width
}

/// One generation of a board whose live cells are those of `now` leaves those
/// of `then`, where the rule says so at every position.
proof fn lemma_shape_steps(
    grid: Grid,
    now: spec_fn(int, int) -> bool,
    then: spec_fn(int, int) -> bool,
    row: int,
    col: int,
    then_row: int,
    then_col: int,
)
    requires
        grid.wf(),
        shows(grid, now, row, col),
        forall|r: int, c: int|
            grid.in_bounds(r, c) ==> #[trigger] grid.next_alive(r, c) == then(
                r - then_row,
                c - then_col,
            ),
    ensures
        grid.step().wf(),
        grid.step().width == grid.width,
        grid.step().height == grid.height,
        shows(grid.step(), then, then_row, then_col),
{
    assert forall|r: int, c: int| grid.in_bounds(r, c) implies #[trigger] grid.step().alive(r, c)
        == then(r - then_row, c - then_col) by {
        grid.lemma_step_alive(r, c);
    }
    Grid::lemma_from_fn(grid.width, grid.height, |r: int, c: int| grid.next_alive(r, c));
}

/// The first generation of a glider.
proof fn lemma_glider_first_step(grid: Grid, row: int, col: int)
    requires
        grid.wf(),
        has_room_for_glider(grid, row, col),
        shows(grid, |dr: int, dc: int| glider_cell(dr, dc), row, col),
    ensures
        grid.step().wf(),
        grid.step().width == grid.width,
        grid.step().height == grid.height,
        shows(grid.step(), |dr: int, dc: int| glider_after_one(dr, dc), row, col),
{
    assert forall|r: int, c: int| grid.in_bounds(r, c) implies #[trigger] grid.next_alive(r, c)
        == glider_after_one(r - row, c - col) by {
        grid.lemma_neighbors_in_bounds(r, c);
        lemma_wrap(r, grid.height);
        lemma_wrap(c, grid.width);
    }
    lemma_shape_steps(
        grid,
        |dr: int, dc: int| glider_cell(dr, dc),
        |dr: int, dc: int| glider_after_one(dr, dc),
        row,
        col,
        row,
        col,
    );
}

/// The second generation of a glider.
proof fn lemma_glider_second_step(grid: Grid, row: int, col: int)
    requires
        grid.wf(),
        has_room_for_glider(grid, row, col),
        shows(grid, |dr: int, dc: int| glider_after_one(dr, dc), row, col),
    ensures
        grid.step().wf(),
        grid.step().width == grid.width,
        grid.step().height == grid.height,
        shows(grid.step(), |dr: int, dc: int| glider_after_two(dr, dc), row, col),
{
    assert forall|r: int, c: int| grid.in_bounds(r, c) implies #[trigger] grid.next_alive(r, c)
        == glider_after_two(r - row, c - col) by {
        grid.lemma_neighbors_in_bounds(r, c);
        lemma_wrap(r, grid.height);
        lemma_wrap(c, grid.width);
    }
    lemma_shape_steps(
        grid,
        |dr: int, dc: int| glider_after_one(dr, dc),
        |dr: int, dc: int| glider_after_two(dr, dc),
        row,
        col,
        row,
        col,
    );
}

/// The third generation of a glider.
proof fn lemma_glider_third_step(grid: Grid, row: int, col: int)
    requires
        grid.wf(),
        has_room_for_glider(grid, row, col),
        shows(grid, |dr: int, dc: int| glider_after_two(dr, dc), row, col),
    ensures
        grid.step().wf(),
        grid.step().width == grid.width,
        grid.step().height == grid.height,
        shows(grid.step(), |dr: int, dc: int| glider_after_three(dr, dc), row, col),
{
    assert forall|r: int, c: int| grid.in_bounds(r, c) implies #[trigger] grid.next_alive(r, c)
        == glider_after_three(r - row, c - col) by {
        grid.lemma_neighbors_in_bounds(r, c);
        lemma_wrap(r, grid.height);
        lemma_wrap(c, grid.width);
    }
    lemma_shape_steps(
        grid,
        |dr: int, dc: int| glider_after_two(dr, dc),
        |dr: int, dc: int| glider_after_three(dr, dc),
        row,
        col,
        row,
        col,
    );
}

/// The fourth generation of a glider: the shape it began with, one row down
/// and one column to the right.
proof fn lemma_glider_fourth_step(grid: Grid, row: int, col: int)
    requires
        grid.wf(),
        has_room_for_glider(grid, row, col),
        shows(grid, |dr: int, dc: int| glider_after_three(dr, dc), row, col),
    ensures
        grid.step().wf(),
        grid.step().width == grid.width,
        grid.step().height == grid.height,
        shows(grid.step(), |dr: int, dc: int| glider_cell(dr, dc), row + 1, col + 1),
{
    assert forall|r: int, c: int| grid.in_bounds(r, c) implies #[trigger] grid.next_alive(r, c)
        == glider_cell(r - (row + 1), c - (col + 1)) by {
        grid.lemma_neighbors_in_bounds(r, c);
        lemma_wrap(r, grid.height);
        lemma_wrap(c, grid.width);
    }
    lemma_shape_steps(
        grid,
        |dr: int, dc: int| glider_after_three(dr, dc),
        |dr: int, dc: int| glider_cell(dr, dc),
        row,
        col,
        row + 1,
        col + 1,
    );
}

/// A glider travels: drawn on an empty board with room for it, it is after
/// four generations the same glider one row further down and one column
/// further to the right, and nothing else lives.
pub proof fn lemma_glider_travels(width: nat, height: nat, row: int, col: int)
    requires
        has_room_for_glider(Grid::dead(width, height), row, col),
    ensures
        Grid::dead(width, height).with_glider(row, col).steps(4) == Grid::dead(
            width,
            height,
        ).with_glider(row + 1, col + 1),
{
    let empty = Grid::dead(width, height);
    let start = empty.with_glider(row, col);
    let end = empty.with_glider(row + 1, col + 1);
    lemma_glider_drawn(width, height, row, col);
    lemma_glider_drawn(width, height, row + 1, col + 1);
    let one = start.step();
    lemma_glider_first_step(start, row, col);
    let two = one.step();
    lemma_glider_second_step(one, row, col);
    let three = two.step();
    lemma_glider_third_step(two, row, col);
    let four = three.step();
    lemma_glider_fourth_step(three, row, col);
    four.lemma_equal_by_positions(end);
    assert(start.steps(4) == four) by {
        reveal_with_fuel(Grid::steps, 5);
    }
}

/// On an empty board with a glider drawn on it, the glider is all that lives.
proof fn lemma_glider_drawn(width: nat, height: nat, row: int, col: int)
    ensures
        Grid::dead(width, height).with_glider(row, col).wf(),
        Grid::dead(width, height).with_glider(row, col).width == width,
        Grid::dead(width, height).with_glider(row, col).height == height,
        shows(
            Grid::dead(width, height).with_glider(row, col),
            |dr: int, dc: int| glider_cell(dr, dc),
            row,
            col,
        ),
{
    let empty = Grid::dead(width, height);
    let drawn = empty.with_glider(row, col);
    empty.lemma_with_glider(row, col);
    assert forall|r: int, c: int| drawn.in_bounds(r, c) implies #[trigger] drawn.alive(r, c)
        == glider_cell(r - row, c - col) by {
        lemma_index_in_range(width, height, r, c);
    }
}

} // verus!
