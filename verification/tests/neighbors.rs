use game_of_life::universe::Universe;

fn board_of(rows: &[&str]) -> Universe {
    let height = rows.len() as u32;
    let width = rows[0].len() as u32;
    let mut seed = Vec::new();
    for row in rows {
        assert_eq!(row.len() as u32, width);
        for cell in row.chars() {
            seed.push(cell == 'X');
        }
    }
    Universe::new(width, height, &seed)
}

#[test]
fn far_corner_is_a_neighbor_of_the_near_corner() {
    let universe = board_of(&[
        "X....", //
        ".....", //
        ".....", //
        "....X", //
    ]);
    assert_eq!(universe.live_neighbor_count(0, 0), 1);
    assert_eq!(universe.live_neighbor_count(3, 4), 1);
}

#[test]
fn edges_wrap_to_the_opposite_edge() {
    let universe = board_of(&[
        ".....", //
        "....X", //
        ".....", //
        ".X...", //
    ]);
    // Left edge sees the right edge.
    assert_eq!(universe.live_neighbor_count(0, 0), 2);
    assert_eq!(universe.live_neighbor_count(1, 0), 1);
    assert_eq!(universe.live_neighbor_count(2, 0), 2);
    // Top edge sees the bottom edge.
    assert_eq!(universe.live_neighbor_count(0, 1), 1);
    assert_eq!(universe.live_neighbor_count(0, 2), 1);
    assert_eq!(universe.live_neighbor_count(0, 3), 1);
}

#[test]
fn a_cell_does_not_count_itself() {
    let universe = board_of(&[
        ".....", //
        "..X..", //
        ".....", //
        ".....", //
    ]);
    assert_eq!(universe.live_neighbor_count(1, 2), 0);
    for (row, col) in [(0, 1), (0, 2), (0, 3), (1, 1), (1, 3), (2, 1), (2, 2), (2, 3)] {
        assert_eq!(universe.live_neighbor_count(row, col), 1);
    }
    for (row, col) in [(3, 2), (1, 0), (1, 4), (3, 0)] {
        assert_eq!(universe.live_neighbor_count(row, col), 0);
    }
}

#[test]
fn all_eight_neighbors_are_counted() {
    let universe = board_of(&[
        "XXX.", //
        "X.X.", //
        "XXX.", //
        "....", //
    ]);
    assert_eq!(universe.live_neighbor_count(1, 1), 8);
    assert_eq!(universe.live_neighbor_count(0, 0), 2);
    assert_eq!(universe.live_neighbor_count(0, 1), 4);
    assert_eq!(universe.live_neighbor_count(3, 3), 4);
    assert_eq!(universe.live_neighbor_count(3, 1), 6);
}

#[test]
fn full_board_gives_eight_everywhere() {
    let universe = Universe::new(6, 5, &vec![true; 30]);
    for row in 0..5 {
        for col in 0..6 {
            assert_eq!(universe.live_neighbor_count(row, col), 8);
        }
    }
}

#[test]
fn on_a_single_cell_board_the_cell_is_all_of_its_neighbors() {
    let alive = Universe::new(1, 1, &[true]);
    assert_eq!(alive.live_neighbor_count(0, 0), 8);
    let dead = Universe::new(1, 1, &[false]);
    assert_eq!(dead.live_neighbor_count(0, 0), 0);
}

#[test]
fn on_a_single_row_the_row_is_above_and_below_itself() {
    let universe = board_of(&[".X..."]);
    assert_eq!(universe.live_neighbor_count(0, 0), 3);
    assert_eq!(universe.live_neighbor_count(0, 1), 2);
    assert_eq!(universe.live_neighbor_count(0, 2), 3);
    assert_eq!(universe.live_neighbor_count(0, 3), 0);
}
