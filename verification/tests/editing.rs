use game_of_life::universe::Universe;

fn blank(width: u32, height: u32) -> Universe {
    Universe::new(width, height, &vec![false; (width * height) as usize])
}

fn drawing(universe: &Universe) -> Vec<String> {
    let cells = universe.get_cells();
    let width = universe.width() as usize;
    (0..universe.height() as usize)
        .map(|row| {
            (0..width)
                .map(|col| if cells[row * width + col] { 'X' } else { '.' })
                .collect()
        })
        .collect()
}

#[test]
fn toggle_cell_flips_one_cell() {
    let mut universe = blank(4, 3);
    universe.toggle_cell(1, 2);
    assert_eq!(drawing(&universe), vec!["....", "..X.", "...."]);
    universe.toggle_cell(2, 0);
    assert_eq!(drawing(&universe), vec!["....", "..X.", "X..."]);
}

#[test]
fn toggle_cell_twice_restores_the_cell() {
    let seed = vec![
        true, false, true, false, false, true, true, false, true, true, false, false,
    ];
    let mut universe = Universe::new(4, 3, &seed);
    let before = drawing(&universe);
    for row in 0..3 {
        for col in 0..4 {
            universe.toggle_cell(row, col);
            assert_ne!(drawing(&universe), before);
            universe.toggle_cell(row, col);
            assert_eq!(drawing(&universe), before);
        }
    }
}

#[test]
fn set_cells_brings_the_listed_cells_to_life() {
    let mut universe = blank(5, 3);
    universe.toggle_cell(0, 0);
    universe.set_cells(&[(0, 0), (1, 3), (2, 4), (1, 3)]);
    assert_eq!(drawing(&universe), vec!["X....", "...X.", "....X"]);
}

#[test]
fn set_cells_with_nothing_listed_changes_nothing() {
    let mut universe = blank(5, 3);
    universe.toggle_cell(2, 1);
    universe.set_cells(&[]);
    universe.unset_cells(&[]);
    assert_eq!(drawing(&universe), vec![".....", ".....", ".X..."]);
}

#[test]
fn unset_cells_kills_the_listed_cells() {
    let mut universe = Universe::new(5, 3, &vec![true; 15]);
    universe.unset_cells(&[(0, 0), (1, 3), (2, 4), (0, 0)]);
    assert_eq!(drawing(&universe), vec![".XXXX", "XXX.X", "XXXX."]);
}

#[test]
fn create_glider_draws_five_cells() {
    let mut universe = blank(6, 5);
    universe.create_glider(2, 3);
    assert_eq!(
        drawing(&universe),
        vec!["......", "...X..", "....X.", "..XXX.", "......"]
    );
}

#[test]
fn create_glider_clears_the_rest_of_its_square() {
    let mut universe = Universe::new(5, 5, &vec![true; 25]);
    universe.create_glider(2, 2);
    assert_eq!(
        drawing(&universe),
        vec!["XXXXX", "X.X.X", "X..XX", "XXXXX", "XXXXX"]
    );
}

#[test]
fn create_glider_fits_a_board_of_three_by_three() {
    let mut universe = blank(3, 3);
    universe.create_glider(1, 1);
    assert_eq!(drawing(&universe), vec![".X.", "..X", "XXX"]);
}

#[test]
fn create_pulsar_draws_forty_eight_cells() {
    let mut universe = blank(15, 13);
    universe.create_pulsar(6, 7);
    assert_eq!(
        drawing(&universe),
        vec![
            "...XXX...XXX...",
            "...............",
            ".X....X.X....X.",
            ".X....X.X....X.",
            ".X....X.X....X.",
            "...XXX...XXX...",
            "...............",
            "...XXX...XXX...",
            ".X....X.X....X.",
            ".X....X.X....X.",
            ".X....X.X....X.",
            "...............",
            "...XXX...XXX...",
        ]
    );
    let alive = universe.get_cells().count_ones(..);
    assert_eq!(alive, 48);
}

#[test]
fn create_pulsar_leaves_other_cells_as_they_are() {
    let mut universe = blank(13, 13);
    universe.toggle_cell(6, 6);
    universe.toggle_cell(0, 0);
    universe.toggle_cell(5, 2);
    universe.create_pulsar(6, 6);
    let cells = universe.get_cells();
    assert!(cells[6 * 13 + 6]);
    assert!(cells[0]);
    assert!(cells[5 * 13 + 2]);
    assert_eq!(cells.count_ones(..), 50);
}
