use game_of_life::universe::Universe;

fn seeded(width: u32, height: u32, alive: &[usize]) -> Universe {
    let mut seed = vec![false; (width * height) as usize];
    for &i in alive {
        seed[i] = true;
    }
    Universe::new(width, height, &seed)
}

fn live_cells(universe: &Universe) -> Vec<usize> {
    let cells = universe.get_cells();
    (0..cells.len()).filter(|&i| cells[i]).collect()
}

#[test]
fn new_holds_one_cell_for_each_position() {
    let seed = vec![true, false, false, true, true, false];
    let universe = Universe::new(3, 2, &seed);
    assert_eq!(universe.width(), 3);
    assert_eq!(universe.height(), 2);
    assert_eq!(universe.get_cells().len(), 6);
    for (i, alive) in seed.iter().enumerate() {
        assert_eq!(universe.get_cells()[i], *alive);
    }
}

#[test]
fn new_has_width_times_height_cells() {
    for (width, height) in [(1u32, 1u32), (1, 7), (7, 1), (5, 4), (33, 3), (64, 64)] {
        let seed = vec![true; (width * height) as usize];
        let universe = Universe::new(width, height, &seed);
        assert_eq!(universe.get_cells().len(), (width * height) as usize);
        assert_eq!(universe.cells().len(), ((width * height) as usize + 31) / 32);
    }
}

#[test]
fn new_accepts_a_board_without_cells() {
    let mut universe = Universe::new(0, 5, &[]);
    assert_eq!(universe.width(), 0);
    assert_eq!(universe.height(), 5);
    assert_eq!(universe.get_cells().len(), 0);
    assert_eq!(universe.cells().len(), 0);
    universe.tick();
    universe.kill_universe();
    assert_eq!(universe.get_cells().len(), 0);
}

#[test]
fn cells_are_packed_thirty_two_to_a_word() {
    let alive = [0usize, 1, 31, 32, 40, 69];
    let universe = seeded(10, 7, &alive);
    let words = universe.cells();
    assert_eq!(words.len(), 3);
    assert_eq!(words[0], 1 | (1 << 1) | (1 << 31));
    assert_eq!(words[1], 1 | (1 << 8));
    assert_eq!(words[2], 1 << 5);
    for i in 0..70usize {
        let bit = words[i / 32] & (1u32 << (i % 32)) != 0;
        assert_eq!(bit, alive.contains(&i));
    }
}

#[test]
fn get_index_is_row_major() {
    let universe = seeded(5, 4, &[]);
    assert_eq!(universe.get_index(0, 0), 0);
    assert_eq!(universe.get_index(0, 4), 4);
    assert_eq!(universe.get_index(1, 0), 5);
    assert_eq!(universe.get_index(2, 3), 13);
    assert_eq!(universe.get_index(3, 4), 19);
}

#[test]
fn reset_replaces_every_cell_and_keeps_the_size() {
    let mut universe = seeded(4, 3, &[0, 5, 11]);
    let seed = vec![
        false, true, true, false, true, false, false, false, false, false, true, false,
    ];
    universe.reset(&seed);
    assert_eq!(universe.width(), 4);
    assert_eq!(universe.height(), 3);
    assert_eq!(live_cells(&universe), vec![1, 2, 4, 10]);
}

#[test]
fn kill_universe_leaves_nothing_alive() {
    let mut universe = Universe::new(9, 5, &vec![true; 45]);
    assert_eq!(live_cells(&universe).len(), 45);
    universe.kill_universe();
    assert_eq!(universe.width(), 9);
    assert_eq!(universe.height(), 5);
    assert_eq!(universe.get_cells().len(), 45);
    assert!(live_cells(&universe).is_empty());
    assert!(universe.cells().iter().all(|&word| word == 0));
}

#[test]
fn set_width_makes_a_dead_board_of_the_new_size() {
    let mut universe = Universe::new(4, 6, &vec![true; 24]);
    universe.set_width(11);
    assert_eq!(universe.width(), 11);
    assert_eq!(universe.height(), 6);
    assert_eq!(universe.get_cells().len(), 66);
    assert_eq!(universe.cells().len(), 3);
    assert!(live_cells(&universe).is_empty());
}

#[test]
fn set_height_makes_a_dead_board_of_the_new_size() {
    let mut universe = Universe::new(4, 6, &vec![true; 24]);
    universe.set_height(2);
    assert_eq!(universe.width(), 4);
    assert_eq!(universe.height(), 2);
    assert_eq!(universe.get_cells().len(), 8);
    assert_eq!(universe.cells().len(), 1);
    assert!(live_cells(&universe).is_empty());
}

#[test]
fn set_width_to_nothing_leaves_no_cells() {
    let mut universe = Universe::new(4, 6, &vec![true; 24]);
    universe.set_width(0);
    assert_eq!(universe.width(), 0);
    assert_eq!(universe.get_cells().len(), 0);
    universe.set_width(3);
    assert_eq!(universe.get_cells().len(), 18);
    assert!(live_cells(&universe).is_empty());
}
