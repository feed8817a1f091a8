use subway_maze::field::{Cell, Direction, Subway, FLAT_SIZE, SCALE};

#[test]
fn idx_round_trip() {
    let subway = Subway::new();
    for i in 0..FLAT_SIZE {
        let (row, col) = subway.from_idx(i);
        assert_eq!(subway.to_idx(row, col), i);
    }
}

#[test]
fn new_field_is_all_walls() {
    let subway = Subway::new();
    for i in 0..FLAT_SIZE {
        assert_eq!(subway.get_field(i), Cell::Wall);
        assert_eq!(subway.get_visited_probability(i), 0);
    }
}

#[test]
fn border_writes_are_ignored() {
    let mut subway = Subway::new();
    // all four border sides refuse writes
    subway.set_field(0, Cell::Pass);
    subway.set_field(19, Cell::Pass);
    subway.set_field(380, Cell::Pass);
    subway.set_field(399, Cell::Pass);
    subway.set_field(5, Cell::Pass);
    subway.set_field(395, Cell::Pass);
    subway.set_field(20, Cell::Pass);
    subway.set_field(39, Cell::Pass);
    for i in 0..FLAT_SIZE {
        let (row, col) = subway.from_idx(i);
        if row == 0 || row == 19 || col == 0 || col == 19 {
            assert_eq!(subway.get_field(i), Cell::Wall);
        }
    }
    // an interior write sticks
    subway.set_field(21, Cell::Pass);
    assert_eq!(subway.get_field(21), Cell::Pass);
}

#[test]
fn init_marks_exactly_the_entrances() {
    let mut subway = Subway::new();
    subway.set_field(128, Cell::Entrance);
    subway.set_field(127, Cell::Pass);
    subway.init(false);
    for i in 0..FLAT_SIZE {
        if subway.get_field(i) == Cell::Entrance {
            assert_eq!(subway.get_visited_probability(i), SCALE);
        } else {
            assert_eq!(subway.get_visited_probability(i), 0);
        }
    }
}

#[test]
fn movement_at_a_pass_cell() {
    let mut subway = Subway::new();
    subway.set_field(128, Cell::Entrance);
    subway.set_field(127, Cell::Pass);
    subway.set_field(126, Cell::Pass);
    subway.set_field(125, Cell::Treasury);
    subway.init(false);

    let (indices, probs) = subway.get_movement(127, Direction::East, 1);
    assert_eq!(&indices[..4], &[126, 107, 128, 147]);
    assert_eq!(probs, vec![SCALE, 0, 0, 0, 0, 0, 0, 0]);
}

#[test]
fn movement_at_a_treasury_absorbs() {
    let mut subway = Subway::new();
    subway.set_field(128, Cell::Entrance);
    subway.set_field(127, Cell::Pass);
    subway.set_field(126, Cell::Pass);
    subway.set_field(125, Cell::Treasury);
    subway.init(false);

    let (indices, probs) = subway.get_movement(125, Direction::East, 1);
    assert_eq!(indices, vec![125; 8]);
    assert_eq!(probs, vec![0; 8]);
}

#[test]
fn corridor_carries_the_whole_group() {
    let mut subway = Subway::new();
    subway.set_field(128, Cell::Entrance);
    subway.set_field(127, Cell::Pass);
    subway.set_field(126, Cell::Pass);
    subway.set_field(125, Cell::Treasury);

    subway.init(false);

    assert_eq!(subway.get_field(128), Cell::Entrance);
    assert_eq!(subway.get_visited_probability(128), SCALE);

    // only one mover, pointing west, already moved off the start
    for d in [Direction::North, Direction::East, Direction::South, Direction::West] {
        assert_eq!(subway.get_mover(d, 128), 0);
        assert_eq!(subway.get_mover(d, 126), 0);
    }
    assert_eq!(subway.get_mover(Direction::West, 127), SCALE);

    subway.step(1);
    assert_eq!(subway.get_visited_probability(127), SCALE);
    assert_eq!(subway.get_mover(Direction::West, 127), 0);
    assert_eq!(subway.get_mover(Direction::West, 126), SCALE);

    subway.step(2);
    assert_eq!(subway.get_visited_probability(126), SCALE);
    assert_eq!(subway.get_mover(Direction::West, 125), SCALE);

    subway.step(3);
    assert_eq!(subway.get_visited_probability(125), SCALE);
    for d in [Direction::North, Direction::East, Direction::South, Direction::West] {
        for idx in 124..129 {
            assert_eq!(subway.get_mover(d, idx), 0);
        }
    }
}

#[test]
fn loop_paths_converge_at_the_treasury() {
    let mut subway = Subway::new();
    subway.set_field(86, Cell::Pass);
    subway.set_field(87, Cell::Pass);
    subway.set_field(88, Cell::Pass);
    subway.set_field(106, Cell::Pass);
    subway.set_field(107, Cell::Pass);
    subway.set_field(108, Cell::Pass);
    subway.set_field(126, Cell::Pass);
    subway.set_field(127, Cell::Treasury);
    subway.set_field(128, Cell::Entrance);
    subway.init(false);
    subway.step(1);
    subway.step(2);
    subway.step(3);

    // one of two symmetric paths has reached the treasury
    assert_eq!(subway.get_visited_probability(127), SCALE / 2);
    subway.step(4);
    subway.step(5);
    subway.step(6);
    subway.step(7);

    assert!(subway.get_visited_probability(127) > SCALE / 2, "two paths converged");
    assert_eq!(subway.get_visited_probability(107), 0, "center point not visited");
}

#[test]
fn visited_mass_never_shrinks() {
    let mut subway = Subway::new();
    // a ring that keeps mass circulating
    subway.set_field(86, Cell::Pass);
    subway.set_field(87, Cell::Pass);
    subway.set_field(88, Cell::Pass);
    subway.set_field(106, Cell::Pass);
    subway.set_field(108, Cell::Pass);
    subway.set_field(126, Cell::Pass);
    subway.set_field(127, Cell::Pass);
    subway.set_field(128, Cell::Entrance);
    subway.init(false);
    let mut prev: Vec<u64> = (0..FLAT_SIZE).map(|i| subway.get_visited_probability(i)).collect();
    for tick in 1..30 {
        subway.step(tick);
        for i in 0..FLAT_SIZE {
            let now = subway.get_visited_probability(i);
            assert!(now >= prev[i]);
            prev[i] = now;
        }
    }
}

#[test]
fn absorbed_mass_stays_below_one() {
    let mut subway = Subway::new();
    subway.set_field(86, Cell::Pass);
    subway.set_field(87, Cell::Pass);
    subway.set_field(88, Cell::Pass);
    subway.set_field(106, Cell::Pass);
    subway.set_field(108, Cell::Pass);
    subway.set_field(126, Cell::Pass);
    subway.set_field(127, Cell::Treasury);
    subway.set_field(128, Cell::Entrance);
    subway.set_field(125, Cell::Subtreasury);
    subway.init(false);
    for tick in 1..60 {
        subway.step(tick);
        let mut absorbed: u64 = 0;
        for i in 0..FLAT_SIZE {
            let c = subway.get_field(i);
            if c == Cell::Treasury || c == Cell::Subtreasury {
                absorbed += subway.get_visited_probability(i);
            }
        }
        assert!(absorbed <= SCALE);
    }
}

#[test]
fn reset_clears_everything() {
    let mut subway = Subway::new();
    subway.set_field(128, Cell::Entrance);
    subway.set_field(127, Cell::Pass);
    subway.init(false);
    subway.step(1);
    subway.reset();
    for i in 0..FLAT_SIZE {
        assert_eq!(subway.get_field(i), Cell::Wall);
        assert_eq!(subway.get_visited_probability(i), 0);
        for d in [Direction::North, Direction::East, Direction::South, Direction::West] {
            assert_eq!(subway.get_mover(d, i), 0);
        }
    }
}

#[test]
fn direction_arithmetic() {
    assert_eq!(Direction::North.opposite(), Direction::South);
    assert_eq!(Direction::East.opposite(), Direction::West);
    assert_eq!(Direction::West.opposite(), Direction::East);
    assert_eq!(Direction::South.opposite(), Direction::North);
    assert_eq!(Direction::East.plus(Direction::South), Direction::West);
    assert_eq!(Direction::West.plus(Direction::South), Direction::East);
    assert_eq!(Direction::from_index(7), Direction::West);
}
