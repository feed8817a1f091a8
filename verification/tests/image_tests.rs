use subway_maze::field::{Cell, Subway, SCALE};
use subway_maze::imga::{find_uneven_grid_period, FeatureVector, FlexGrid, ImageProcessor, Mark};

/// A bright uniform RGBA frame.
fn bright_frame(w: usize, h: usize, level: u8) -> Vec<u8> {
    let mut data = Vec::new();
    for _ in 0..w * h {
        data.push(level);
        data.push(level);
        data.push(level);
        data.push(255);
    }
    data
}

#[test]
fn luminance_export_round_trip() {
    // bright pixels avoid the dark-mode normalization
    let data = bright_frame(2, 2, 200);
    let img = ImageProcessor::from_rgba_slice(2, 2, &data);
    assert_eq!(img.width(), 2);
    assert_eq!(img.height(), 2);
    let out = img.get_image_data_vector();
    assert_eq!(out.len(), 16);
    // Y = (30 + 59 + 11) * 200 / 34 = 588, exported as 588 / 3 = 196
    for p in 0..4 {
        assert_eq!(out[4 * p], 196);
        assert_eq!(out[4 * p + 1], 196);
        assert_eq!(out[4 * p + 2], 196);
        assert_eq!(out[4 * p + 3], 255);
    }
}

#[test]
fn dark_frames_are_normalized() {
    // a dark frame with one bright pixel inverts: dark pixels become bright
    let mut data = bright_frame(4, 4, 10);
    data[0] = 255;
    data[1] = 255;
    data[2] = 255;
    let img = ImageProcessor::from_rgba_slice(4, 4, &data);
    let out = img.get_image_data_vector();
    // the formerly dark pixels are now brighter than the formerly bright one
    assert!(out[4] > out[0]);
}

/// A synthetic bright frame with black grid lines every `pitch` pixels.
fn grid_frame(size: usize, pitch: usize) -> Vec<u8> {
    let mut data = Vec::new();
    for r in 0..size {
        for c in 0..size {
            let line = r % pitch == 0 || c % pitch == 0;
            let v = if line { 0 } else { 200 };
            data.push(v);
            data.push(v);
            data.push(v);
            data.push(255);
        }
    }
    data
}

#[test]
fn uniform_grid_is_detected() {
    let data = grid_frame(260, 20);
    let img = ImageProcessor::from_rgba_slice(260, 260, &data);
    let grid = img.detect_grid();
    assert_eq!(grid.size, 20);
    assert_eq!(grid.row_offset, 0);
    assert_eq!(grid.col_offset, 0);
    assert_eq!(grid.row_count, 12);
    assert_eq!(grid.col_count, 12);
}

#[test]
fn no_grid_in_a_flat_frame() {
    let data = bright_frame(100, 100, 200);
    let img = ImageProcessor::from_rgba_slice(100, 100, &data);
    let grid = img.detect_grid();
    assert_eq!(grid.size, 0);
    assert_eq!(grid.row_count, 0);
    assert_eq!(grid.col_count, 0);
}

#[test]
fn uneven_period_chains_dips() {
    // background 100 with dips at 12, 32, 52: dips chain at period 18,
    // reported cell size 16 with offsets shifted by twice the gutter
    let mut cols: Vec<u32> = vec![100; 100];
    cols[12] = 0;
    cols[32] = 0;
    cols[52] = 0;
    let (cellsize, offsets) = find_uneven_grid_period(&cols, None, 2);
    assert_eq!(cellsize, 16);
    assert_eq!(offsets, vec![14, 34, 54]);
}

#[test]
fn uneven_period_needs_three_dips() {
    let mut cols: Vec<u32> = vec![100; 100];
    cols[12] = 0;
    cols[32] = 0;
    let (cellsize, offsets) = find_uneven_grid_period(&cols, None, 2);
    assert_eq!(cellsize, 0);
    assert!(offsets.is_empty());
}

#[test]
fn uniform_patch_matches_the_blank_entry() {
    let data = bright_frame(10, 10, 200);
    let img = ImageProcessor::from_rgba_slice(10, 10, &data);
    let patch: Vec<u8> = vec![0; 64];
    let fv = FeatureVector::from_image(8, 8, &patch);
    let (mark, dist) = img.get_closest_feature(&fv);
    assert_eq!(mark, Mark::Empty);
    assert_eq!(dist, 0);
}

#[test]
fn maze_applies_centered_onto_the_field() {
    // a 3 by 3 maze: entrance, treasury, walls and passages
    let grid = FlexGrid::from_parts(8, vec![0, 8, 16, 24], vec![0, 8, 16, 24]);
    let cells = vec![
        Cell::Wall, Cell::Pass, Cell::Wall,
        Cell::Pass, Cell::Pass, Cell::Pass,
        Cell::Wall, Cell::Pass, Cell::Wall,
    ];
    let marks = vec![
        Mark::Empty, Mark::Empty, Mark::Empty,
        Mark::Entrance, Mark::Empty, Mark::Treasury,
        Mark::Empty, Mark::Luck, Mark::Empty,
    ];
    let maze = subway_maze::maze::Maze::from_parts(grid, cells, marks);
    assert!(maze.is_valid());

    let mut subway = Subway::new();
    subway.set_field(21, Cell::Pass);
    maze.apply_to_subway(&mut subway);

    // the maze is centered at offset (20 - 3) / 2 = 8
    let base = subway.to_idx(8, 8);
    assert_eq!(subway.get_field(base), Cell::Wall);
    assert_eq!(subway.get_field(base + 1), Cell::Pass);
    assert_eq!(subway.get_field(base + 20), Cell::Entrance);
    assert_eq!(subway.get_field(base + 21), Cell::Pass);
    assert_eq!(subway.get_field(base + 22), Cell::Treasury);
    assert_eq!(subway.get_field(base + 41), Cell::Pass);

    // everything outside the maze window went back to walls
    assert_eq!(subway.get_field(21), Cell::Wall);
    for i in 0..400 {
        let (row, col) = subway.from_idx(i);
        if row < 8 || row > 10 || col < 8 || col > 10 {
            assert_eq!(subway.get_field(i), Cell::Wall);
        }
    }

    // the simulation runs on the applied maze
    subway.init(false);
    assert_eq!(subway.get_visited_probability(base + 20), SCALE);
}

#[test]
fn marks_are_read_back_by_lattice_index() {
    let grid = FlexGrid::from_parts(8, vec![0, 8, 16, 24], vec![0, 8, 16, 24]);
    let cells = vec![Cell::Pass; 9];
    let marks = vec![
        Mark::Empty, Mark::Empty, Mark::Empty,
        Mark::Entrance, Mark::Empty, Mark::Treasury,
        Mark::Empty, Mark::Luck, Mark::Empty,
    ];
    let maze = subway_maze::maze::Maze::from_parts(grid, cells, marks);
    let subway = Subway::new();
    let base = subway.to_idx(8, 8);
    assert_eq!(maze.get_mark(base), Mark::Empty);
    assert_eq!(maze.get_mark(base + 20), Mark::Entrance);
    assert_eq!(maze.get_mark(base + 22), Mark::Treasury);
    assert_eq!(maze.get_mark(base + 41), Mark::Luck);
    assert_eq!(maze.get_mark(0), Mark::Empty);
    assert_eq!(maze.get_mark(399), Mark::Empty);
}

#[test]
fn invalid_maze_is_reported() {
    let grid = FlexGrid::from_parts(0, vec![], vec![]);
    let maze = subway_maze::maze::Maze::from_parts(grid, vec![], vec![]);
    assert!(!maze.is_valid());
}

/// A frame where every cell of a flexible grid looks like the wall
/// reference cell: a bright/dark checkerboard.
fn checker_frame(size: usize) -> Vec<u8> {
    let mut data = Vec::new();
    for r in 0..size {
        for c in 0..size {
            let v = if (r + c) % 2 == 0 { 200 } else { 100 };
            data.push(v);
            data.push(v);
            data.push(v);
            data.push(255);
        }
    }
    data
}

#[test]
fn cells_like_the_wall_reference_become_walls() {
    let data = checker_frame(40);
    let img = ImageProcessor::from_rgba_slice(40, 40, &data);
    let grid = FlexGrid::from_parts(8, vec![0, 10, 20, 30], vec![0, 10, 20, 30]);
    let maze = img.detect_maze(&grid);
    assert!(maze.is_valid());
    let mut subway = Subway::new();
    maze.apply_to_subway(&mut subway);
    // every maze cell equals the wall reference, so everything is a wall
    for i in 0..400 {
        assert_eq!(subway.get_field(i), Cell::Wall);
    }
}

#[test]
fn uniform_cells_become_passages() {
    let data = bright_frame(40, 40, 200);
    let img = ImageProcessor::from_rgba_slice(40, 40, &data);
    let grid = FlexGrid::from_parts(8, vec![0, 10, 20, 30], vec![0, 10, 20, 30]);
    let maze = img.detect_maze(&grid);
    let mut subway = Subway::new();
    maze.apply_to_subway(&mut subway);
    let base = subway.to_idx(8, 8);
    for r in 0..3 {
        for c in 0..3 {
            assert_eq!(subway.get_field(base + 20 * r + c), Cell::Pass);
        }
    }
}

#[test]
fn empty_grid_gives_an_empty_maze() {
    let data = bright_frame(10, 10, 200);
    let img = ImageProcessor::from_rgba_slice(10, 10, &data);
    let grid = FlexGrid::from_parts(0, vec![], vec![]);
    let maze = img.detect_maze(&grid);
    assert!(!maze.is_valid());
}

#[test]
fn debug_draw_paints_walls_black() {
    let data = checker_frame(40);
    let mut img = ImageProcessor::from_rgba_slice(40, 40, &data);
    let grid = FlexGrid::from_parts(8, vec![0, 10, 20, 30], vec![0, 10, 20, 30]);
    let maze = img.detect_maze(&grid);
    img.debug_draw(&maze);
    let out = img.get_image_data_vector();
    // the top-left cell is a wall cell: its pixels were painted black
    assert_eq!(out[0], 0);
    assert_eq!(out[4 * (3 * 40 + 3)], 0);
    // a pixel outside every cell square keeps its gray value
    assert!(out[4 * (9 * 40 + 9)] > 0);
}

#[test]
fn flex_grid_accessors() {
    let grid = FlexGrid::from_parts(8, vec![0, 10, 20, 30], vec![0, 10, 20]);
    assert_eq!(grid.num_rows(), 3);
    assert_eq!(grid.num_cols(), 2);
    assert_eq!(grid.num_cells(), 6);
    assert_eq!(grid.row(1), 10);
    assert_eq!(grid.col(2), 20);
    assert_eq!(grid.row(9), 0);
}
