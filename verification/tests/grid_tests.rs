use tile_board::grid::{has_any_move, Direction, Grid};

fn grid(cells: [[u32; 4]; 4]) -> Grid {
    Grid::new(cells).expect("valid cells")
}

fn mirror(cells: [[u32; 4]; 4]) -> [[u32; 4]; 4] {
    let mut out = cells;
    for row in out.iter_mut() {
        row.reverse();
    }
    out
}

fn flip(cells: [[u32; 4]; 4]) -> [[u32; 4]; 4] {
    let mut out = cells;
    out.reverse();
    out
}

const SAMPLE: [[u32; 4]; 4] = [[2, 0, 2, 4], [2, 2, 2, 2], [0, 4, 4, 8], [16, 0, 0, 16]];

#[test]
fn new_accepts_empty_cells_and_powers_of_two() {
    assert!(Grid::new([[0; 4]; 4]).is_some());
    assert!(Grid::new([[2, 4, 8, 16], [32, 64, 128, 256], [512, 1024, 2048, 4096], [0, 0, 0, 0]])
        .is_some());
    assert!(Grid::new([[1 << 31, 0, 0, 0], [0; 4], [0; 4], [0; 4]]).is_some());
}

#[test]
fn new_rejects_other_values() {
    assert!(Grid::new([[1, 0, 0, 0], [0; 4], [0; 4], [0; 4]]).is_none());
    assert!(Grid::new([[0; 4], [0, 3, 0, 0], [0; 4], [0; 4]]).is_none());
    assert!(Grid::new([[0; 4], [0; 4], [0; 4], [0, 0, 0, 6]]).is_none());
    assert!(Grid::new([[2, 4, 8, 16], [2, 4, 8, 12], [0; 4], [0; 4]]).is_none());
    assert!(Grid::new([[u32::MAX, 0, 0, 0], [0; 4], [0; 4], [0; 4]]).is_none());
}

#[test]
fn cells_returns_what_new_was_given() {
    assert_eq!(grid(SAMPLE).cells(), SAMPLE);
}

#[test]
fn grids_compare_by_their_cells() {
    assert_eq!(grid(SAMPLE), grid(SAMPLE));
    assert_ne!(grid(SAMPLE), grid(mirror(SAMPLE)));
}

#[test]
fn headroom_fails_only_for_the_largest_tile() {
    assert!(grid(SAMPLE).has_headroom());
    assert!(grid([[1 << 30, 0, 0, 0], [0; 4], [0; 4], [0; 4]]).has_headroom());
    assert!(!grid([[0; 4], [0; 4], [0, 0, 1 << 31, 0], [0; 4]]).has_headroom());
}

#[test]
fn slide_left() {
    let moved = grid(SAMPLE).slide(Direction::Left);
    assert_eq!(moved.cells(), [[4, 4, 0, 0], [4, 4, 0, 0], [8, 8, 0, 0], [32, 0, 0, 0]]);
}

#[test]
fn slide_right() {
    let moved = grid(SAMPLE).slide(Direction::Right);
    assert_eq!(moved.cells(), [[0, 0, 4, 4], [0, 0, 4, 4], [0, 0, 8, 8], [0, 0, 0, 32]]);
}

#[test]
fn slide_up() {
    let moved = grid(SAMPLE).slide(Direction::Up);
    assert_eq!(moved.cells(), [[4, 2, 4, 4], [16, 4, 4, 2], [0, 0, 0, 8], [0, 0, 0, 16]]);
}

#[test]
fn slide_down() {
    let moved = grid(SAMPLE).slide(Direction::Down);
    assert_eq!(moved.cells(), [[0, 0, 0, 4], [0, 0, 0, 2], [4, 2, 4, 8], [16, 4, 4, 16]]);
}

#[test]
fn slide_right_merges_toward_the_right_edge() {
    let moved = grid([[4, 4, 0, 0], [0; 4], [0; 4], [0; 4]]).slide(Direction::Right);
    assert_eq!(moved.cells()[0], [0, 0, 0, 8]);
}

#[test]
fn slide_right_prefers_the_pair_at_the_right_edge() {
    let moved = grid([[2, 2, 2, 0], [0; 4], [0; 4], [0; 4]]).slide(Direction::Right);
    assert_eq!(moved.cells()[0], [0, 0, 2, 4]);
}

#[test]
fn left_and_right_are_mirror_images() {
    let right = grid(SAMPLE).slide(Direction::Right).cells();
    let left_of_mirror = grid(mirror(SAMPLE)).slide(Direction::Left).cells();
    assert_eq!(left_of_mirror, mirror(right));
    let mirrored_row = grid(mirror([[4, 4, 0, 0], [0; 4], [0; 4], [0; 4]]));
    assert_eq!(mirrored_row.slide(Direction::Left).cells()[0], [8, 0, 0, 0]);
}

#[test]
fn up_and_down_are_mirror_images() {
    let down = grid(SAMPLE).slide(Direction::Down).cells();
    let up_of_flip = grid(flip(SAMPLE)).slide(Direction::Up).cells();
    assert_eq!(up_of_flip, flip(down));
}

#[test]
fn largest_tile_slides_where_it_does_not_merge() {
    let top: u32 = 1 << 31;
    let board = grid([[0, 0, 0, top], [0; 4], [0; 4], [0; 4]]);
    assert!(!board.has_headroom());
    assert_eq!(board.slide(Direction::Left).cells(), [[top, 0, 0, 0], [0; 4], [0; 4], [0; 4]]);
    assert_eq!(board.slide(Direction::Down).cells(), [[0; 4], [0; 4], [0; 4], [0, 0, 0, top]]);
}

#[test]
fn slide_keeps_the_sum_of_the_grid() {
    let before: u32 = SAMPLE.iter().flatten().sum();
    for d in [Direction::Left, Direction::Right, Direction::Up, Direction::Down] {
        let after: u32 = grid(SAMPLE).slide(d).cells().iter().flatten().sum();
        assert_eq!(after, before);
    }
}

#[test]
fn slide_takes_one_tile_for_each_merge() {
    let moved = grid(SAMPLE).slide(Direction::Left);
    assert_eq!(grid(SAMPLE).empty_count(), 4);
    assert_eq!(moved.empty_count(), 9);
}

#[test]
fn checkerboard_has_no_move() {
    let board = grid([[2, 4, 2, 4], [4, 2, 4, 2], [2, 4, 2, 4], [4, 2, 4, 2]]);
    assert!(!has_any_move(&board));
}

#[test]
fn equal_neighbours_in_a_row_are_a_move() {
    let board = grid([[2, 4, 2, 4], [4, 8, 8, 2], [2, 4, 2, 4], [4, 2, 4, 2]]);
    assert!(has_any_move(&board));
}

#[test]
fn equal_neighbours_in_a_column_are_a_move() {
    let board = grid([[2, 4, 2, 4], [4, 2, 16, 2], [2, 4, 16, 4], [4, 2, 4, 2]]);
    assert!(has_any_move(&board));
}

#[test]
fn equal_pair_reaching_into_the_last_row_or_column_is_a_move() {
    let below = grid([[2, 4, 2, 4], [4, 2, 4, 2], [2, 4, 32, 4], [4, 2, 32, 2]]);
    assert!(has_any_move(&below));
    let beside = grid([[2, 4, 2, 4], [4, 2, 64, 64], [2, 4, 2, 4], [4, 2, 4, 2]]);
    assert!(has_any_move(&beside));
}

#[test]
fn two_empty_neighbours_are_a_move() {
    let board = grid([[0, 0, 2, 4], [4, 2, 4, 2], [2, 4, 2, 4], [4, 2, 4, 2]]);
    assert!(has_any_move(&board));
    assert!(has_any_move(&grid([[0; 4]; 4])));
}

#[test]
fn scan_does_not_compare_within_the_last_row() {
    let board = grid([[2, 4, 2, 4], [4, 2, 4, 2], [2, 4, 2, 4], [4, 2, 8, 8]]);
    assert!(!has_any_move(&board));
}

#[test]
fn scan_does_not_compare_within_the_last_column() {
    let board = grid([[2, 4, 2, 4], [4, 2, 4, 2], [2, 4, 2, 16], [4, 2, 4, 16]]);
    assert!(!has_any_move(&board));
}

#[test]
fn empty_count_counts_empty_cells() {
    assert_eq!(grid([[0; 4]; 4]).empty_count(), 16);
    assert_eq!(grid([[2, 4, 2, 4], [4, 2, 4, 2], [2, 4, 2, 4], [4, 2, 4, 2]]).empty_count(), 0);
    assert_eq!(grid(SAMPLE).empty_count(), 4);
}

#[test]
fn place_tile_fills_the_chosen_empty_cell() {
    let start = grid(SAMPLE);
    assert_eq!(
        start.place_tile(0, 1).cells(),
        [[2, 2, 2, 4], [2, 2, 2, 2], [0, 4, 4, 8], [16, 0, 0, 16]]
    );
    assert_eq!(
        start.place_tile(1, 2).cells(),
        [[2, 0, 2, 4], [2, 2, 2, 2], [4, 4, 4, 8], [16, 0, 0, 16]]
    );
    assert_eq!(
        start.place_tile(3, 1).cells(),
        [[2, 0, 2, 4], [2, 2, 2, 2], [0, 4, 4, 8], [16, 0, 2, 16]]
    );
}

#[test]
fn place_tile_reaches_the_first_and_the_last_cell() {
    let empty = grid([[0; 4]; 4]);
    assert_eq!(empty.place_tile(0, 2).cells(), [[4, 0, 0, 0], [0; 4], [0; 4], [0; 4]]);
    assert_eq!(empty.place_tile(15, 1).cells(), [[0; 4], [0; 4], [0; 4], [0, 0, 0, 2]]);
    assert_eq!(empty.place_tile(6, 1).cells(), [[0; 4], [0, 0, 2, 0], [0; 4], [0; 4]]);
}
