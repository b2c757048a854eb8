use rand::rngs::StdRng;
use rand::SeedableRng;
use tile_board::engine::BoardEngine;
use tile_board::grid::{has_any_move, Direction, Grid};
use tile_board::spawn::{spawn_tile, BoardInvariantViolation};

const START: [[u32; 4]; 4] = [[2, 0, 0, 4], [0, 0, 0, 0], [0, 0, 2, 0], [0, 0, 0, 0]];

const CHECKERBOARD: [[u32; 4]; 4] = [[2, 4, 2, 4], [4, 2, 4, 2], [2, 4, 2, 4], [4, 2, 4, 2]];

const DIRECTIONS: [Direction; 4] =
    [Direction::Left, Direction::Right, Direction::Up, Direction::Down];

fn grid(cells: [[u32; 4]; 4]) -> Grid {
    Grid::new(cells).expect("valid cells")
}

fn engine(cells: [[u32; 4]; 4], seed: u64) -> BoardEngine {
    BoardEngine::new(grid(cells), StdRng::seed_from_u64(seed))
}

fn total(cells: [[u32; 4]; 4]) -> u32 {
    cells.iter().flatten().sum()
}

fn tiles(cells: [[u32; 4]; 4]) -> usize {
    cells.iter().flatten().filter(|v| **v != 0).count()
}

/// The cells in which `after` differs from `before`, each with both values.
fn changes(before: [[u32; 4]; 4], after: [[u32; 4]; 4]) -> Vec<(usize, usize, u32, u32)> {
    let mut out = Vec::new();
    for r in 0..4 {
        for c in 0..4 {
            if before[r][c] != after[r][c] {
                out.push((r, c, before[r][c], after[r][c]));
            }
        }
    }
    out
}

#[test]
fn engine_starts_from_the_given_grid() {
    assert_eq!(engine(START, 1).grid().cells(), START);
}

#[test]
fn changed_move_spawns_one_tile_on_an_empty_cell() {
    for seed in 0..50 {
        for d in DIRECTIONS {
            let mut e = engine(START, seed);
            let slid = grid(START).slide(d).cells();
            let outcome = e.apply_move(d);
            assert!(outcome.changed);
            let diff = changes(slid, outcome.board.cells());
            assert_eq!(diff.len(), 1);
            let (_, _, old, new) = diff[0];
            assert_eq!(old, 0);
            assert!(new == 2 || new == 4);
        }
    }
}

#[test]
fn changed_move_adds_the_new_tile_to_the_total() {
    for seed in 0..20 {
        let cells = [[2, 0, 2, 4], [2, 2, 2, 2], [0, 4, 4, 8], [16, 0, 0, 16]];
        let mut e = engine(cells, seed);
        let outcome = e.apply_move(Direction::Left);
        let after = total(outcome.board.cells());
        assert!(after == total(cells) + 2 || after == total(cells) + 4);
    }
}

#[test]
fn changed_move_counts_tiles_by_merges_and_the_spawn() {
    let cells = [[2, 0, 2, 4], [2, 2, 2, 2], [0, 4, 4, 8], [16, 0, 0, 16]];
    let mut e = engine(cells, 3);
    let outcome = e.apply_move(Direction::Left);
    assert_eq!(tiles(cells), 12);
    assert_eq!(tiles(outcome.board.cells()), 12 - 5 + 1);
}

#[test]
fn changed_move_keeps_every_tile_a_power_of_two() {
    let mut e = engine(START, 11);
    for step in 0..200 {
        let outcome = e.apply_move(DIRECTIONS[step % 4]);
        for v in outcome.board.cells().iter().flatten() {
            assert!(*v == 0 || (*v >= 2 && v.is_power_of_two()));
        }
        assert!(Grid::new(outcome.board.cells()).is_some());
    }
}

#[test]
fn engine_keeps_the_board_of_the_outcome() {
    let mut e = engine(START, 5);
    let outcome = e.apply_move(Direction::Down);
    assert_eq!(e.grid(), outcome.board);
}

#[test]
fn move_without_effect_leaves_the_grid_and_spawns_nothing() {
    let cells = [[2, 0, 0, 0], [4, 0, 0, 0], [2, 0, 0, 0], [4, 0, 0, 0]];
    let mut e = engine(cells, 9);
    let outcome = e.apply_move(Direction::Left);
    assert!(!outcome.changed);
    assert_eq!(outcome.board.cells(), cells);
    assert_eq!(e.grid().cells(), cells);
    let outcome = e.apply_move(Direction::Up);
    assert!(!outcome.changed);
    assert_eq!(outcome.board.cells(), cells);
}

#[test]
fn move_without_effect_draws_nothing() {
    let cells = [[2, 0, 0, 0], [4, 0, 0, 0], [2, 0, 0, 0], [4, 0, 0, 0]];
    let mut idle = engine(cells, 21);
    assert!(!idle.apply_move(Direction::Left).changed);
    assert!(!idle.apply_move(Direction::Up).changed);
    let mut fresh = engine(cells, 21);
    assert_eq!(
        idle.apply_move(Direction::Right).board,
        fresh.apply_move(Direction::Right).board
    );
}

#[test]
fn same_seed_gives_the_same_game() {
    let mut a = engine(START, 77);
    let mut b = engine(START, 77);
    for step in 0..100 {
        let d = DIRECTIONS[(step * 7 + step / 3) % 4];
        let x = a.apply_move(d);
        let y = b.apply_move(d);
        assert_eq!(x.board, y.board);
        assert_eq!(x.changed, y.changed);
        assert_eq!(x.lost, y.lost);
    }
}

#[test]
fn lost_says_that_the_scan_finds_no_move() {
    let mut e = engine(START, 13);
    for step in 0..300 {
        let outcome = e.apply_move(DIRECTIONS[step % 4]);
        assert_eq!(outcome.lost, !has_any_move(&outcome.board));
    }
}

#[test]
fn move_on_a_terminal_grid_reports_the_loss() {
    for d in DIRECTIONS {
        let mut e = engine(CHECKERBOARD, 2);
        let outcome = e.apply_move(d);
        assert!(!outcome.changed);
        assert!(outcome.lost);
        assert_eq!(outcome.board.cells(), CHECKERBOARD);
    }
}

#[test]
fn move_that_leaves_room_is_not_lost() {
    let mut e = engine(START, 4);
    let outcome = e.apply_move(Direction::Left);
    assert!(outcome.changed);
    assert!(!outcome.lost);
}

#[test]
fn merge_on_a_full_grid_makes_room_for_the_spawn() {
    let cells = [[2, 2, 4, 8], [4, 8, 16, 32], [2, 4, 8, 16], [4, 8, 16, 32]];
    for seed in 0..20 {
        let mut e = engine(cells, seed);
        let outcome = e.apply_move(Direction::Left);
        assert!(outcome.changed);
        let board = outcome.board.cells();
        assert_eq!(&board[0][..3], &[4, 4, 8]);
        assert!(board[0][3] == 2 || board[0][3] == 4);
        assert_eq!(&board[1..], &cells[1..]);
    }
}

#[test]
fn spawn_on_a_full_grid_fails() {
    let mut rng = StdRng::seed_from_u64(1);
    assert_eq!(spawn_tile(&grid(CHECKERBOARD), &mut rng), Err(BoardInvariantViolation));
}

#[test]
fn spawn_fills_the_only_empty_cell() {
    let mut cells = CHECKERBOARD;
    cells[1][2] = 0;
    for seed in 0..20 {
        let mut rng = StdRng::seed_from_u64(seed);
        let out = spawn_tile(&grid(cells), &mut rng).expect("one cell is empty");
        let diff = changes(cells, out.cells());
        assert_eq!(diff.len(), 1);
        let (r, c, old, new) = diff[0];
        assert_eq!((r, c, old), (1, 2, 0));
        assert!(new == 2 || new == 4);
    }
}

#[test]
fn spawn_draws_both_values_and_many_cells() {
    let empty = grid([[0; 4]; 4]);
    let mut values = std::collections::BTreeSet::new();
    let mut cells = std::collections::BTreeSet::new();
    for seed in 0..400 {
        let mut rng = StdRng::seed_from_u64(seed);
        let out = spawn_tile(&empty, &mut rng).expect("the grid is empty");
        let diff = changes([[0; 4]; 4], out.cells());
        assert_eq!(diff.len(), 1);
        let (r, c, _, new) = diff[0];
        values.insert(new);
        cells.insert((r, c));
    }
    assert_eq!(values.into_iter().collect::<Vec<u32>>(), vec![2, 4]);
    assert_eq!(cells.len(), 16);
}

#[test]
fn spawn_twice_from_one_source_draws_anew() {
    let empty = grid([[0; 4]; 4]);
    let mut rng = StdRng::seed_from_u64(8);
    let mut seen = std::collections::BTreeSet::new();
    for _ in 0..200 {
        let out = spawn_tile(&empty, &mut rng).expect("the grid is empty");
        seen.insert(out.cells());
    }
    assert!(seen.len() > 16);
}
