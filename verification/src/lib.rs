//! Board transition engine for a sliding-tile puzzle on a 4x4 grid.
//!
//! A move slides every line of the grid toward one edge, merges equal
//! neighbours once, and, when anything changed, places a new tile of value
//! 2 or 4 on an empty cell.
pub mod engine;
pub mod grid;
pub mod laws;
pub mod line;
pub mod spawn;
pub mod tile;

pub use engine::{BoardEngine, MoveOutcome};
pub use grid::{has_any_move, Direction, Grid};
pub use spawn::{spawn_tile, BoardInvariantViolation};
