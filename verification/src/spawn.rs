//! Placing a new tile on a random empty cell.
use crate::grid::{empty_slots, spawned, valid_grid, Grid};
use rand::rngs::StdRng;
use rand::Rng;
use vstd::prelude::*;

verus! {

/// The random number generator of the `rand` crate that the engine draws
/// from. Nothing is known of its state.
#[verifier::external_type_specification]
#[verifier::external_body]
pub struct ExStdRng(rand::rngs::StdRng);

/// The fault of asking for a new tile on a grid without an empty cell.
#[derive(Clone, Copy, Debug, PartialEq, Eq)]
pub struct BoardInvariantViolation;

/// Trusted: `rand::Rng::gen_range` on the half-open range `low..high` of
/// `u32`. It panics on an empty range, so `low < high` is asked for; the
/// value it returns lies in the range. Which value comes is not stated.
#[verifier::external_body]
fn draw(rng: &mut StdRng, low: u32, high: u32) -> (value: u32)
    requires
        low < high,
    ensures
        low <= value < high,
{
    rng.gen_range(low..high)
}

/// Places a tile of value 2 or 4 on an empty cell of `grid`: the cell is
/// drawn evenly from the empty cells, the value evenly from the two.
pub(crate) fn spawn_on(grid: &Grid, rng: &mut StdRng) -> (out: Grid)
    requires
        empty_slots(grid@).len() > 0,
    ensures
        spawned(grid@, out@),
        valid_grid(out@),
{
    let count = grid.empty_count();
    let k = draw(rng, 0, count as u32);
    let factor = draw(rng, 1, 3);
    grid.place_tile(k as usize, factor)
}

/// Places a tile of value 2 or 4 on a random empty cell of `grid`, and fails
/// if the grid has no empty cell.
pub fn spawn_tile(grid: &Grid, rng: &mut StdRng) -> (made: Result<Grid, BoardInvariantViolation>)
    ensures
        made is Err <==> empty_slots(grid@).len() == 0,
        made matches Ok(out) ==> spawned(grid@, out@) && valid_grid(out@),
{
    if grid.empty_count() == 0 {
        Err(BoardInvariantViolation)
    } else {
        Ok(spawn_on(grid, rng))
    }
}

} // verus!
