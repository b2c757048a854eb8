//! The board engine: it owns the grid and applies one move at a time.
use crate::grid::{
    any_move, fits_cells, has_any_move, lemma_changed_leaves_room, slid, spawned, valid_grid,
    Direction, Grid,
};
use crate::spawn::spawn_on;
use rand::rngs::StdRng;
use vstd::prelude::*;

verus! {

/// What one move did.
#[derive(Clone, Copy, Debug)]
pub struct MoveOutcome {
    /// The grid after the move.
    pub board: Grid,
    /// Whether the slide changed the grid.
    pub changed: bool,
    /// Whether the grid after the move is terminal.
    pub lost: bool,
}

/// The owner of the grid and of the random source that new tiles are drawn
/// from.
pub struct BoardEngine {
    grid: Grid,
    rng: StdRng,
}

impl View for BoardEngine {
    type V = Seq<Seq<nat>>;

    closed spec fn view(&self) -> Seq<Seq<nat>> {
        self.grid@
    }
}

impl BoardEngine {
    /// The random source in its present state.
    pub closed spec fn source(&self) -> StdRng {
        self.rng
    }

    /// An engine that starts from `grid` and draws from `rng`.
    pub fn new(grid: Grid, rng: StdRng) -> (engine: BoardEngine)
        ensures
            engine@ == grid@,
            engine.source() == rng,
    {
        BoardEngine { grid, rng }
    }

    /// The current grid.
    pub fn grid(&self) -> (grid: Grid)
        ensures
            grid@ == self@,
    {
        self.grid
    }

    /// Applies one move: every line slides toward the edge that `d` leads to
    /// and merges its equal neighbours. If that changed the grid, a tile of
    /// value 2 or 4 is placed on a random empty cell; if not, the grid stays
    /// as it was and nothing is drawn. The outcome says whether the grid
    /// after the move is terminal. The grid after the slide has to fit in the
    /// cells; a grid with headroom does in every direction.
    pub fn apply_move(&mut self, d: Direction) -> (outcome: MoveOutcome)
        requires
            fits_cells(slid(old(self)@, d)),
        ensures
            outcome.changed == (slid(old(self)@, d) != old(self)@),
            outcome.changed ==> spawned(slid(old(self)@, d), outcome.board@),
            !outcome.changed ==> outcome.board@ == old(self)@ && final(self).source() == old(
                self,
            ).source(),
            outcome.lost == !any_move(outcome.board@),
            final(self)@ == outcome.board@,
            valid_grid(outcome.board@),
    {
        let before = self.grid;
        let moved = before.slide(d);
        let changed = !(moved == before);
        let board = if changed {
            proof {
                use_type_invariant(&before);
                lemma_changed_leaves_room(before@, d);
            }
            spawn_on(&moved, &mut self.rng)
        } else {
            before
        };
        self.grid = board;
        proof {
            use_type_invariant(&board);
        }
        let lost = !has_any_move(&board);
        MoveOutcome { board, changed, lost }
    }
}

} // verus!
