//! The state a learned policy keys on.  Training and persistence live
//! outside this crate; only the board-derived state is modelled here.

use vstd::prelude::*;

use crate::game::Game;

verus! {

/// The raw cells a learned policy uses as its state key.
#[derive(Clone, Copy, PartialEq, Eq, Hash, Debug)]
pub struct GameState {
    /// The 16 cell exponents, row-major.
    pub state: [u8; 16],
}

/// A learning agent's view of the game: just the current state key.
#[derive(Clone, Copy, PartialEq, Eq, Hash, Debug)]
pub struct RLAgent {
    /// The state the agent currently sees.
    pub state: GameState,
}

impl RLAgent {
    /// Captures a board's cells as a policy state.
    pub fn new(game: Game) -> (r: RLAgent)
        ensures
            r.state.state@ == game@.cells,
    {
        RLAgent { state: GameState { state: *game.get_state() } }
    }
}

} // verus!
