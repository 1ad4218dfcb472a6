//! A puzzle: an initial board, its region topology, and optionally the
//! solution it is expected to reach.

use crate::cell_group::CellGroups;
use crate::game_state::GameState;
use vstd::prelude::*;

verus! {

/// A Sudoku game.
pub struct Game {
    /// The initial state of the game.
    pub initial_state: GameState,
    /// The groups of the game cells.
    pub groups: CellGroups,
    /// An expected solution, if available, for comparison.
    pub expected_solution: Option<GameState>,
}

impl Game {
    /// A playable game: a well-formed board over a topology that gives
    /// every cell a peer.
    pub open spec fn wf(self) -> bool {
        &&& self.initial_state.wf()
        &&& self.groups.wf()
        &&& self.groups.peered()
        &&& self.expected_solution matches Some(s) ==> s.wf()
    }
}

} // verus!
