//! A classic Sudoku example with an X-Wing configuration.

use crate::cell_group::CellGroups;
use crate::game::Game;
use crate::game_state::GameState;
use vstd::prelude::*;

verus! {

/// Produces an example Sudoku game whose propagation-only solution
/// requires an X-Wing elimination.
pub fn example_sudoku() -> (r: Game)
    ensures
        r.wf(),
        r.expected_solution is None,
{
    let groups = CellGroups::default().with_default_sudoku_blocks().with_default_rows_and_columns();
    let x = 0u8;
    let state = GameState::new_from(
        [
            9, x, x, 8, 6, 1, x, x, 5, x, 8, 7, 5, 4, 2, x, x, 9, x, x, x, 9, 7, 3, x, x, 2, 8, x,
            x, x, x, 4, 1, x, 3, x, 6, 1, x, 3, 5, 9, 4, 8, 4, x, 3, 1, 8, x, x, x, 7, 5, 1, x, x,
            x, 7, x, x, 6, x, x, x, x, 5, 8, 2, 9, 1, x, x, 8, 3, 1, x, x, x, 4,
        ],
    );
    Game { initial_state: state, groups, expected_solution: None }
}

} // verus!
