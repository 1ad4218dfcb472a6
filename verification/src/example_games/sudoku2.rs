//! Classic Sudoku examples that exercise Hidden Singles and hard search.

use crate::cell_group::CellGroups;
use crate::game::Game;
use crate::game_state::GameState;
use vstd::prelude::*;

verus! {

/// Produces an example Sudoku game.
///
/// The puzzle stalls under Naked Singles alone; a hidden single (the 6
/// at column 3, row 2) unlocks it.
pub fn example_sudoku() -> (r: Game)
    ensures
        r.wf(),
        r.expected_solution is None,
{
    let groups = CellGroups::default().with_default_sudoku_blocks().with_default_rows_and_columns();
    let x = 0u8;
    let state = GameState::new_from(
        [
            x, 2, 8, x, x, 7, x, x, x, x, 1, 6, x, 8, 3, x, 7, x, x, x, x, x, 2, x, 8, 5, 1, 1, 3,
            7, 2, 9, x, x, x, x, x, x, x, 7, 3, x, x, x, x, x, x, x, x, 4, 6, 3, x, 7, 2, 9, x, x,
            7, x, x, x, x, x, x, x, 8, 6, x, 1, 4, x, x, x, x, 3, x, x, 7, x, x,
        ],
    );
    Game { initial_state: state, groups, expected_solution: None }
}

/// Produces an example Sudoku game with very few clues, forcing deep
/// backtracking search.
pub fn example_sudoku_hardest() -> (r: Game)
    ensures
        r.wf(),
        r.expected_solution is None,
{
    let groups = CellGroups::default().with_default_sudoku_blocks().with_default_rows_and_columns();
    let x = 0u8;
    let state = GameState::new_from(
        [
            x, 9, x, x, x, 2, x, x, x, x, x, x, 7, x, x, x, 8, x, x, 5, 4, x, 3, x, 7, x, x, 6, x,
            x, x, x, x, x, x, x, x, x, x, x, x, 1, x, x, 2, x, 7, 3, x, 5, x, 8, x, x, 9, x, x, x,
            x, x, 4, x, x, 8, x, x, x, 6, x, x, x, x, x, 4, 6, x, x, 5, x, 1, x,
        ],
    );
    Game { initial_state: state, groups, expected_solution: None }
}

} // verus!
