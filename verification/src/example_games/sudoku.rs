//! Classic Sudoku examples with the standard rows, columns and blocks.

use crate::cell_group::CellGroups;
use crate::game::Game;
use crate::game_state::GameState;
use vstd::prelude::*;

verus! {

/// Produces an example Sudoku game.
///
/// The initial state holds the classic 30-clue puzzle whose first row
/// reads `5 3 . . 7 . . . .`; the expected solution is attached.
pub fn example_sudoku() -> (r: Game)
    ensures
        r.wf(),
        r.expected_solution is Some,
{
    let groups = CellGroups::default().with_default_sudoku_blocks().with_default_rows_and_columns();
    let x = 0u8;
    let state = GameState::new_from(
        [
            5, 3, x, x, 7, x, x, x, x, 6, x, x, 1, 9, 5, x, x, x, x, 9, 8, x, x, x, x, 6, x, 8, x,
            x, x, 6, x, x, x, 3, 4, x, x, 8, x, 3, x, x, 1, 7, x, x, x, 2, x, x, x, 6, x, 6, x, x,
            x, x, 2, 8, x, x, x, x, 4, 1, 9, x, x, 5, x, x, x, x, 8, x, x, 7, 9,
        ],
    );
    let solution = build_example_solution();
    Game { initial_state: state, groups, expected_solution: Some(solution) }
}

/// Produces an example Sudoku game (possibly unsolvable) with naked twins.
///
/// The first seven rows are fully placed; the remaining cells expose a
/// naked twin pair. The expected solution is attached.
pub fn example_sudoku_naked_twins() -> (r: Game)
    ensures
        r.wf(),
        r.expected_solution is Some,
{
    let groups = CellGroups::default().with_default_sudoku_blocks().with_default_rows_and_columns();
    let x = 0u8;
    let state = GameState::new_from(
        [
            5, 3, 4, 6, 7, 8, 9, 1, 2, 6, 7, 2, 1, 9, 5, 3, 4, 8, 1, 9, 8, 3, 4, 2, 5, 6, 7, 8, 5,
            9, 7, 6, 1, 4, 2, 3, 4, 2, 6, 8, 5, 3, 7, 9, 1, 7, 1, 3, 9, 2, 4, 8, 5, 6, 9, 6, 1, 5,
            3, 7, 2, 8, 4, x, x, x, x, x, x, x, x, x, x, x, x, x, x, x, x, x, x,
        ],
    );
    let solution = build_example_solution();
    Game { initial_state: state, groups, expected_solution: Some(solution) }
}

/// Produces an example Sudoku game (possibly unsolvable) with naked triples.
///
/// Only the first two rows are placed; they give rise to naked triples.
#[allow(dead_code)]
pub(crate) fn example_sudoku_naked_triples() -> (r: Game)
    ensures
        r.wf(),
        r.expected_solution is Some,
{
    let groups = CellGroups::default().with_default_sudoku_blocks().with_default_rows_and_columns();
    let x = 0u8;
    let state = GameState::new_from(
        [
            5, 3, 4, 6, 7, 8, 9, 1, 2, 6, 7, 2, 1, 9, 5, 3, 4, 8, x, x, x, x, x, x, x, x, x, x, x,
            x, x, x, x, x, x, x, x, x, x, x, x, x, x, x, x, x, x, x, x, x, x, x, x, x, x, x, x, x,
            x, x, x, x, x, x, x, x, x, x, x, x, x, x, x, x, x, x, x, x, x, x, x,
        ],
    );
    let solution = build_example_solution();
    Game { initial_state: state, groups, expected_solution: Some(solution) }
}

/// The canonical filled grid that the classic example puzzles reach.
fn build_example_solution() -> (r: GameState)
    ensures
        r.wf(),
{
    GameState::new_from(
        [
            5, 3, 4, 6, 7, 8, 9, 1, 2, 6, 7, 2, 1, 9, 5, 3, 4, 8, 1, 9, 8, 3, 4, 2, 5, 6, 7, 8, 5,
            9, 7, 6, 1, 4, 2, 3, 4, 2, 6, 8, 5, 3, 7, 9, 1, 7, 1, 3, 9, 2, 4, 8, 5, 6, 9, 6, 1, 5,
            3, 7, 2, 8, 4, 2, 8, 7, 4, 1, 9, 6, 3, 5, 3, 4, 5, 2, 8, 6, 1, 7, 9,
        ],
    )
}

} // verus!
