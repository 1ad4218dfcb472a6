//! A solver for generalized 9x9 Latin-square puzzles (classic Sudoku,
//! Nonomino/jigsaw layouts, Hypersudoku windows) built from deductive
//! constraint propagation and heuristic backtracking search.

pub mod bits;
pub mod cell_group;
pub mod coordinate;
pub mod default_solver;
pub mod example_games;
pub mod game;
pub mod game_cell;
pub mod game_state;
pub mod index;
pub mod prelude;
pub mod state_stack;
pub mod strategies;
pub mod value;

use vstd::prelude::*;

verus! {

/// Adds two numbers.
pub fn add(left: usize, right: usize) -> (r: usize)
    requires
        left + right <= usize::MAX,
    ensures
        r == left + right,
{
    left + right
}

} // verus!
