use sudoku2::add;
use sudoku2::example_games;
use sudoku2::prelude::{
    CellGroups, CellGroupType, DefaultSolver, DefaultSolverConfig, GameState, Index, Value,
    ValueBitSet,
};
use sudoku2::strategies::naked_singles::NakedSingles;
use sudoku2::strategies::naked_twins::NakedTwins;
use sudoku2::strategies::StrategyResult;

#[test]
fn it_works() {
    let result = add(2, 2);
    assert_eq!(result, 4);
}

#[test]
fn solving_empty_board() {
    // A fully open board with the standard topology still reaches a
    // complete, consistent solution.
    let groups = CellGroups::default().with_default_sudoku_blocks().with_default_rows_and_columns();
    let state = GameState::new();
    let solver = DefaultSolver::new(&groups);
    let result = solver.solve(&state);
    assert!(result.is_ok());

    let solution = result.unwrap();
    assert!(solution.is_consistent(&groups));
    assert!(solution.is_solved(&groups));
}

#[test]
fn classic_puzzle_matches_expected() {
    // The classic 30-clue puzzle has a unique solution; the solver must
    // reproduce it cell for cell.
    let game = example_games::sudoku::example_sudoku();
    let solver = DefaultSolver::new(&game.groups);
    let solution = solver.solve(&game.initial_state).unwrap();
    assert_eq!(solution, game.expected_solution.unwrap());
}

#[test]
fn hidden_singles_puzzle_without_hidden_singles() {
    // Without Hidden Singles the puzzle is no longer solvable by
    // propagation alone, but the backtracking search still succeeds.
    let game = example_games::sudoku2::example_sudoku();
    let config = DefaultSolverConfig {
        hidden_singles: false,
        naked_twins: true,
        hidden_twins: true,
        xwings: true,
    };
    let solver = DefaultSolver::new_with(&game.groups, &config);
    let solution = solver.solve(&game.initial_state).unwrap();
    assert!(solution.is_consistent(&game.groups));
    assert!(solution.is_solved(&game.groups));
}

#[test]
fn xwing_puzzle_without_xwings() {
    // Disabling X-Wing must not produce a wrong solution: the search
    // still reaches a correct one, just with more forks.
    let game = example_games::sudoku_xwings::example_sudoku();
    let config = DefaultSolverConfig {
        hidden_singles: true,
        naked_twins: true,
        hidden_twins: true,
        xwings: false,
    };
    let solver = DefaultSolver::new_with(&game.groups, &config);
    let solution = solver.solve(&game.initial_state).unwrap();
    assert!(solution.is_consistent(&game.groups));
    assert!(solution.is_solved(&game.groups));
}

#[test]
fn nonomino_matches_expected() {
    let game = example_games::nonomino::example_nonomino();
    let solver = DefaultSolver::new(&game.groups);
    let solution = solver.solve(&game.initial_state).unwrap();
    assert_eq!(solution, game.expected_solution.unwrap());
}

#[test]
fn hypersudoku_matches_expected() {
    let game = example_games::hypersudoku::example_hypersudoku();
    let solver = DefaultSolver::new(&game.groups);
    let solution = solver.solve(&game.initial_state).unwrap();
    assert_eq!(solution, game.expected_solution.unwrap());
}

#[test]
fn contradiction_detection() {
    // Three cells of one row sharing an identical two-value candidate
    // set are a pigeonhole contradiction: Naked Twins must fail with an
    // invalid state instead of silently matching nothing.
    let groups = CellGroups::default().with_default_rows_and_columns();
    let mut state = GameState::new();
    let pair = ValueBitSet::empty().with_value(Value::new(1)).with_value(Value::new(2));
    state.set_many_at_index(Index::new(0), pair);
    state.set_many_at_index(Index::new(1), pair);
    state.set_many_at_index(Index::new(2), pair);

    let twins = NakedTwins::new_box(true);
    let result = twins.apply_in_group(&mut state, &groups, CellGroupType::StandardRow);
    assert!(result.is_err());

    let through_apply = twins.apply(&mut state, &groups);
    assert!(through_apply.is_err());
}

#[test]
fn naked_singles_idempotent_once_stable() {
    // Once a Naked Singles pass reports no change, a second pass reports
    // no change either and leaves the board alone.
    let groups = CellGroups::default().with_default_sudoku_blocks().with_default_rows_and_columns();
    let mut state = GameState::new();
    state.set_at_xy(0, 0, Value::new(5));
    state.set_at_xy(4, 4, Value::new(7));

    let singles = NakedSingles::new_box();
    let mut guard = 0;
    loop {
        let result = singles.apply(&mut state, &groups).unwrap();
        if result == StrategyResult::NoChange {
            break;
        }
        guard += 1;
        assert!(guard < 100);
    }
    let again = singles.apply(&mut state, &groups).unwrap();
    assert_eq!(again, StrategyResult::NoChange);
}

#[test]
fn propagation_is_monotonic() {
    // Propagation never re-adds a candidate: every candidate set after a
    // strategy pass is a subset of what it was before.
    let game = example_games::sudoku::example_sudoku();
    let mut state = game.initial_state.clone();
    let before = state.clone();

    let singles = NakedSingles::new_box();
    singles.apply(&mut state, &game.groups).unwrap();

    for index in Index::range() {
        let narrowed = state.get_at_index(index);
        let wide = before.get_at_index(index);
        for v in 1..=9u8 {
            if narrowed.contains(Value::new(v)) {
                assert!(wide.contains(Value::new(v)));
            }
        }
    }
}

#[test]
fn unsolvable_board_reports_failure() {
    // Two equal clues in one row make the board inconsistent; the search
    // exhausts its stack and hands back the last board it examined.
    let groups = CellGroups::default().with_default_sudoku_blocks().with_default_rows_and_columns();
    let x = 0u8;
    let state = GameState::new_from([
        5, 5, x, x, x, x, x, x, x, //
        x, x, x, x, x, x, x, x, x, //
        x, x, x, x, x, x, x, x, x, //
        x, x, x, x, x, x, x, x, x, //
        x, x, x, x, x, x, x, x, x, //
        x, x, x, x, x, x, x, x, x, //
        x, x, x, x, x, x, x, x, x, //
        x, x, x, x, x, x, x, x, x, //
        x, x, x, x, x, x, x, x, x, //
    ]);
    let solver = DefaultSolver::new(&groups);
    let result = solver.solve(&state);
    assert!(result.is_err());
}

#[test]
fn place_and_propagate_clears_peers() {
    let groups = CellGroups::default().with_default_sudoku_blocks().with_default_rows_and_columns();
    let mut state = GameState::new();
    let changed = state.place_and_propagate_at_index(Index::new(0), Value::new(5), &groups);
    assert!(changed);
    assert!(state.get_at_index(Index::new(0)).is_exactly(Value::new(5)));
    // Row, column and block peers lost the candidate.
    assert!(!state.get_at_index(Index::new(1)).contains(Value::new(5)));
    assert!(!state.get_at_index(Index::new(9)).contains(Value::new(5)));
    assert!(!state.get_at_index(Index::new(10)).contains(Value::new(5)));
    // A cell sharing no group keeps it.
    assert!(state.get_at_index(Index::new(40)).contains(Value::new(5)));
}

#[test]
fn naked_singles_runs_twice_without_change() {
    // One application stabilizes the board completely, so a second
    // application in a row never reports a further change.
    let groups = CellGroups::default().with_default_sudoku_blocks().with_default_rows_and_columns();
    let x = 0u8;
    let mut state = GameState::new_from([
        x, x, x, x, x, x, x, x, 5, //
        x, x, x, x, x, x, x, x, x, //
        x, x, x, x, x, x, x, x, x, //
        x, x, x, x, x, x, x, x, x, //
        x, x, x, x, x, x, x, x, x, //
        x, x, x, x, x, x, x, x, x, //
        x, x, x, x, x, x, x, x, x, //
        x, x, x, x, x, x, x, x, x, //
        x, x, x, x, x, x, x, x, x, //
    ]);
    // Narrow two other cells so the first pass cascades into fresh
    // singles behind the cursor.
    let pair_a = ValueBitSet::empty().with_value(Value::new(2)).with_value(Value::new(5));
    let pair_b = ValueBitSet::empty().with_value(Value::new(2)).with_value(Value::new(7));
    state.set_many_at_index(Index::new(0), pair_a);
    state.set_many_at_index(Index::new(1), pair_b);

    let singles = NakedSingles::new_box();
    singles.apply(&mut state, &groups).unwrap();
    let again = singles.apply(&mut state, &groups).unwrap();
    assert_eq!(again, StrategyResult::NoChange);
}

#[test]
fn hidden_twins_collapses_lone_pair() {
    // Cells 0 and 1 of a row share exactly the candidates 1 and 2 while
    // cell 0 still holds a third one; the rule must collapse the pair.
    let groups = CellGroups::default().with_default_rows_and_columns();
    let mut state = GameState::new();
    let wide = ValueBitSet::empty().with_value(Value::new(1)).with_value(Value::new(2)).with_value(
        Value::new(3),
    );
    let narrow = ValueBitSet::empty().with_value(Value::new(1)).with_value(Value::new(2)).with_value(
        Value::new(4),
    );
    let others = ValueBitSet::empty().with_value(Value::new(5)).with_value(Value::new(6));
    state.set_many_at_index(Index::new(0), wide);
    state.set_many_at_index(Index::new(1), narrow);
    for i in 2..81u8 {
        state.set_many_at_index(Index::new(i), others);
    }

    let twins = sudoku2::strategies::hidden_twins::HiddenTwins::new_box(true);
    let result = twins
        .apply_in_group(&mut state, &groups, CellGroupType::StandardRow)
        .unwrap();
    assert_eq!(result, StrategyResult::AppliedChange);
    assert!(state.get_at_index(Index::new(0)).contains(Value::new(1)));
    assert!(state.get_at_index(Index::new(0)).contains(Value::new(2)));
    assert!(!state.get_at_index(Index::new(0)).contains(Value::new(3)));
    assert_eq!(state.get_at_index(Index::new(0)).len(), 2);
}
