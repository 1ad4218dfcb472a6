use sudoku2::example_games;
use sudoku2::prelude::DefaultSolver;

#[test]
fn solving_sudoku_works() {
    let game = example_games::sudoku::example_sudoku();
    let solver = DefaultSolver::new(&game.groups);
    let result = solver.solve(&game.initial_state);
    assert!(result.is_ok());

    let solution = result.unwrap();
    assert!(solution.is_consistent(&game.groups));
    assert!(solution.is_solved(&game.groups));
}

#[test]
fn solving_sudoku_with_hidden_singles() {
    let game = example_games::sudoku2::example_sudoku();
    let solver = DefaultSolver::new(&game.groups);
    let result = solver.solve(&game.initial_state);
    assert!(result.is_ok());

    let solution = result.unwrap();
    assert!(solution.is_consistent(&game.groups));
    assert!(solution.is_solved(&game.groups));
}

#[test]
fn solving_sudoku_with_naked_twins() {
    let game = example_games::sudoku::example_sudoku_naked_twins();
    let solver = DefaultSolver::new(&game.groups);
    let result = solver.solve(&game.initial_state);
    assert!(result.is_ok());

    let solution = result.unwrap();
    assert!(solution.is_consistent(&game.groups));
    assert!(solution.is_solved(&game.groups));
}

#[test]
fn solving_sudoku_with_naked_xwings() {
    let game = example_games::sudoku_xwings::example_sudoku();
    let solver = DefaultSolver::new(&game.groups);
    let result = solver.solve(&game.initial_state);
    assert!(result.is_ok());

    let solution = result.unwrap();
    assert!(solution.is_consistent(&game.groups));
    assert!(solution.is_solved(&game.groups));
}

#[test]
fn solving_nonomino() {
    let game = example_games::nonomino::example_nonomino();
    let solver = DefaultSolver::new(&game.groups);
    let result = solver.solve(&game.initial_state);
    assert!(result.is_ok());

    let solution = result.unwrap();
    assert!(solution.is_consistent(&game.groups));
    assert!(solution.is_solved(&game.groups));
}

#[test]
fn solving_hypersudoku() {
    let game = example_games::hypersudoku::example_hypersudoku();
    let solver = DefaultSolver::new(&game.groups);
    let result = solver.solve(&game.initial_state);
    assert!(result.is_ok());

    let solution = result.unwrap();
    assert!(solution.is_consistent(&game.groups));
    assert!(solution.is_solved(&game.groups));
}

#[test]
fn solving_hardest() {
    let game = example_games::sudoku2::example_sudoku_hardest();
    let solver = DefaultSolver::new(&game.groups);
    let result = solver.solve(&game.initial_state);
    assert!(result.is_ok());

    let solution = result.unwrap();
    assert!(solution.is_consistent(&game.groups));
    assert!(solution.is_solved(&game.groups));
}
