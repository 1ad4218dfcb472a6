use sudoku2::prelude::{GameState, Index, Value};

fn game_state() -> GameState {
    let x = 0u8;
    GameState::new_from([
        x, 2, 8, x, x, 7, x, x, x, //
        x, 1, 6, x, 8, 3, x, 7, x, //
        x, x, x, x, 2, x, 8, 5, 1, //
        1, 3, 7, 2, 9, x, x, x, x, //
        x, x, x, 7, 3, x, x, x, x, //
        x, x, x, x, 4, 6, 3, x, 7, //
        2, 9, x, x, 7, x, x, x, x, //
        x, x, x, 8, 6, x, 1, 4, x, //
        x, x, x, 3, x, x, 7, x, x, //
    ])
}

#[test]
fn from_array() {
    let test_state = game_state();

    let mut expected_state = GameState::new();
    expected_state.set_at_xy(1, 0, Value::new(2));
    expected_state.set_at_xy(2, 0, Value::new(8));
    expected_state.set_at_xy(5, 0, Value::new(7));

    expected_state.set_at_xy(1, 1, Value::new(1));
    expected_state.set_at_xy(2, 1, Value::new(6));
    expected_state.set_at_xy(4, 1, Value::new(8));
    expected_state.set_at_xy(5, 1, Value::new(3));
    expected_state.set_at_xy(7, 1, Value::new(7));

    expected_state.set_at_xy(4, 2, Value::new(2));
    expected_state.set_at_xy(6, 2, Value::new(8));
    expected_state.set_at_xy(7, 2, Value::new(5));
    expected_state.set_at_xy(8, 2, Value::new(1));

    expected_state.set_at_xy(0, 3, Value::new(1));
    expected_state.set_at_xy(1, 3, Value::new(3));
    expected_state.set_at_xy(2, 3, Value::new(7));
    expected_state.set_at_xy(3, 3, Value::new(2));
    expected_state.set_at_xy(4, 3, Value::new(9));

    expected_state.set_at_xy(3, 4, Value::new(7));
    expected_state.set_at_xy(4, 4, Value::new(3));

    expected_state.set_at_xy(4, 5, Value::new(4));
    expected_state.set_at_xy(5, 5, Value::new(6));
    expected_state.set_at_xy(6, 5, Value::new(3));
    expected_state.set_at_xy(8, 5, Value::new(7));

    expected_state.set_at_xy(0, 6, Value::new(2));
    expected_state.set_at_xy(1, 6, Value::new(9));
    expected_state.set_at_xy(4, 6, Value::new(7));

    expected_state.set_at_xy(3, 7, Value::new(8));
    expected_state.set_at_xy(4, 7, Value::new(6));
    expected_state.set_at_xy(6, 7, Value::new(1));
    expected_state.set_at_xy(7, 7, Value::new(4));

    expected_state.set_at_xy(3, 8, Value::new(3));
    expected_state.set_at_xy(6, 8, Value::new(7));

    assert_eq!(expected_state, test_state);
}

#[test]
fn iter_cells() {
    let state = game_state();
    let mut iter = state.iter_cells();

    for index in Index::range() {
        let cell = state.get_at_index(index);
        assert_eq!(iter.next().unwrap(), cell);
    }

    assert!(iter.next().is_none());
}

#[test]
fn game_state_iter() {
    let state = game_state();
    let mut iter = state.iter();

    for index in Index::range() {
        let cell = state.get_at_index(index);
        assert_eq!(iter.next().unwrap(), cell);
    }

    assert!(iter.next().is_none());
}

#[test]
fn iter_indexed() {
    let state = game_state();
    let mut iter = state.iter_indexed();

    for index in Index::range() {
        let cell = state.get_at_index(index);
        assert_eq!(iter.next().unwrap(), cell.into_indexed(index));
    }

    assert!(iter.next().is_none());
}

#[test]
fn forget_narrows_single_cell() {
    let mut state = GameState::new();
    let idx = Index::new(17);
    assert!(state.forget_at_index(idx, Value::new(3)));
    assert!(!state.get_at_index(idx).contains(Value::new(3)));
    assert_eq!(state.get_at_index(idx).len(), 8);
    // Forgetting it again changes nothing.
    assert!(!state.forget_at_index(idx, Value::new(3)));
    // Other cells are untouched.
    assert_eq!(state.get_at_index(Index::new(16)).len(), 9);
}
