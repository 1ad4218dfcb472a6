use sudoku2::prelude::{GameCell, Index, IndexedGameCell, Value};

#[test]
pub fn indexed_cell_acts_like_cell() {
    let ic = IndexedGameCell::new(Index::default());

    assert_eq!(ic.index.get(), 0u8);
    assert!(!ic.is_solved());
    assert_eq!(ic.len(), 9);

    let mut values = Vec::new();
    let mut iter = ic.iter_candidates();
    while let Some(value) = iter.next() {
        values.push(value);
    }
    assert!(values.contains(&Value::new(1)));
    assert!(values.contains(&Value::new(2)));
    assert!(values.contains(&Value::new(3)));
    assert!(values.contains(&Value::new(4)));
    assert!(values.contains(&Value::new(5)));
    assert!(values.contains(&Value::new(6)));
    assert!(values.contains(&Value::new(7)));
    assert!(values.contains(&Value::new(8)));
    assert!(values.contains(&Value::new(9)));
}

#[test]
pub fn into_indexed() {
    let c = GameCell::default();
    assert_eq!(c.len(), 9);

    let mut values = Vec::new();
    let mut iter = c.iter_candidates();
    while let Some(value) = iter.next() {
        values.push(value);
    }
    assert!(values.contains(&Value::new(1)));
    assert!(values.contains(&Value::new(2)));
    assert!(values.contains(&Value::new(3)));
    assert!(values.contains(&Value::new(4)));
    assert!(values.contains(&Value::new(5)));
    assert!(values.contains(&Value::new(6)));
    assert!(values.contains(&Value::new(7)));
    assert!(values.contains(&Value::new(8)));
    assert!(values.contains(&Value::new(9)));

    let ic = c.into_indexed(Index::default());
    assert_eq!(ic.index.get(), 0u8);
    assert!(!ic.is_solved());
}

#[test]
fn solved_and_impossible_cells() {
    let solved = GameCell::from_value(Value::new(4));
    assert!(solved.is_solved());
    assert!(!solved.is_impossible());
    assert_eq!(solved.len(), 1);

    let empty = solved.without_value(Value::new(4));
    assert!(empty.is_impossible());
    assert!(empty.empty());
    assert_eq!(empty.len(), 0);
}
