use sudoku2::prelude::{Coordinate, Index};

#[test]
fn default_coordinate_to_index() {
    let coordinate = Coordinate::default();
    let index = coordinate.into_index();
    assert_eq!(index, Index::default());
    assert_eq!(index.describe(), String::from("0 × 0 (index 0)"));
}

#[test]
fn coordinate_to_index() {
    let coordinate = Coordinate::new(8, 8);
    let index = coordinate.into_index();
    assert_eq!(index, Index::new(80));
    assert_eq!(index.describe(), String::from("8 × 8 (index 80)"));
}
