use sudoku2::prelude::{CellGroup, CellGroups, Index};

#[test]
fn from_index_iter() {
    let cg = CellGroup::from_iter(&[Index::new(0), Index::new(2), Index::new(3)]);
    assert!(cg.contains(Index::new(0)));
    assert!(cg.contains(Index::new(2)));
    assert!(cg.contains(Index::new(3)));
    assert!(!cg.contains(Index::new(1)));
}

#[test]
fn from_u8_iter() {
    let cg = CellGroup::from_u8_slice(&[0, 2, 3]);
    assert!(cg.contains(Index::new(0)));
    assert!(cg.contains(Index::new(2)));
    assert!(cg.contains(Index::new(3)));
    assert!(!cg.contains(Index::new(1)));
}

#[test]
fn add_groups() {
    let group_a = CellGroup::default().with_indexes(
        &[
            Index::new(0),
            Index::new(1),
            Index::new(2),
            Index::new(9),
            Index::new(10),
            Index::new(11),
            Index::new(18),
            Index::new(19),
            Index::new(20),
        ],
    );

    let group_b = CellGroup::default().with_indexes(
        &[
            Index::new(3),
            Index::new(4),
            Index::new(5),
            Index::new(12),
            Index::new(13),
            Index::new(14),
            Index::new(21),
            Index::new(22),
            Index::new(23),
        ],
    );

    let mut groups = CellGroups::default();
    groups.add_group(group_a);
    groups.add_group(group_b);
    assert_eq!(groups.iter().len(), 2);
}

#[test]
fn peer_lookup_covers_row_column_and_block() {
    let groups = CellGroups::default().with_default_sudoku_blocks().with_default_rows_and_columns();
    let peers = groups
        .get_peers_at_index(Index::new(0), sudoku2::prelude::CollectIndexes::ExcludeSelf)
        .unwrap();
    // Row, column and block of the corner cell.
    assert!(peers.contains(Index::new(1)));
    assert!(peers.contains(Index::new(8)));
    assert!(peers.contains(Index::new(9)));
    assert!(peers.contains(Index::new(72)));
    assert!(peers.contains(Index::new(10)));
    assert!(peers.contains(Index::new(20)));
    assert!(!peers.contains(Index::new(0)));
    assert!(!peers.contains(Index::new(30)));
    assert_eq!(peers.len(), 20);
}

#[test]
fn lookup_without_groups_is_an_error() {
    let groups = CellGroups::default();
    let lookup = groups.get_groups_at_index(Index::new(5));
    assert!(lookup.is_err());
    let peers = groups
        .get_peers_at_index(Index::new(5), sudoku2::prelude::CollectIndexes::IncludeSelf);
    assert!(peers.is_err());
}
