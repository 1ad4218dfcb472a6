use sudoku2::prelude::{Index, IndexBitSet};

#[test]
fn index_with_value() {
    let a = Index::new(80);
    let b = Index::new(17);
    let c = Index::new(2);

    let bitset = IndexBitSet::default().with_index(a).with_index(b);

    assert!(bitset.contains(a));
    assert!(bitset.contains(b));
    assert!(!bitset.contains(c));

    assert_eq!(bitset.len(), 2);
    assert!(!bitset.is_empty());
}

#[test]
fn insert() {
    let a = Index::new(80);
    let b = Index::new(17);
    let c = Index::new(2);

    let mut bitset = IndexBitSet::empty();
    bitset.insert(a);
    bitset.insert(b);

    assert!(bitset.contains(a));
    assert!(bitset.contains(b));
    assert!(!bitset.contains(c));

    assert_eq!(bitset.len(), 2);
    assert!(!bitset.is_empty());
}

#[test]
fn index_union() {
    let a = Index::new(80);
    let b = Index::new(17);
    let c = Index::new(2);

    let bitset_a = IndexBitSet::default().with_index(a);
    let bitset_b = IndexBitSet::default().with_index(b);
    let bitset = bitset_a.with_union(&bitset_b);

    assert!(bitset.contains(a));
    assert!(bitset.contains(b));
    assert!(!bitset.contains(c));
}

#[test]
fn index_without_value() {
    let a = Index::new(80);
    let b = Index::new(17);
    let c = Index::new(2);

    let bitset = IndexBitSet::default().with_index(a).with_index(b).with_index(c);
    let bitset = bitset.without_index(a).without_index(b);

    assert!(!bitset.contains(a));
    assert!(!bitset.contains(b));
    assert!(bitset.contains(c));
}

#[test]
fn index_from_u8_slice() {
    let a = Index::new(80);
    let b = Index::new(17);
    let c = Index::new(2);

    let bitset = IndexBitSet::from_iter(&[a, b]);

    assert!(bitset.contains(a));
    assert!(bitset.contains(b));
    assert!(!bitset.contains(c));
}

#[test]
fn index_iter() {
    let a = Index::new(80);
    let b = Index::new(17);

    let bitset = IndexBitSet::default().with_index(a).with_index(b);
    let mut iter = bitset.iter();

    assert_eq!(iter.next(), Some(b));
    assert_eq!(iter.next(), Some(a));
    assert_eq!(iter.next(), None);
    assert_eq!(iter.next(), None);
}

#[test]
fn iter_empty() {
    let bitset = IndexBitSet::empty();
    let mut iter = bitset.iter();

    assert!(iter.next().is_none());
    assert!(iter.next().is_none());
}

#[test]
fn try_insert_reports_newness() {
    let a = Index::new(40);
    let mut bitset = IndexBitSet::empty();
    assert!(bitset.try_insert(a));
    assert!(!bitset.try_insert(a));
    assert!(bitset.contains(a));
}

#[test]
fn overlap_detection() {
    let a = IndexBitSet::empty().with_index(Index::new(3)).with_index(Index::new(7));
    let b = IndexBitSet::empty().with_index(Index::new(7));
    let c = IndexBitSet::empty().with_index(Index::new(8));
    assert!(a.overlaps_with(&b));
    assert!(!a.overlaps_with(&c));
}
