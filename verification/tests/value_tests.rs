use sudoku2::prelude::{Value, ValueBitSet};

#[test]
fn value_with_value() {
    let a = Value::try_from(9).unwrap();
    let b = Value::try_from(5).unwrap();
    let c = Value::try_from(2).unwrap();

    let bitset = ValueBitSet::default().with_value(a).with_value(b);

    assert!(bitset.contains(a));
    assert!(bitset.contains(b));
    assert!(!bitset.contains(c));

    assert_eq!(bitset.len(), 2);
    assert!(!bitset.is_empty());
}

#[test]
fn set() {
    let a = Value::try_from(9).unwrap();
    let b = Value::try_from(5).unwrap();
    let c = Value::try_from(2).unwrap();

    let mut bitset = ValueBitSet::default().with_value(a).with_value(b);
    bitset.set_to(c);

    assert!(!bitset.contains(a));
    assert!(!bitset.contains(b));
    assert!(bitset.contains(c));

    assert_eq!(bitset.len(), 1);
    assert!(!bitset.is_empty());
}

#[test]
fn value_union() {
    let a = Value::try_from(9).unwrap();
    let b = Value::try_from(5).unwrap();
    let c = Value::try_from(2).unwrap();

    let bitset_a = ValueBitSet::default().with_value(a);
    let bitset_b = ValueBitSet::default().with_value(b);
    let bitset = bitset_a.with_union(&bitset_b);

    assert!(bitset.contains(a));
    assert!(bitset.contains(b));
    assert!(!bitset.contains(c));
}

#[test]
fn value_without_value() {
    let a = Value::try_from(9).unwrap();
    let b = Value::try_from(5).unwrap();
    let c = Value::try_from(2).unwrap();

    let bitset = ValueBitSet::default().with_value(a).with_value(b).with_value(c);
    let bitset = bitset.without_value(a).without_value(b);

    assert!(!bitset.contains(a));
    assert!(!bitset.contains(b));
    assert!(bitset.contains(c));
}

#[test]
fn value_from_u8_slice() {
    let a = Value::try_from(9).unwrap();
    let b = Value::try_from(5).unwrap();
    let c = Value::try_from(2).unwrap();

    let bitset = ValueBitSet::from(&[a, b]);

    assert!(bitset.contains(a));
    assert!(bitset.contains(b));
    assert!(!bitset.contains(c));
}

#[test]
fn value_iter() {
    let a = Value::try_from(9).unwrap();
    let b = Value::try_from(5).unwrap();

    let bitset = ValueBitSet::default().with_value(a).with_value(b);
    let mut iter = bitset.iter();

    assert_eq!(iter.next(), Some(b));
    assert_eq!(iter.next(), Some(a));
    assert_eq!(iter.next(), None);
    assert_eq!(iter.next(), None);
}

#[test]
fn iter_test() {
    let bitset = ValueBitSet { state: 16 };
    let mut iter = bitset.iter();

    assert_eq!(iter.next(), Some(Value::new(5)));
    assert_eq!(iter.next(), None);
    assert_eq!(iter.next(), None);
    assert_eq!(iter.next(), None);
}

#[test]
pub fn all_values() {
    let set = ValueBitSet::all_values();
    assert_eq!(set.len(), 9);

    assert!(set.contains(Value::new(1)));
    assert!(set.contains(Value::new(2)));
    assert!(set.contains(Value::new(3)));
    assert!(set.contains(Value::new(4)));
    assert!(set.contains(Value::new(5)));
    assert!(set.contains(Value::new(6)));
    assert!(set.contains(Value::new(7)));
    assert!(set.contains(Value::new(8)));
    assert!(set.contains(Value::new(9)));

    let mut values = Vec::new();
    let mut iter = set.iter();
    while let Some(value) = iter.next() {
        values.push(value);
    }
    assert!(values.contains(&Value::new(1)));
    assert!(values.contains(&Value::new(2)));
    assert!(values.contains(&Value::new(3)));
    assert!(values.contains(&Value::new(4)));
    assert!(values.contains(&Value::new(5)));
    assert!(values.contains(&Value::new(6)));
    assert!(values.contains(&Value::new(7)));
    assert!(values.contains(&Value::new(8)));
    assert!(values.contains(&Value::new(9)));
}

#[test]
pub fn len_works() {
    let set = ValueBitSet::empty().with_value(Value::new(5)).with_value(Value::new(9));
    assert_eq!(set.len(), 2);
}

#[test]
fn remove_many() {
    let a = Value::try_from(9).unwrap();
    let b = Value::try_from(5).unwrap();
    let c = Value::try_from(2).unwrap();

    let mut bitset = ValueBitSet::default().with_value(a).with_value(b).with_value(c);
    let remove = ValueBitSet::default().with_value(a).with_value(b);
    bitset.remove_many(&remove);

    assert!(!bitset.contains(a));
    assert!(!bitset.contains(b));
    assert!(bitset.contains(c));
}

#[test]
fn is_exactly() {
    let a = Value::try_from(9).unwrap();
    let b = Value::try_from(5).unwrap();
    let c = Value::try_from(2).unwrap();

    let mut bitset = ValueBitSet::default().with_value(a).with_value(b).with_value(c);
    assert!(bitset.contains(c));
    assert!(!bitset.is_exactly(c));

    let remove = ValueBitSet::default().with_value(a).with_value(b);
    bitset.remove_many(&remove);

    assert!(bitset.contains(c));
    assert!(bitset.is_exactly(c));
}

#[test]
fn as_single_value() {
    let a = Value::try_from(9).unwrap();
    let b = Value::try_from(5).unwrap();
    let c = Value::try_from(2).unwrap();

    let mut bitset = ValueBitSet::default().with_value(a).with_value(b).with_value(c);
    assert!(bitset.as_single_value().is_none());

    let remove = ValueBitSet::default().with_value(a).with_value(b);
    bitset.remove_many(&remove);

    assert_eq!(bitset.as_single_value(), Some(c));
}

#[test]
fn try_from_rejects_zero() {
    assert!(Value::try_from(0).is_err());
    assert_eq!(Value::try_from(0).unwrap_err().0, 0);
    assert_eq!(Value::try_from(7).unwrap().get(), 7);
}

#[test]
fn as_single_value_empty() {
    let bitset = ValueBitSet::empty();
    assert!(bitset.as_single_value().is_none());
    assert!(bitset.is_empty());
    assert_eq!(bitset.len(), 0);
}

#[test]
fn intersection_keeps_common_values() {
    let a = ValueBitSet::empty().with_value(Value::new(1)).with_value(Value::new(2)).with_value(
        Value::new(3),
    );
    let b = ValueBitSet::empty().with_value(Value::new(2)).with_value(Value::new(3)).with_value(
        Value::new(4),
    );
    let both = a.with_intersection(b);
    assert!(!both.contains(Value::new(1)));
    assert!(both.contains(Value::new(2)));
    assert!(both.contains(Value::new(3)));
    assert!(!both.contains(Value::new(4)));
    assert_eq!(both.len(), 2);
}
