//! A single grid cell: the set of values it may still take.

use crate::coordinate::Coordinate;
use crate::index::Index;
use crate::value::{Value, ValueBitSet, ValueBitSetIter};
use vstd::prelude::*;

verus! {

/// One cell of the board, described by its remaining candidate values.
#[derive(Debug, Copy, Clone, Eq, PartialEq, Structural)]
pub struct GameCell {
    pub possible_values: ValueBitSet,
}

/// A [`GameCell`] paired with its position on the board.
#[derive(Debug, Copy, Clone, Eq, PartialEq, Structural)]
pub struct IndexedGameCell {
    /// The index of this cell.
    pub index: Index,
    /// The inner cell.
    pub inner: GameCell,
}

impl GameCell {
    pub open spec fn wf(self) -> bool {
        self.possible_values.wf()
    }

    /// Membership: is `v` still a candidate of this cell?
    pub open spec fn has(self, v: int) -> bool {
        self.possible_values.has(v)
    }

    /// The number of remaining candidates.
    pub open spec fn card(self) -> int {
        self.possible_values.card()
    }

    /// A solved cell holds exactly one candidate.
    pub open spec fn spec_solved(self) -> bool {
        self.card() == 1
    }

    pub fn from_value(value: Value) -> (r: Self)
        requires
            value.wf(),
        ensures
            r.wf(),
            forall|w: int| #[trigger] r.has(w) <==> w == value@,
            r.card() == 1,
    {
        let mut set = ValueBitSet::empty();
        set.set_to(value);
        Self { possible_values: set }
    }

    pub fn from_values(values: ValueBitSet) -> (r: Self)
        ensures
            r.possible_values == values,
    {
        Self { possible_values: values }
    }

    /// Determines whether this cell contains a specific value (possibly as a candidate).
    pub fn contains(&self, value: Value) -> (r: bool)
        requires
            self.wf(),
            value.wf(),
        ensures
            r == self.has(value@),
    {
        self.possible_values.contains(value)
    }

    /// Determines whether this cell holds no candidate other than the given value.
    pub fn is_exactly(&self, value: Value) -> (r: bool)
        requires
            self.wf(),
            value.wf(),
        ensures
            r <==> (forall|w: int| self.has(w) ==> w == value@),
    {
        let r = self.possible_values.is_exactly(value);
        proof {
            if r {
                assert forall|w: int| self.has(w) implies w == value@ by {
                    assert(self.possible_values.has(w));
                }
            } else {
                let w = choose|w: int| self.possible_values.has(w) && w != value@;
                assert(self.has(w) && w != value@);
            }
        }
        r
    }

    /// Determines whether this cell contains at least one of the specified values.
    pub fn contains_some(&self, values: ValueBitSet) -> (r: bool)
        requires
            self.wf(),
            values.wf(),
        ensures
            r <==> (exists|w: int| self.has(w) && values.has(w)),
    {
        self.possible_values.contains_some(&values)
    }

    /// Determines whether this cell contains all of the specified values.
    pub fn contains_all(&self, values: ValueBitSet) -> (r: bool)
        requires
            self.wf(),
            values.wf(),
        ensures
            r <==> (forall|w: int| values.has(w) ==> self.has(w)),
    {
        self.possible_values.contains_all(&values)
    }

    /// Replaces this cell's value(s) with the specified one.
    pub fn set_to(&mut self, value: Value)
        requires
            value.wf(),
        ensures
            final(self).wf(),
            forall|w: int| #[trigger] final(self).has(w) <==> w == value@,
            final(self).card() == 1,
    {
        self.possible_values.set_to(value);
    }

    /// Removes a candidate from this cell.
    pub fn remove(&mut self, value: Value)
        requires
            old(self).wf(),
            value.wf(),
        ensures
            final(self).wf(),
            forall|w: int| #[trigger] final(self).has(w) <==> (old(self).has(w) && w != value@),
    {
        self.possible_values.remove(value);
    }

    /// Removes a candidate from this cell.
    pub fn without_value(self, value: Value) -> (r: Self)
        requires
            self.wf(),
            value.wf(),
        ensures
            r.wf(),
            forall|w: int| #[trigger] r.has(w) <==> (self.has(w) && w != value@),
    {
        Self { possible_values: self.possible_values.without_value(value) }
    }

    /// Removes a set of candidates from this cell.
    pub fn without_values(self, values: ValueBitSet) -> (r: Self)
        requires
            self.wf(),
        ensures
            r.wf(),
            forall|w: int| #[trigger] r.has(w) <==> (self.has(w) && !values.has(w)),
    {
        let mut set = self.possible_values;
        proof {
            assert(set == self.possible_values);
        }
        let ghost before = set;
        set.remove_many(&values);
        let r = Self { possible_values: set };
        proof {
            assert(forall|w: int| set.has(w) <==> (before.has(w) && !values.has(w)));
            assert forall|w: int| #[trigger] r.has(w) <==> (self.has(w) && !values.has(w)) by {
                assert(r.has(w) <==> set.has(w));
                assert(self.has(w) <==> before.has(w));
            }
        }
        r
    }

    /// Converts this [`GameCell`] into an [`IndexedGameCell`].
    pub fn into_indexed(self, index: Index) -> (r: IndexedGameCell)
        ensures
            r.index == index,
            r.inner == self,
    {
        IndexedGameCell { index, inner: self }
    }

    /// Determines whether this cell is solved.
    pub fn is_solved(&self) -> (r: bool)
        requires
            self.wf(),
        ensures
            r <==> self.card() == 1,
    {
        self.len() == 1
    }

    /// Determines whether this cell is impossible to solve.
    pub fn is_impossible(&self) -> (r: bool)
        requires
            self.wf(),
        ensures
            r <==> self.card() == 0,
            r <==> (forall|w: int| !self.has(w)),
    {
        self.empty()
    }

    /// Gets the number of possible values for this cell.
    ///
    /// If the result is `0`, this cell is impossible to solve.
    /// If the result is `1`, this cell is solved.
    pub fn len(&self) -> (r: usize)
        requires
            self.wf(),
        ensures
            r == self.card(),
    {
        self.possible_values.len()
    }

    /// Determines whether this cell has no value candidates at all.
    pub fn empty(&self) -> (r: bool)
        requires
            self.wf(),
        ensures
            r <==> self.card() == 0,
            r <==> (forall|w: int| !self.has(w)),
    {
        let r = self.possible_values.is_empty();
        proof {
            if r {
                assert forall|w: int| !self.has(w) by {
                    assert(!self.possible_values.has(w));
                }
            } else {
                let w = choose|w: int| self.possible_values.has(w);
                assert(self.has(w));
            }
        }
        r
    }

    /// Gets the possible values as a bitset.
    pub fn as_bitset(&self) -> (r: &ValueBitSet)
        ensures
            r == self.possible_values,
    {
        &self.possible_values
    }

    /// Gets the possible values as a bitset.
    pub fn to_bitset(&self) -> (r: ValueBitSet)
        ensures
            r == self.possible_values,
    {
        self.possible_values
    }

    /// Iterates all possible values for this cell.
    pub fn iter_candidates(&self) -> (r: ValueBitSetIter)
        ensures
            r.value == self.possible_values,
            r.index == 0,
    {
        self.possible_values.iter()
    }
}

impl Default for GameCell {
    /// A fresh cell still admits every value.
    fn default() -> (r: Self)
        ensures
            r.wf(),
            forall|w: int| #[trigger] r.has(w) <==> 1 <= w <= 9,
    {
        Self { possible_values: ValueBitSet::all_values() }
    }
}

impl IndexedGameCell {
    /// Constructs a new cell with all possible value candidates.
    pub fn new(index: Index) -> (r: Self)
        requires
            index.wf(),
        ensures
            r.index == index,
            r.inner.wf(),
            forall|w: int| r.inner.has(w) <==> 1 <= w <= 9,
    {
        Self { index, inner: GameCell::default() }
    }

    pub fn as_coordinate(&self) -> (r: Coordinate)
        requires
            self.index.wf(),
        ensures
            r.wf(),
            r.x == self.index@ % 9,
            r.y == self.index@ / 9,
    {
        self.index.into_coordinate()
    }

    pub fn to_coordinate(self) -> (r: Coordinate)
        requires
            self.index.wf(),
        ensures
            r.wf(),
            r.x == self.index@ % 9,
            r.y == self.index@ / 9,
    {
        self.index.into_coordinate()
    }

    /// Determines whether the inner cell is solved.
    pub fn is_solved(&self) -> (r: bool)
        requires
            self.inner.wf(),
        ensures
            r <==> self.inner.card() == 1,
    {
        self.inner.is_solved()
    }

    /// Gets the number of possible values for the inner cell.
    pub fn len(&self) -> (r: usize)
        requires
            self.inner.wf(),
        ensures
            r == self.inner.card(),
    {
        self.inner.len()
    }

    /// Determines whether the inner cell contains a specific value.
    pub fn contains(&self, value: Value) -> (r: bool)
        requires
            self.inner.wf(),
            value.wf(),
        ensures
            r == self.inner.has(value@),
    {
        self.inner.contains(value)
    }

    /// Gets the inner cell's possible values as a bitset.
    pub fn to_bitset(&self) -> (r: ValueBitSet)
        ensures
            r == self.inner.possible_values,
    {
        self.inner.to_bitset()
    }

    /// Iterates all possible values for the inner cell.
    pub fn iter_candidates(&self) -> (r: ValueBitSetIter)
        ensures
            r.value == self.inner.possible_values,
            r.index == 0,
    {
        self.inner.iter_candidates()
    }
}

} // verus!
