//! Puzzle values and sets of puzzle values.

use crate::bits::{bit16, lemma_u16_andnot, lemma_u16_andnot_bit, lemma_u16_empty, lemma_u16_ext,
    lemma_u16_or, lemma_u16_or_bit, lemma_u16_single, lemma_u16_subset, lemma_u16_test_bit};
use vstd::prelude::*;

verus! {

/// A classical Sudoku value, ranging 1..=9 for 9 fields.
#[derive(Debug, Copy, Clone, Ord, PartialOrd, Eq, PartialEq, Structural)]
pub struct Value {
    pub v: u8,
}

/// Simplified type name for an optional value.
pub type ValueOption = Option<Value>;

impl View for Value {
    type V = int;

    open spec fn view(&self) -> int {
        self.v as int
    }
}

impl Value {
    /// A value is meaningful only in 1..=9.
    pub open spec fn wf(self) -> bool {
        1 <= self.v <= 9
    }

    /// Constructs a value; the argument must already be in range.
    pub fn new(value: u8) -> (r: Value)
        requires
            1 <= value <= 9,
        ensures
            r.wf(),
            r@ == value,
    {
        Value { v: value }
    }

    /// Constructs a value, rejecting zero. Arguments above nine are a
    /// caller contract violation.
    pub fn try_from(value: u8) -> (r: Result<Value, ValueOutOfRangeError>)
        requires
            value <= 9,
        ensures
            r is Ok <==> 1 <= value <= 9,
            r matches Ok(v) ==> v.wf() && v@ == value,
            r matches Err(e) ==> e.0 == value,
    {
        if value == 0 {
            Err(ValueOutOfRangeError(value))
        } else {
            Ok(Value { v: value })
        }
    }

    /// Gets the underlying `u8` value.
    pub fn get(&self) -> (r: u8)
        ensures
            r == self@,
    {
        self.v
    }
}

/// The error for a value outside 1..=9; carries the offending number.
#[derive(Debug)]
pub struct ValueOutOfRangeError(pub u8);

/// A simple bitset for storing regular Sudoku-sized (i.e., up to 9) cell values.
///
/// Bit `j` of the backing word stands for value `j + 1`; only the lowest
/// nine bits are ever set.
#[derive(Debug, Copy, Clone, Eq, PartialEq, Ord, PartialOrd, Hash, Structural)]
pub struct ValueBitSet {
    pub state: u16,
}

impl ValueBitSet {
    /// Only the nine value bits may be set.
    pub open spec fn wf(self) -> bool {
        self.state < 512
    }

    /// Membership: does the set hold value `v`?
    pub open spec fn has(self, v: int) -> bool {
        1 <= v <= 9 && bit16(self.state, v - 1)
    }

    /// The number of members among the values 1..=k.
    pub open spec fn card_upto(self, k: int) -> int
        decreases k,
    {
        if k <= 0 {
            0
        } else {
            self.card_upto(k - 1) + if self.has(k) {
                1int
            } else {
                0int
            }
        }
    }

    /// The number of members of the set.
    pub open spec fn card(self) -> int {
        self.card_upto(9)
    }

    pub fn empty() -> (r: Self)
        ensures
            r.wf(),
            forall|v: int| !r.has(v),
            r.card() == 0,
    {
        let r = Self { state: 0 };
        proof {
            lemma_u16_empty(0);
            r.lemma_card_zero();
        }
        r
    }

    pub fn all_values() -> (r: Self)
        ensures
            r.wf(),
            forall|v: int| r.has(v) <==> 1 <= v <= 9,
    {
        let r = Self { state: 511 };
        proof {
            assert(forall|j: u16| j < 9 ==> #[trigger] (511u16 >> j) & 1u16 == 1u16) by (bit_vector);
            assert forall|v: int| 1 <= v <= 9 implies r.has(v) by {
                assert((511u16 >> ((v - 1) as u16)) & 1u16 == 1u16);
            }
        }
        r
    }

    pub fn with_value(self, value: Value) -> (r: Self)
        requires
            self.wf(),
            value.wf(),
        ensures
            r.wf(),
            forall|w: int| #[trigger] r.has(w) <==> (self.has(w) || w == value@),
    {
        let v: u16 = (value.get() - 1) as u16;
        let r = Self { state: self.state | (1u16 << v) };
        proof {
            lemma_u16_or_bit(self.state, v);
            assert forall|w: int| #[trigger] r.has(w) <==> (self.has(w) || w == value@) by {
                if 1 <= w <= 9 {
                    assert((r.state >> ((w - 1) as u16)) & 1u16 == 1u16 <==> ((w - 1) as u16 == v
                        || (self.state >> ((w - 1) as u16)) & 1u16 == 1u16));
                }
            }
        }
        r
    }

    pub fn insert(&mut self, value: Value)
        requires
            old(self).wf(),
            value.wf(),
        ensures
            final(self).wf(),
            forall|w: int| #[trigger] final(self).has(w) <==> (old(self).has(w) || w == value@),
    {
        let r = self.with_value(value);
        *self = r;
    }

    pub fn without_value(self, value: Value) -> (r: Self)
        requires
            self.wf(),
            value.wf(),
        ensures
            r.wf(),
            forall|w: int| #[trigger] r.has(w) <==> (self.has(w) && w != value@),
    {
        let v: u16 = (value.get() - 1) as u16;
        let r = Self { state: self.state & ((!(1u16 << v)) & 511u16) };
        proof {
            lemma_u16_andnot_bit(self.state, v);
            assert forall|w: int| #[trigger] r.has(w) <==> (self.has(w) && w != value@) by {
                if 1 <= w <= 9 {
                    assert((r.state >> ((w - 1) as u16)) & 1u16 == 1u16 <==> ((w - 1) as u16 != v
                        && (self.state >> ((w - 1) as u16)) & 1u16 == 1u16));
                }
            }
        }
        r
    }

    pub fn remove(&mut self, value: Value)
        requires
            old(self).wf(),
            value.wf(),
        ensures
            final(self).wf(),
            forall|w: int| #[trigger] final(self).has(w) <==> (old(self).has(w) && w != value@),
    {
        let r = self.without_value(value);
        *self = r;
    }

    pub fn remove_many(&mut self, values: &ValueBitSet)
        requires
            old(self).wf(),
        ensures
            final(self).wf(),
            forall|w: int| #[trigger] final(self).has(w) <==> (old(self).has(w) && !values.has(w)),
    {
        let s = self.state;
        self.state = s & ((!values.state) & 511u16);
        proof {
            lemma_u16_andnot(s, values.state);
            assert forall|w: int| self.has(w) <==> (old(self).has(w) && !values.has(w)) by {
                if 1 <= w <= 9 {
                    assert((self.state >> ((w - 1) as u16)) & 1u16 == 1u16 <==> ((s >> ((w
                        - 1) as u16)) & 1u16 == 1u16 && !((values.state >> ((w - 1) as u16)) & 1u16
                        == 1u16)));
                }
            }
        }
    }

    /// Sets the possible values to only the specified value.
    pub fn set_to(&mut self, value: Value)
        requires
            value.wf(),
        ensures
            final(self).wf(),
            forall|w: int| #[trigger] final(self).has(w) <==> w == value@,
            final(self).card() == 1,
    {
        let v: u16 = (value.get() - 1) as u16;
        self.state = (1u16 << v) & 511u16;
        proof {
            lemma_u16_single(self.state, v);
            assert forall|w: int| self.has(w) <==> w == value@ by {
                if 1 <= w <= 9 {
                    assert((self.state >> ((w - 1) as u16)) & 1u16 == 1u16 <==> (w - 1) as u16 == v);
                }
            }
            self.lemma_card_single(value@);
        }
    }

    pub fn with_intersection(self, other: ValueBitSet) -> (r: Self)
        requires
            self.wf(),
        ensures
            r.wf(),
            forall|w: int| #[trigger] r.has(w) <==> (self.has(w) && other.has(w)),
    {
        let r = Self { state: self.state & other.state };
        proof {
            crate::bits::lemma_u16_and(self.state, other.state);
            assert forall|w: int| #[trigger] r.has(w) <==> (self.has(w) && other.has(w)) by {
                if 1 <= w <= 9 {
                    assert((r.state >> ((w - 1) as u16)) & 1u16 == 1u16 <==> ((self.state >> ((w
                        - 1) as u16)) & 1u16 == 1u16 && (other.state >> ((w - 1) as u16)) & 1u16
                        == 1u16));
                }
            }
        }
        r
    }

    pub fn with_union(self, other: &ValueBitSet) -> (r: Self)
        requires
            self.wf(),
        ensures
            r.wf(),
            forall|w: int| #[trigger] r.has(w) <==> (self.has(w) || other.has(w)),
    {
        let r = Self { state: self.state | (other.state & 511u16) };
        proof {
            lemma_u16_or(self.state, other.state);
            assert forall|w: int| #[trigger] r.has(w) <==> (self.has(w) || other.has(w)) by {
                if 1 <= w <= 9 {
                    assert((r.state >> ((w - 1) as u16)) & 1u16 == 1u16 <==> ((self.state >> ((w
                        - 1) as u16)) & 1u16 == 1u16 || (other.state >> ((w - 1) as u16)) & 1u16
                        == 1u16));
                }
            }
        }
        r
    }

    pub fn union(&mut self, other: &ValueBitSet)
        requires
            old(self).wf(),
        ensures
            final(self).wf(),
            forall|w: int| #[trigger] final(self).has(w) <==> (old(self).has(w) || other.has(w)),
    {
        let r = self.with_union(other);
        *self = r;
    }

    pub fn contains(&self, value: Value) -> (r: bool)
        requires
            self.wf(),
            value.wf(),
        ensures
            r == self.has(value@),
    {
        let v: u16 = (value.get() - 1) as u16;
        let flag = self.state & (1u16 << v);
        proof {
            lemma_u16_test_bit(self.state, v);
        }
        flag != 0
    }

    /// True when no member other than the given value is present (so also
    /// true for the empty set).
    pub fn is_exactly(&self, value: Value) -> (r: bool)
        requires
            self.wf(),
            value.wf(),
        ensures
            r <==> (forall|w: int| self.has(w) ==> w == value@),
    {
        let v: u16 = (value.get() - 1) as u16;
        let flag = self.state & (1u16 << v);
        proof {
            lemma_u16_test_bit(self.state, v);
            if flag == self.state {
                assert forall|w: int| self.has(w) implies w == value@ by {
                    assert(bit16(self.state, w - 1));
                    assert(w - 1 == v as int);
                }
            } else {
                assert(!(forall|j: int|
                    0 <= j < 9 ==> (#[trigger] bit16(self.state, j) ==> j == v)));
                let j = choose|j: int| 0 <= j < 9 && #[trigger] bit16(self.state, j) && j != v;
                assert(self.has(j + 1) && j + 1 != value@);
            }
        }
        flag == self.state
    }

    pub fn contains_all(&self, values: &ValueBitSet) -> (r: bool)
        requires
            self.wf(),
            values.wf(),
        ensures
            r <==> (forall|w: int| values.has(w) ==> self.has(w)),
    {
        proof {
            lemma_u16_subset(self.state, values.state);
            if (self.state & values.state) == values.state {
                assert forall|w: int| values.has(w) implies self.has(w) by {
                    assert(bit16(values.state, w - 1) ==> bit16(self.state, w - 1));
                }
            } else {
                let j = choose|j: int|
                    0 <= j < 9 && #[trigger] bit16(values.state, j) && !bit16(self.state, j);
                assert(values.has(j + 1) && !self.has(j + 1));
            }
        }
        (self.state & values.state) == values.state
    }

    pub fn contains_some(&self, values: &ValueBitSet) -> (r: bool)
        requires
            self.wf(),
            values.wf(),
        ensures
            r <==> (exists|w: int| self.has(w) && values.has(w)),
    {
        proof {
            lemma_u16_subset(self.state, values.state);
            if (self.state & values.state) != 0 {
                let j = choose|j: int|
                    0 <= j < 9 && #[trigger] bit16(self.state, j) && bit16(values.state, j);
                assert(self.has(j + 1) && values.has(j + 1));
            } else {
                assert forall|w: int| !(self.has(w) && values.has(w)) by {
                    if 1 <= w <= 9 && bit16(self.state, w - 1) && bit16(values.state, w - 1) {
                        assert(exists|j: int|
                            0 <= j < 9 && #[trigger] bit16(self.state, j) && bit16(
                                values.state,
                                j,
                            ));
                    }
                }
            }
        }
        (self.state & values.state) != 0
    }

    /// Gets the number of values in this set.
    pub fn len(&self) -> (r: usize)
        requires
            self.wf(),
        ensures
            r == self.card(),
    {
        let mut n: usize = 0;
        let mut k: u16 = 0;
        while k < 9
            invariant
                0 <= k <= 9,
                n == self.card_upto(k as int),
                n <= k,
            decreases 9 - k,
        {
            if (self.state >> k) & 1u16 == 1u16 {
                proof {
                    assert(self.has(k + 1));
                }
                n = n + 1;
            } else {
                proof {
                    assert(!self.has(k + 1));
                }
            }
            k = k + 1;
        }
        n
    }

    pub fn is_empty(&self) -> (r: bool)
        requires
            self.wf(),
        ensures
            r <==> (forall|w: int| !self.has(w)),
            r <==> self.card() == 0,
    {
        proof {
            lemma_u16_empty(self.state);
            self.lemma_card_zero();
            if self.state == 0 {
                assert forall|w: int| !self.has(w) by {
                    if 1 <= w <= 9 {
                        assert(!bit16(self.state, w - 1));
                    }
                }
            } else {
                let j = choose|j: int| 0 <= j < 9 && #[trigger] bit16(self.state, j);
                assert(self.has(j + 1));
            }
            let s = self.state;
            assert(s & 511u16 == s) by (bit_vector)
                requires
                    s < 512,
            ;
        }
        self.state & 511u16 == 0
    }

    /// Reduces this set to a single value.
    ///
    /// Returns the single member, or `None` if this set holds zero or
    /// more than one value.
    pub fn as_single_value(&self) -> (r: Option<Value>)
        requires
            self.wf(),
        ensures
            r is Some <==> self.card() == 1,
            r matches Some(v) ==> v.wf() && self.has(v@) && (forall|w: int|
                self.has(w) ==> w == v@),
    {
        let mut found: Option<Value> = None;
        let mut k: u8 = 1;
        while k <= 9
            invariant
                1 <= k <= 10,
                self.wf(),
                match found {
                    Some(v) => v.wf() && 1 <= v@ < k && self.has(v@) && self.card_upto(
                        k - 1,
                    ) == 1 && (forall|w: int| 1 <= w < k && self.has(w) ==> w == v@),
                    None => self.card_upto(k - 1) == 0 && (forall|w: int|
                        1 <= w < k ==> !self.has(w)),
                },
            decreases 10 - k,
        {
            if (self.state >> ((k - 1) as u16)) & 1u16 == 1u16 {
                proof {
                    assert(self.has(k as int));
                }
                if found.is_some() {
                    proof {
                        self.lemma_card_mono(k as int, 9);
                    }
                    return None;
                }
                found = Some(Value { v: k });
            } else {
                proof {
                    assert(!self.has(k as int));
                }
            }
            k = k + 1;
        }
        found
    }

    pub fn iter(&self) -> (r: ValueBitSetIter)
        ensures
            r.value == *self,
            r.index == 0,
    {
        ValueBitSetIter { value: *self, index: 0 }
    }

    /// Collects a set from a slice of values.
    pub fn from(values: &[Value]) -> (r: Self)
        requires
            forall|i: int| 0 <= i < values@.len() ==> (#[trigger] values@[i]).wf(),
        ensures
            r.wf(),
            forall|w: int| #[trigger] r.has(w) <==> (exists|i: int| 0 <= i < values@.len() && values@[i]@ == w),
    {
        let mut r = Self::empty();
        let mut i: usize = 0;
        while i < values.len()
            invariant
                0 <= i <= values@.len(),
                r.wf(),
                forall|k: int| 0 <= k < values@.len() ==> (#[trigger] values@[k]).wf(),
                forall|w: int|
                    r.has(w) <==> (exists|k: int| 0 <= k < i && (#[trigger] values@[k])@ == w),
            decreases values@.len() - i,
        {
            let v = values[i];
            r = r.with_value(v);
            proof {
                assert forall|w: int|
                    r.has(w) <==> (exists|k: int| 0 <= k < i + 1 && (#[trigger] values@[k])@
                        == w) by {
                    if r.has(w) {
                        if w == v@ {
                            assert(values@[i as int]@ == w);
                        }
                    }
                }
            }
            i = i + 1;
        }
        r
    }

    // ------------------------------------------------------------------
    // Cardinality facts.
    // ------------------------------------------------------------------
    pub proof fn lemma_card_bounds(self)
        ensures
            0 <= self.card() <= 9,
    {
        self.lemma_card_upto_bounds(9);
    }

    proof fn lemma_card_upto_bounds(self, k: int)
        requires
            0 <= k <= 9,
        ensures
            0 <= self.card_upto(k) <= k,
        decreases k,
    {
        if k > 0 {
            self.lemma_card_upto_bounds(k - 1);
        }
    }

    /// Counting further never loses members already counted.
    proof fn lemma_card_mono(self, k: int, m: int)
        requires
            0 <= k <= m,
        ensures
            self.card_upto(k) <= self.card_upto(m),
        decreases m - k,
    {
        if k < m {
            self.lemma_card_mono(k, m - 1);
        }
    }

    proof fn lemma_card_upto_zero(self, k: int)
        requires
            0 <= k <= 9,
        ensures
            self.card_upto(k) == 0 <==> (forall|w: int| 1 <= w <= k ==> !self.has(w)),
        decreases k,
    {
        if k > 0 {
            self.lemma_card_upto_zero(k - 1);
            self.lemma_card_upto_bounds(k - 1);
        }
    }

    pub proof fn lemma_card_zero(self)
        ensures
            self.card() == 0 <==> (forall|w: int| !self.has(w)),
    {
        self.lemma_card_upto_zero(9);
    }

    proof fn lemma_card_upto_single(self, v: int, k: int)
        requires
            0 <= k <= 9,
            forall|w: int| self.has(w) ==> w == v,
        ensures
            self.card_upto(k) == if self.has(v) && v <= k {
                1int
            } else {
                0int
            },
        decreases k,
    {
        if k > 0 {
            self.lemma_card_upto_single(v, k - 1);
        }
    }

    /// A set whose members all equal `v` has cardinality one exactly when
    /// `v` is present.
    pub proof fn lemma_card_single(self, v: int)
        requires
            forall|w: int| self.has(w) ==> w == v,
        ensures
            self.card() == if self.has(v) {
                1int
            } else {
                0int
            },
    {
        if self.has(v) {
            self.lemma_card_upto_single(v, 9);
        } else {
            self.lemma_card_zero();
            assert(forall|w: int| !self.has(w));
        }
    }

    proof fn lemma_card_upto_two(self, a: int, b: int, k: int)
        requires
            0 <= k <= 9,
            a != b,
            self.has(a),
            self.has(b),
            forall|w: int| self.has(w) ==> w == a || w == b,
        ensures
            self.card_upto(k) == (if self.has(a) && a <= k {
                1int
            } else {
                0int
            }) + (if self.has(b) && b <= k {
                1int
            } else {
                0int
            }),
        decreases k,
    {
        if k > 0 {
            self.lemma_card_upto_two(a, b, k - 1);
        }
    }

    /// A set whose members are exactly the two distinct values `a` and
    /// `b` has cardinality two.
    pub proof fn lemma_card_two(self, a: int, b: int)
        requires
            a != b,
            self.has(a),
            self.has(b),
            forall|w: int| self.has(w) ==> w == a || w == b,
        ensures
            self.card() == 2,
    {
        self.lemma_card_upto_two(a, b, 9);
    }

    proof fn lemma_card_upto_one(self, k: int)
        requires
            0 <= k <= 9,
            self.card_upto(k) == 1,
        ensures
            exists|v: int|
                1 <= v <= k && self.has(v) && (forall|w: int| 1 <= w <= k && self.has(w) ==> w == v),
        decreases k,
    {
        if k > 0 {
            if self.has(k) {
                self.lemma_card_upto_zero(k - 1);
                assert(self.has(k) && (forall|w: int|
                    1 <= w <= k && self.has(w) ==> w == k));
            } else {
                self.lemma_card_upto_one(k - 1);
            }
        }
    }

    /// A one-member set determines its member.
    pub proof fn lemma_card_one(self)
        requires
            self.card() == 1,
        ensures
            exists|v: int| self.has(v) && (forall|w: int| self.has(w) ==> w == v),
    {
        self.lemma_card_upto_one(9);
        let v = choose|v: int|
            1 <= v <= 9 && self.has(v) && (forall|w: int|
                1 <= w <= 9 && self.has(w) ==> w == v);
        assert(self.has(v) && (forall|w: int| self.has(w) ==> w == v));
    }

    proof fn lemma_card_upto_subset(self, other: ValueBitSet, k: int)
        requires
            0 <= k <= 9,
            forall|w: int| self.has(w) ==> other.has(w),
        ensures
            self.card_upto(k) <= other.card_upto(k),
            (exists|w: int| 1 <= w <= k && other.has(w) && !self.has(w)) ==> self.card_upto(k)
                < other.card_upto(k),
        decreases k,
    {
        if k > 0 {
            self.lemma_card_upto_subset(other, k - 1);
            if exists|w: int| 1 <= w <= k && other.has(w) && !self.has(w) {
                let w0 = choose|w: int| 1 <= w <= k && other.has(w) && !self.has(w);
                if w0 == k {
                } else {
                    assert(exists|w: int| 1 <= w <= k - 1 && other.has(w) && !self.has(w));
                }
            }
        }
    }

    /// A pointwise-smaller set has no more members; strictly fewer when
    /// some member is genuinely missing.
    pub proof fn lemma_card_subset(self, other: ValueBitSet)
        requires
            forall|w: int| self.has(w) ==> other.has(w),
        ensures
            self.card() <= other.card(),
            (exists|w: int| other.has(w) && !self.has(w)) ==> self.card() < other.card(),
    {
        self.lemma_card_upto_subset(other, 9);
        if exists|w: int| other.has(w) && !self.has(w) {
            let w0 = choose|w: int| other.has(w) && !self.has(w);
            assert(1 <= w0 <= 9);
            assert(exists|w: int| 1 <= w <= 9 && other.has(w) && !self.has(w));
        }
    }

    proof fn lemma_card_upto_agree(self, other: ValueBitSet, k: int)
        requires
            0 <= k <= 9,
            forall|w: int| self.has(w) <==> other.has(w),
        ensures
            self.card_upto(k) == other.card_upto(k),
        decreases k,
    {
        if k > 0 {
            self.lemma_card_upto_agree(other, k - 1);
        }
    }

    /// Sets with the same members have the same cardinality.
    pub proof fn lemma_card_agree(self, other: ValueBitSet)
        requires
            forall|w: int| self.has(w) <==> other.has(w),
        ensures
            self.card() == other.card(),
    {
        self.lemma_card_upto_agree(other, 9);
    }

    /// Well-formed sets with the same members are equal.
    pub proof fn lemma_ext(self, other: ValueBitSet)
        requires
            self.wf(),
            other.wf(),
            forall|w: int| self.has(w) <==> other.has(w),
        ensures
            self == other,
    {
        assert forall|j: int| 0 <= j < 9 implies (bit16(self.state, j) <==> bit16(
            other.state,
            j,
        )) by {
            assert(self.has(j + 1) <==> other.has(j + 1));
        }
        lemma_u16_ext(self.state, other.state);
    }
}

impl Default for ValueBitSet {
    fn default() -> (r: Self)
        ensures
            r.wf(),
            forall|v: int| !r.has(v),
            r.card() == 0,
    {
        Self::empty()
    }
}

/// Iterates the members of a [`ValueBitSet`] in ascending order.
pub struct ValueBitSetIter {
    pub value: ValueBitSet,
    pub index: u8,
}

/// The smallest member of the set that is at least `lo`, or 10 when there
/// is none.
pub open spec fn vbs_min_from(s: ValueBitSet, lo: int) -> int
    decreases 10 - lo,
{
    if lo >= 10 {
        10
    } else if s.has(lo) {
        lo
    } else {
        vbs_min_from(s, lo + 1)
    }
}

/// Where the scan starting at `lo` ends: either no member remains, or
/// the result is the smallest member at or above `lo`.
pub proof fn lemma_vbs_min_from_found(s: ValueBitSet, lo: int)
    requires
        1 <= lo <= 10,
    ensures
        vbs_min_from(s, lo) == 10 || (lo <= vbs_min_from(s, lo) <= 9 && s.has(vbs_min_from(s, lo))),
        vbs_min_from(s, lo) == 10 ==> (forall|w: int| lo <= w <= 9 ==> !s.has(w)),
    decreases 10 - lo,
{
    if lo <= 9 {
        if s.has(lo) {
        } else {
            lemma_vbs_min_from_found(s, lo + 1);
        }
    }
}

impl ValueBitSetIter {
    /// The set being iterated.
    pub open spec fn set(self) -> ValueBitSet {
        self.value
    }

    /// Members up to and including this position were already produced.
    pub open spec fn pos(self) -> int {
        self.index as int
    }

    pub fn next(&mut self) -> (r: Option<Value>)
        requires
            old(self).value.wf(),
        ensures
            final(self).value == old(self).value,
            ({
                let m = vbs_min_from(old(self).value, old(self).pos() + 1);
                if m <= 9 {
                    r matches Some(v) && v.wf() && v@ == m && final(self).pos() == m
                } else {
                    r is None && final(self).pos() == 10
                }
            }),
    {
        let state = self.value.state;
        let mut index = self.index;
        proof {
            if self.index >= 10 {
                assert(vbs_min_from(self.value, old(self).pos() + 1) == 10);
            }
        }
        while index < 9
            invariant
                old(self).index <= index,
                self == old(self),
                state == self.value.state,
                self.value.wf(),
                index <= 9 || index == old(self).index,
                index <= 9 ==> vbs_min_from(self.value, old(self).pos() + 1) == vbs_min_from(
                    self.value,
                    index + 1,
                ),
                index > 9 ==> vbs_min_from(self.value, old(self).pos() + 1) == 10,
            decreases 9 - index,
        {
            let test = (state >> index) & 1u16;
            index = index + 1;
            if test == 1u16 {
                proof {
                    assert(self.value.has(index as int));
                    assert(vbs_min_from(self.value, index as int) == index as int);
                }
                self.index = index;
                return Some(Value { v: index });
            }
            proof {
                assert(!self.value.has(index as int));
            }
        }
        proof {
            if index <= 9 {
                assert(vbs_min_from(self.value, index + 1) == 10);
            }
        }
        self.index = 10;
        None
    }
}

} // verus!

