//! Cell indexes and sets of cell indexes.

use crate::bits::{bit128, lemma_u128_and_bits, lemma_u128_andnot_bit, lemma_u128_ext,
    lemma_u128_mask_is_bound, lemma_u128_nonzero, lemma_u128_or, lemma_u128_or_bit,
    lemma_u128_zero_bits};
use crate::coordinate::Coordinate;
use vstd::prelude::*;

verus! {

/// A classical Sudoku index, ranging 0..=80 for 81 fields.
#[derive(Debug, Copy, Clone, Ord, PartialOrd, Eq, PartialEq, Structural)]
pub struct Index {
    pub i: u8,
}

impl View for Index {
    type V = int;

    open spec fn view(&self) -> int {
        self.i as int
    }
}

impl Index {
    /// An index addresses one of the 81 cells.
    pub open spec fn wf(self) -> bool {
        self.i < 81
    }

    pub fn new(index: u8) -> (r: Self)
        requires
            index < 81,
        ensures
            r.wf(),
            r@ == index,
    {
        Self { i: index }
    }

    /// Gets the underlying `u8` value.
    pub fn get(&self) -> (r: u8)
        ensures
            r == self@,
    {
        self.i
    }

    /// All 81 indexes, in ascending order.
    pub fn range() -> (r: Vec<Index>)
        ensures
            r@.len() == 81,
            forall|k: int| 0 <= k < 81 ==> (#[trigger] r@[k])@ == k && r@[k].wf(),
    {
        let mut v: Vec<Index> = Vec::new();
        let mut k: u8 = 0;
        while k < 81
            invariant
                k <= 81,
                v@.len() == k,
                forall|j: int| 0 <= j < k ==> (#[trigger] v@[j])@ == j && v@[j].wf(),
            decreases 81 - k,
        {
            v.push(Index { i: k });
            k = k + 1;
        }
        v
    }

    /// The coordinate of this index: `(index % 9, index / 9)`.
    pub fn into_coordinate(self) -> (r: Coordinate)
        requires
            self.wf(),
        ensures
            r.wf(),
            r.x == self@ % 9,
            r.y == self@ / 9,
    {
        let x = self.i % 9;
        let y = self.i / 9;
        Coordinate { x, y }
    }
}

/// The character for one decimal digit.
pub open spec fn digit_char(d: int) -> char {
    if d == 0 {
        '0'
    } else if d == 1 {
        '1'
    } else if d == 2 {
        '2'
    } else if d == 3 {
        '3'
    } else if d == 4 {
        '4'
    } else if d == 5 {
        '5'
    } else if d == 6 {
        '6'
    } else if d == 7 {
        '7'
    } else if d == 8 {
        '8'
    } else {
        '9'
    }
}

/// The decimal text of a number below 100.
pub open spec fn number_text(i: int) -> Seq<char> {
    if i < 10 {
        seq![digit_char(i)]
    } else {
        seq![digit_char(i / 10), digit_char(i % 10)]
    }
}

/// The text an index describes itself with: its coordinate, then its
/// own number.
pub open spec fn index_text(i: int) -> Seq<char> {
    seq![digit_char(i % 9), ' ', '\u{d7}', ' ', digit_char(i / 9)] + " (index "@ + number_text(i)
        + ")"@
}

fn digit_str(d: u8) -> (r: &'static str)
    requires
        d < 10,
    ensures
        r@ =~= seq![digit_char(d as int)],
{
    proof {
        reveal_strlit("0");
        reveal_strlit("1");
        reveal_strlit("2");
        reveal_strlit("3");
        reveal_strlit("4");
        reveal_strlit("5");
        reveal_strlit("6");
        reveal_strlit("7");
        reveal_strlit("8");
        reveal_strlit("9");
    }
    match d {
        0 => "0",
        1 => "1",
        2 => "2",
        3 => "3",
        4 => "4",
        5 => "5",
        6 => "6",
        7 => "7",
        8 => "8",
        _ => "9",
    }
}

impl Index {
    /// The index as text: its coordinate, then its own number.
    pub fn describe(&self) -> (r: String)
        requires
            self.wf(),
        ensures
            r@ == index_text(self@),
    {
        let x = self.i % 9;
        let y = self.i / 9;
        let mut s = String::from_str(digit_str(x));
        proof {
            reveal_strlit(" \u{d7} ");
            reveal_strlit(" (index ");
            reveal_strlit(")");
        }
        s.append(" \u{d7} ");
        s.append(digit_str(y));
        s.append(" (index ");
        if self.i < 10 {
            s.append(digit_str(self.i));
        } else {
            s.append(digit_str(self.i / 10));
            s.append(digit_str(self.i % 10));
        }
        s.append(")");
        proof {
            assert(s@ =~= index_text(self@));
        }
        s
    }
}

impl Default for Index {
    fn default() -> (r: Self)
        ensures
            r.wf(),
            r@ == 0,
    {
        Self { i: 0 }
    }
}

/// A simple bitset for storing regular Sudoku-sized (i.e., up to 81) index values.
///
/// Bit `j` of the backing word stands for index `j`; only the lowest 81
/// bits are ever set.
#[derive(Debug, Copy, Clone, Eq, PartialEq, Ord, PartialOrd, Hash, Structural)]
pub struct IndexBitSet {
    pub state: u128,
}

impl IndexBitSet {
    /// Only the 81 index bits may be set.
    pub open spec fn wf(self) -> bool {
        self.state < (1u128 << 81)
    }

    /// Membership: does the set hold index `j`?
    pub open spec fn has(self, j: int) -> bool {
        0 <= j < 81 && bit128(self.state, j)
    }

    /// The number of members among the indexes 0..k.
    pub open spec fn card_upto(self, k: int) -> int
        decreases k,
    {
        if k <= 0 {
            0
        } else {
            self.card_upto(k - 1) + if self.has(k - 1) {
                1int
            } else {
                0int
            }
        }
    }

    /// The number of members of the set.
    pub open spec fn card(self) -> int {
        self.card_upto(81)
    }

    pub fn empty() -> (r: Self)
        ensures
            r.wf(),
            forall|j: int| !r.has(j),
    {
        let r = Self { state: 0 };
        proof {
            lemma_u128_zero_bits();
            assert(0u128 < (1u128 << 81)) by (bit_vector);
            assert forall|j: int| !r.has(j) by {
                if 0 <= j < 81 {
                    assert(!((0u128 >> (j as u128)) & 1u128 == 1u128));
                }
            }
        }
        r
    }

    pub fn with_index(self, index: Index) -> (r: Self)
        requires
            self.wf(),
            index.wf(),
        ensures
            r.wf(),
            forall|j: int| #[trigger] r.has(j) <==> (self.has(j) || j == index@),
    {
        let v: u128 = index.get() as u128;
        let r = Self { state: self.state | (1u128 << v) };
        proof {
            lemma_u128_or_bit(self.state, v);
            assert forall|j: int| #[trigger] r.has(j) <==> (self.has(j) || j == index@) by {
                if 0 <= j < 81 {
                    assert((r.state >> (j as u128)) & 1u128 == 1u128 <==> ((j as u128) == v || (
                    self.state >> (j as u128)) & 1u128 == 1u128));
                }
            }
        }
        r
    }

    pub fn insert(&mut self, index: Index)
        requires
            old(self).wf(),
            index.wf(),
        ensures
            final(self).wf(),
            forall|j: int| #[trigger] final(self).has(j) <==> (old(self).has(j) || j == index@),
    {
        let r = self.with_index(index);
        *self = r;
    }

    /// Inserts an index; reports whether it was absent before.
    pub fn try_insert(&mut self, index: Index) -> (r: bool)
        requires
            old(self).wf(),
            index.wf(),
        ensures
            final(self).wf(),
            forall|j: int| #[trigger] final(self).has(j) <==> (old(self).has(j) || j == index@),
            r <==> !old(self).has(index@),
    {
        let v: u128 = index.get() as u128;
        proof {
            lemma_u128_or_bit(self.state, v);
        }
        let bitmask = (1u128 << v) & 0x1_FFFF_FFFF_FFFF_FFFF_FFFFu128;
        let contains = (self.state & bitmask) > 0;
        self.state = self.state | bitmask;
        proof {
            assert forall|j: int| self.has(j) <==> (old(self).has(j) || j == index@) by {
                if 0 <= j < 81 {
                    assert((self.state >> (j as u128)) & 1u128 == 1u128 <==> ((j as u128) == v || (
                    old(self).state >> (j as u128)) & 1u128 == 1u128));
                }
            }
        }
        !contains
    }

    pub fn without_index(self, index: Index) -> (r: Self)
        requires
            self.wf(),
            index.wf(),
        ensures
            r.wf(),
            forall|j: int| #[trigger] r.has(j) <==> (self.has(j) && j != index@),
    {
        let v: u128 = index.get() as u128;
        let r = Self { state: self.state & ((!(1u128 << v)) & 0x1_FFFF_FFFF_FFFF_FFFF_FFFFu128) };
        proof {
            lemma_u128_andnot_bit(self.state, v);
            assert forall|j: int| #[trigger] r.has(j) <==> (self.has(j) && j != index@) by {
                if 0 <= j < 81 {
                    assert((r.state >> (j as u128)) & 1u128 == 1u128 <==> ((j as u128) != v && (
                    self.state >> (j as u128)) & 1u128 == 1u128));
                }
            }
        }
        r
    }

    pub fn remove(&mut self, index: Index)
        requires
            old(self).wf(),
            index.wf(),
        ensures
            final(self).wf(),
            forall|j: int| #[trigger] final(self).has(j) <==> (old(self).has(j) && j != index@),
    {
        let r = self.without_index(index);
        *self = r;
    }

    pub fn with_union(self, other: &IndexBitSet) -> (r: Self)
        requires
            self.wf(),
        ensures
            r.wf(),
            forall|j: int| #[trigger] r.has(j) <==> (self.has(j) || other.has(j)),
    {
        let r = Self { state: self.state | (other.state & 0x1_FFFF_FFFF_FFFF_FFFF_FFFFu128) };
        proof {
            lemma_u128_or(self.state, other.state);
            assert forall|j: int| #[trigger] r.has(j) <==> (self.has(j) || other.has(j)) by {
                if 0 <= j < 81 {
                    assert((r.state >> (j as u128)) & 1u128 == 1u128 <==> ((self.state >> (
                    j as u128)) & 1u128 == 1u128 || (other.state >> (j as u128)) & 1u128 == 1u128));
                }
            }
        }
        r
    }

    pub fn union(&mut self, other: &IndexBitSet)
        requires
            old(self).wf(),
        ensures
            final(self).wf(),
            forall|j: int| #[trigger] final(self).has(j) <==> (old(self).has(j) || other.has(j)),
    {
        let r = self.with_union(other);
        *self = r;
    }

    /// True when the two sets share at least one index.
    pub fn overlaps_with(&self, other: &IndexBitSet) -> (r: bool)
        requires
            self.wf(),
            other.wf(),
        ensures
            r <==> (exists|j: int| self.has(j) && other.has(j)),
    {
        let state = (self.state & other.state) & 0x1_FFFF_FFFF_FFFF_FFFF_FFFFu128;
        proof {
            lemma_u128_and_bits(self.state, other.state);
            if state > 0 {
                lemma_u128_nonzero(state, 81);
                let j = choose|j: int| 0 <= j < 81 && #[trigger] bit128(state, j);
                assert((state >> (j as u128)) & 1u128 == 1u128);
                assert(self.has(j) && other.has(j));
            } else {
                lemma_u128_zero_bits();
                assert forall|j: int| !(self.has(j) && other.has(j)) by {
                    if 0 <= j < 81 && self.has(j) && other.has(j) {
                        assert((state >> (j as u128)) & 1u128 == 1u128);
                        assert(!((0u128 >> (j as u128)) & 1u128 == 1u128));
                    }
                }
            }
        }
        state > 0
    }

    pub fn contains(&self, index: Index) -> (r: bool)
        requires
            self.wf(),
            index.wf(),
        ensures
            r == self.has(index@),
    {
        let v: u128 = index.get() as u128;
        let flag = self.state & (1u128 << v);
        proof {
            lemma_u128_or_bit(self.state, v);
        }
        flag != 0
    }

    pub fn contains_coord(&self, coord: Coordinate) -> (r: bool)
        requires
            self.wf(),
            coord.wf(),
        ensures
            r == self.has(coord.y * 9 + coord.x),
    {
        self.contains(coord.into_index())
    }

    pub fn contains_xy(&self, x: u8, y: u8) -> (r: bool)
        requires
            self.wf(),
            x < 9,
            y < 9,
        ensures
            r == self.has(y * 9 + x),
    {
        self.contains_coord(Coordinate::new(x, y))
    }

    /// Gets the number of indexes in this set.
    pub fn len(&self) -> (r: usize)
        requires
            self.wf(),
        ensures
            r == self.card(),
    {
        let mut n: usize = 0;
        let mut k: u8 = 0;
        while k < 81
            invariant
                0 <= k <= 81,
                n == self.card_upto(k as int),
                n <= k,
            decreases 81 - k,
        {
            if (self.state >> (k as u128)) & 1u128 == 1u128 {
                proof {
                    assert(self.has(k as int));
                }
                n = n + 1;
            } else {
                proof {
                    assert(!self.has(k as int));
                }
            }
            k = k + 1;
        }
        n
    }

    pub fn is_empty(&self) -> (r: bool)
        requires
            self.wf(),
        ensures
            r <==> (forall|j: int| !self.has(j)),
    {
        proof {
            lemma_u128_mask_is_bound(self.state);
            if self.state == 0 {
                lemma_u128_zero_bits();
                assert forall|j: int| !self.has(j) by {
                    if 0 <= j < 81 {
                        assert(!((0u128 >> (j as u128)) & 1u128 == 1u128));
                    }
                }
            } else {
                lemma_u128_nonzero(self.state, 81);
                let j = choose|j: int| 0 <= j < 81 && #[trigger] bit128(self.state, j);
                assert(self.has(j));
            }
        }
        self.state & 0x1_FFFF_FFFF_FFFF_FFFF_FFFFu128 == 0
    }

    pub fn iter(&self) -> (r: IndexBitSetIter)
        ensures
            r.value == *self,
            r.index == 0,
    {
        IndexBitSetIter { value: *self, index: 0 }
    }

    /// Collects a set from a slice of indexes.
    pub fn from_iter(items: &[Index]) -> (r: Self)
        requires
            forall|k: int| 0 <= k < items@.len() ==> (#[trigger] items@[k]).wf(),
        ensures
            r.wf(),
            forall|j: int| #[trigger] r.has(j) <==> (exists|k: int| 0 <= k < items@.len() && items@[k]@ == j),
    {
        let mut r = Self::empty();
        let mut i: usize = 0;
        while i < items.len()
            invariant
                0 <= i <= items@.len(),
                r.wf(),
                forall|k: int| 0 <= k < items@.len() ==> (#[trigger] items@[k]).wf(),
                forall|j: int|
                    r.has(j) <==> (exists|k: int| 0 <= k < i && (#[trigger] items@[k])@ == j),
            decreases items@.len() - i,
        {
            let v = items[i];
            r = r.with_index(v);
            proof {
                assert forall|j: int|
                    r.has(j) <==> (exists|k: int| 0 <= k < i + 1 && (#[trigger] items@[k])@
                        == j) by {
                    if r.has(j) && j == v@ {
                        assert(items@[i as int]@ == j);
                    }
                }
            }
            i = i + 1;
        }
        r
    }

    proof fn lemma_card_upto_mono(self, k: int, m: int)
        requires
            0 <= k <= m,
        ensures
            self.card_upto(k) <= self.card_upto(m),
        decreases m - k,
    {
        if k < m {
            self.lemma_card_upto_mono(k, m - 1);
        }
    }

    /// Four distinct members keep the cardinality at four or above.
    pub proof fn lemma_card_members4(self, a: int, b: int, c: int, d: int)
        requires
            a < b < c,
            c < d,
            self.has(a),
            self.has(b),
            self.has(c),
            self.has(d),
        ensures
            self.card() >= 4,
    {
        self.lemma_card_upto_mono(0, a);
        assert(self.card_upto(a + 1) >= 1);
        self.lemma_card_upto_mono(a + 1, b);
        assert(self.card_upto(b + 1) >= 2);
        self.lemma_card_upto_mono(b + 1, c);
        assert(self.card_upto(c + 1) >= 3);
        self.lemma_card_upto_mono(c + 1, d);
        assert(self.card_upto(d + 1) >= 4);
        self.lemma_card_upto_mono(d + 1, 81);
    }

    /// Well-formed sets with the same members are equal.
    pub proof fn lemma_ext(self, other: IndexBitSet)
        requires
            self.wf(),
            other.wf(),
            forall|j: int| self.has(j) <==> other.has(j),
        ensures
            self == other,
    {
        assert forall|j: int| 0 <= j < 81 implies (bit128(self.state, j) <==> bit128(
            other.state,
            j,
        )) by {
            assert(self.has(j) <==> other.has(j));
        }
        lemma_u128_ext(self.state, other.state);
    }
}

impl Default for IndexBitSet {
    fn default() -> (r: Self)
        ensures
            r.wf(),
            forall|j: int| !r.has(j),
    {
        Self::empty()
    }
}

/// Iterates the members of an [`IndexBitSet`] in ascending order.
pub struct IndexBitSetIter {
    pub value: IndexBitSet,
    pub index: u8,
}

/// The smallest member of the set that is at least `lo`, or 81 when there
/// is none.
pub open spec fn ibs_min_from(s: IndexBitSet, lo: int) -> int
    decreases 81 - lo,
{
    if lo >= 81 {
        81
    } else if s.has(lo) {
        lo
    } else {
        ibs_min_from(s, lo + 1)
    }
}

impl IndexBitSetIter {
    pub fn next(&mut self) -> (r: Option<Index>)
        requires
            old(self).value.wf(),
        ensures
            final(self).value == old(self).value,
            ({
                let m = ibs_min_from(old(self).value, old(self).index as int);
                if m <= 80 {
                    r matches Some(v) && v.wf() && v@ == m && final(self).index == m + 1
                } else {
                    r is None && final(self).index == 81
                }
            }),
    {
        let state = self.value.state;
        let mut index = self.index;
        proof {
            if self.index >= 81 {
                assert(ibs_min_from(self.value, old(self).index as int) == 81);
            }
        }
        while index < 81
            invariant
                old(self).index <= index,
                self == old(self),
                state == self.value.state,
                self.value.wf(),
                index <= 81 || index == old(self).index,
                index <= 81 ==> ibs_min_from(self.value, old(self).index as int) == ibs_min_from(
                    self.value,
                    index as int,
                ),
                index > 81 ==> ibs_min_from(self.value, old(self).index as int) == 81,
            decreases 81 - index,
        {
            if (state >> (index as u128)) & 1u128 == 1u128 {
                proof {
                    assert(self.value.has(index as int));
                    assert(ibs_min_from(self.value, index as int) == index as int);
                }
                self.index = index + 1;
                return Some(Index { i: index });
            }
            proof {
                assert(!self.value.has(index as int));
            }
            index = index + 1;
        }
        proof {
            if index == 81 {
                assert(ibs_min_from(self.value, 81) == 81);
            }
        }
        self.index = 81;
        None
    }
}

} // verus!
