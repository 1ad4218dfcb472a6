//! Bit-level facts about the masked words that back the two bitset types.
//!
//! A `u16` word holds one bit per puzzle value (bit `j` stands for value
//! `j + 1`, nine bits in all); a `u128` word holds one bit per cell index
//! (bits 0 through 80). The lemmas here translate the bitwise operations
//! used by the bitsets into pointwise statements about single bits.

use vstd::prelude::*;

verus! {

/// Bit `j` of a value word.
pub open spec fn bit16(s: u16, j: int) -> bool {
    (s >> (j as u16)) & 1u16 == 1u16
}

/// Bit `j` of an index word.
pub open spec fn bit128(s: u128, j: int) -> bool {
    (s >> (j as u128)) & 1u128 == 1u128
}

pub proof fn lemma_u16_or_bit(s: u16, v: u16)
    by (bit_vector)
    requires
        v < 9,
    ensures
        forall|j: u16|
            j < 9 ==> (#[trigger] ((s | (1u16 << v)) >> j) & 1u16 == 1u16 <==> (j == v || (s >> j)
                & 1u16 == 1u16)),
        s < 512 ==> (s | (1u16 << v)) < 512,
{
}

pub proof fn lemma_u16_andnot_bit(s: u16, v: u16)
    by (bit_vector)
    requires
        v < 9,
    ensures
        forall|j: u16|
            j < 9 ==> (#[trigger] ((s & ((!(1u16 << v)) & 511u16)) >> j) & 1u16 == 1u16 <==> (j != v
                && (s >> j) & 1u16 == 1u16)),
        (s & ((!(1u16 << v)) & 511u16)) < 512,
{
}

pub proof fn lemma_u16_or(s: u16, t: u16)
    by (bit_vector)
    ensures
        forall|j: u16|
            j < 9 ==> (#[trigger] ((s | (t & 511u16)) >> j) & 1u16 == 1u16 <==> ((s >> j) & 1u16
                == 1u16 || (t >> j) & 1u16 == 1u16)),
        s < 512 ==> (s | (t & 511u16)) < 512,
{
}

pub proof fn lemma_u16_andnot(s: u16, t: u16)
    by (bit_vector)
    ensures
        forall|j: u16|
            j < 9 ==> (#[trigger] ((s & ((!t) & 511u16)) >> j) & 1u16 == 1u16 <==> ((s >> j) & 1u16
                == 1u16 && !((t >> j) & 1u16 == 1u16))),
        (s & ((!t) & 511u16)) < 512,
{
}

proof fn lemma_u16_test_bit_enum(s: u16, v: u16)
    by (bit_vector)
    requires
        v < 9,
        s < 512,
    ensures
        (s & (1u16 << v)) != 0 <==> (s >> v) & 1u16 == 1u16,
        (s & (1u16 << v)) == s <==> (s == 0 || s == (1u16 << v)),
{
}

pub proof fn lemma_u16_test_bit(s: u16, v: u16)
    requires
        v < 9,
        s < 512,
    ensures
        (s & (1u16 << v)) != 0 <==> bit16(s, v as int),
        (s & (1u16 << v)) == s <==> (forall|j: int| 0 <= j < 9 ==> (#[trigger] bit16(s, j) ==> j == v)),
{
    lemma_u16_test_bit_enum(s, v);
    lemma_u16_single(s, v);
    lemma_u16_empty(s);
    if s == (1u16 << v) {
        assert((1u16 << v) == ((1u16 << v) & 511u16)) by (bit_vector)
            requires
                v < 9,
        ;
    }
    if (forall|j: int| 0 <= j < 9 ==> (#[trigger] bit16(s, j) ==> j == v)) && s != 0 {
        assert(forall|j: int| 0 <= j < 9 ==> (bit16(s, j) <==> bit16((1u16 << v) & 511u16, j)));
        lemma_u16_ext(s, (1u16 << v) & 511u16);
    }
}

proof fn lemma_u16_subset_enum(s: u16, t: u16)
    by (bit_vector)
    requires
        s < 512,
        t < 512,
    ensures
        (s & t) == t <==> ((t >> 0) & 1u16 == 1u16 ==> (s >> 0) & 1u16 == 1u16) && ((t >> 1) & 1u16
            == 1u16 ==> (s >> 1) & 1u16 == 1u16) && ((t >> 2) & 1u16 == 1u16 ==> (s >> 2) & 1u16
            == 1u16) && ((t >> 3) & 1u16 == 1u16 ==> (s >> 3) & 1u16 == 1u16) && ((t >> 4) & 1u16
            == 1u16 ==> (s >> 4) & 1u16 == 1u16) && ((t >> 5) & 1u16 == 1u16 ==> (s >> 5) & 1u16
            == 1u16) && ((t >> 6) & 1u16 == 1u16 ==> (s >> 6) & 1u16 == 1u16) && ((t >> 7) & 1u16
            == 1u16 ==> (s >> 7) & 1u16 == 1u16) && ((t >> 8) & 1u16 == 1u16 ==> (s >> 8) & 1u16
            == 1u16),
        (s & t) != 0 <==> ((s >> 0) & 1u16 == 1u16 && (t >> 0) & 1u16 == 1u16) || ((s >> 1) & 1u16
            == 1u16 && (t >> 1) & 1u16 == 1u16) || ((s >> 2) & 1u16 == 1u16 && (t >> 2) & 1u16
            == 1u16) || ((s >> 3) & 1u16 == 1u16 && (t >> 3) & 1u16 == 1u16) || ((s >> 4) & 1u16
            == 1u16 && (t >> 4) & 1u16 == 1u16) || ((s >> 5) & 1u16 == 1u16 && (t >> 5) & 1u16
            == 1u16) || ((s >> 6) & 1u16 == 1u16 && (t >> 6) & 1u16 == 1u16) || ((s >> 7) & 1u16
            == 1u16 && (t >> 7) & 1u16 == 1u16) || ((s >> 8) & 1u16 == 1u16 && (t >> 8) & 1u16
            == 1u16),
{
}

pub proof fn lemma_u16_subset(s: u16, t: u16)
    requires
        s < 512,
        t < 512,
    ensures
        (s & t) == t <==> (forall|j: int| 0 <= j < 9 ==> (#[trigger] bit16(t, j) ==> bit16(s, j))),
        (s & t) != 0 <==> (exists|j: int| 0 <= j < 9 && #[trigger] bit16(s, j) && bit16(t, j)),
{
    lemma_u16_subset_enum(s, t);
    assert forall|j: int| 0 <= j < 9 implies (bit16(t, j) == ((t >> (j as u16)) & 1u16 == 1u16))
        && (bit16(s, j) == ((s >> (j as u16)) & 1u16 == 1u16)) by {}
    if (s & t) == t {
        assert forall|j: int| 0 <= j < 9 && #[trigger] bit16(t, j) implies bit16(s, j) by {
            let ju = j as u16;
            assert(ju == 0 || ju == 1 || ju == 2 || ju == 3 || ju == 4 || ju == 5 || ju == 6 || ju
                == 7 || ju == 8);
        }
    } else {
        assert(!((s & t) == t));
        assert(exists|j: int| 0 <= j < 9 && #[trigger] bit16(t, j) && !bit16(s, j)) by {
            if (t >> 0) & 1u16 == 1u16 && !((s >> 0) & 1u16 == 1u16) {
                assert(bit16(t, 0) && !bit16(s, 0));
            } else if (t >> 1) & 1u16 == 1u16 && !((s >> 1) & 1u16 == 1u16) {
                assert(bit16(t, 1) && !bit16(s, 1));
            } else if (t >> 2) & 1u16 == 1u16 && !((s >> 2) & 1u16 == 1u16) {
                assert(bit16(t, 2) && !bit16(s, 2));
            } else if (t >> 3) & 1u16 == 1u16 && !((s >> 3) & 1u16 == 1u16) {
                assert(bit16(t, 3) && !bit16(s, 3));
            } else if (t >> 4) & 1u16 == 1u16 && !((s >> 4) & 1u16 == 1u16) {
                assert(bit16(t, 4) && !bit16(s, 4));
            } else if (t >> 5) & 1u16 == 1u16 && !((s >> 5) & 1u16 == 1u16) {
                assert(bit16(t, 5) && !bit16(s, 5));
            } else if (t >> 6) & 1u16 == 1u16 && !((s >> 6) & 1u16 == 1u16) {
                assert(bit16(t, 6) && !bit16(s, 6));
            } else if (t >> 7) & 1u16 == 1u16 && !((s >> 7) & 1u16 == 1u16) {
                assert(bit16(t, 7) && !bit16(s, 7));
            } else {
                assert(bit16(t, 8) && !bit16(s, 8));
            }
        }
    }
    if (s & t) != 0 {
        assert(exists|j: int| 0 <= j < 9 && #[trigger] bit16(s, j) && bit16(t, j)) by {
            if (s >> 0) & 1u16 == 1u16 && (t >> 0) & 1u16 == 1u16 {
                assert(bit16(s, 0) && bit16(t, 0));
            } else if (s >> 1) & 1u16 == 1u16 && (t >> 1) & 1u16 == 1u16 {
                assert(bit16(s, 1) && bit16(t, 1));
            } else if (s >> 2) & 1u16 == 1u16 && (t >> 2) & 1u16 == 1u16 {
                assert(bit16(s, 2) && bit16(t, 2));
            } else if (s >> 3) & 1u16 == 1u16 && (t >> 3) & 1u16 == 1u16 {
                assert(bit16(s, 3) && bit16(t, 3));
            } else if (s >> 4) & 1u16 == 1u16 && (t >> 4) & 1u16 == 1u16 {
                assert(bit16(s, 4) && bit16(t, 4));
            } else if (s >> 5) & 1u16 == 1u16 && (t >> 5) & 1u16 == 1u16 {
                assert(bit16(s, 5) && bit16(t, 5));
            } else if (s >> 6) & 1u16 == 1u16 && (t >> 6) & 1u16 == 1u16 {
                assert(bit16(s, 6) && bit16(t, 6));
            } else if (s >> 7) & 1u16 == 1u16 && (t >> 7) & 1u16 == 1u16 {
                assert(bit16(s, 7) && bit16(t, 7));
            } else {
                assert(bit16(s, 8) && bit16(t, 8));
            }
        }
    } else {
        assert forall|j: int| 0 <= j < 9 && #[trigger] bit16(s, j) implies !bit16(t, j) by {
            let ju = j as u16;
            assert(ju == 0 || ju == 1 || ju == 2 || ju == 3 || ju == 4 || ju == 5 || ju == 6 || ju
                == 7 || ju == 8);
        }
    }
}

proof fn lemma_u16_ext_enum(s: u16, t: u16)
    by (bit_vector)
    requires
        s < 512,
        t < 512,
        (s >> 0) & 1u16 == (t >> 0) & 1u16,
        (s >> 1) & 1u16 == (t >> 1) & 1u16,
        (s >> 2) & 1u16 == (t >> 2) & 1u16,
        (s >> 3) & 1u16 == (t >> 3) & 1u16,
        (s >> 4) & 1u16 == (t >> 4) & 1u16,
        (s >> 5) & 1u16 == (t >> 5) & 1u16,
        (s >> 6) & 1u16 == (t >> 6) & 1u16,
        (s >> 7) & 1u16 == (t >> 7) & 1u16,
        (s >> 8) & 1u16 == (t >> 8) & 1u16,
    ensures
        s == t,
{
}

pub proof fn lemma_u16_ext(s: u16, t: u16)
    requires
        s < 512,
        t < 512,
        forall|j: int| 0 <= j < 9 ==> (#[trigger] bit16(s, j) <==> bit16(t, j)),
    ensures
        s == t,
{
    assert forall|j: u16| j < 9 implies (s >> j) & 1u16 == (t >> j) & 1u16 by {
        assert(bit16(s, j as int) <==> bit16(t, j as int));
        assert((s >> j) & 1u16 == 0 || (s >> j) & 1u16 == 1) by (bit_vector);
        assert((t >> j) & 1u16 == 0 || (t >> j) & 1u16 == 1) by (bit_vector);
    }
    lemma_u16_ext_enum(s, t);
}

pub proof fn lemma_u16_single(s: u16, v: u16)
    by (bit_vector)
    requires
        v < 9,
    ensures
        ((1u16 << v) & 511u16) < 512,
        (1u16 << v) == ((1u16 << v) & 511u16),
        forall|j: u16|
            j < 9 ==> (#[trigger] (((1u16 << v) & 511u16) >> j) & 1u16 == 1u16 <==> j == v),
{
}

proof fn lemma_u16_empty_enum(s: u16)
    by (bit_vector)
    requires
        s < 512,
    ensures
        s == 0 <==> !((s >> 0) & 1u16 == 1u16) && !((s >> 1) & 1u16 == 1u16) && !((s >> 2) & 1u16
            == 1u16) && !((s >> 3) & 1u16 == 1u16) && !((s >> 4) & 1u16 == 1u16) && !((s >> 5)
            & 1u16 == 1u16) && !((s >> 6) & 1u16 == 1u16) && !((s >> 7) & 1u16 == 1u16) && !((s
            >> 8) & 1u16 == 1u16),
{
}

pub proof fn lemma_u16_empty(s: u16)
    requires
        s < 512,
    ensures
        s == 0 <==> (forall|j: int| 0 <= j < 9 ==> !#[trigger] bit16(s, j)),
{
    lemma_u16_empty_enum(s);
    if s == 0 {
        assert forall|j: int| 0 <= j < 9 implies !bit16(s, j) by {
            let ju = j as u16;
            assert(ju == 0 || ju == 1 || ju == 2 || ju == 3 || ju == 4 || ju == 5 || ju == 6 || ju
                == 7 || ju == 8);
        }
    } else {
        assert(exists|j: int| 0 <= j < 9 && #[trigger] bit16(s, j)) by {
            if (s >> 0) & 1u16 == 1u16 {
                assert(bit16(s, 0));
            } else if (s >> 1) & 1u16 == 1u16 {
                assert(bit16(s, 1));
            } else if (s >> 2) & 1u16 == 1u16 {
                assert(bit16(s, 2));
            } else if (s >> 3) & 1u16 == 1u16 {
                assert(bit16(s, 3));
            } else if (s >> 4) & 1u16 == 1u16 {
                assert(bit16(s, 4));
            } else if (s >> 5) & 1u16 == 1u16 {
                assert(bit16(s, 5));
            } else if (s >> 6) & 1u16 == 1u16 {
                assert(bit16(s, 6));
            } else {
                assert(bit16(s, 7) || bit16(s, 8));
            }
        }
    }
}

pub proof fn lemma_u16_and(s: u16, t: u16)
    by (bit_vector)
    ensures
        forall|j: u16|
            j < 9 ==> (#[trigger] ((s & t) >> j) & 1u16 == 1u16 <==> ((s >> j) & 1u16 == 1u16 && (t
                >> j) & 1u16 == 1u16)),
        s < 512 ==> (s & t) < 512,
{
}

/// All 81 index bits.
pub open spec fn mask81() -> u128 {
    0x1_FFFF_FFFF_FFFF_FFFF_FFFFu128
}

pub proof fn lemma_u128_mask_is_bound(s: u128)
    by (bit_vector)
    ensures
        s & 0x1_FFFF_FFFF_FFFF_FFFF_FFFFu128 == s <==> s < (1u128 << 81),
        (s & 0x1_FFFF_FFFF_FFFF_FFFF_FFFFu128) < (1u128 << 81),
{
}

pub proof fn lemma_u128_or_bit(s: u128, v: u128)
    by (bit_vector)
    requires
        v < 81,
    ensures
        forall|j: u128|
            j < 81 ==> (#[trigger] ((s | (1u128 << v)) >> j) & 1u128 == 1u128 <==> (j == v || (s
                >> j) & 1u128 == 1u128)),
        s < (1u128 << 81) ==> (s | (1u128 << v)) < (1u128 << 81),
        (s & (1u128 << v)) != 0 <==> (s >> v) & 1u128 == 1u128,
        (1u128 << v) == ((1u128 << v) & 0x1_FFFF_FFFF_FFFF_FFFF_FFFFu128),
{
}

pub proof fn lemma_u128_andnot_bit(s: u128, v: u128)
    by (bit_vector)
    requires
        v < 81,
    ensures
        forall|j: u128|
            j < 81 ==> (#[trigger] ((s & ((!(1u128 << v)) & 0x1_FFFF_FFFF_FFFF_FFFF_FFFFu128)) >> j)
                & 1u128 == 1u128 <==> (j != v && (s >> j) & 1u128 == 1u128)),
        (s & ((!(1u128 << v)) & 0x1_FFFF_FFFF_FFFF_FFFF_FFFFu128)) < (1u128 << 81),
{
}

pub proof fn lemma_u128_or(s: u128, t: u128)
    by (bit_vector)
    ensures
        forall|j: u128|
            j < 81 ==> (#[trigger] ((s | (t & 0x1_FFFF_FFFF_FFFF_FFFF_FFFFu128)) >> j) & 1u128
                == 1u128 <==> ((s >> j) & 1u128 == 1u128 || (t >> j) & 1u128 == 1u128)),
        s < (1u128 << 81) ==> (s | (t & 0x1_FFFF_FFFF_FFFF_FFFF_FFFFu128)) < (1u128 << 81),
{
}

pub proof fn lemma_u128_and_bits(s: u128, t: u128)
    by (bit_vector)
    ensures
        forall|j: u128|
            j < 81 ==> (#[trigger] (((s & t) & 0x1_FFFF_FFFF_FFFF_FFFF_FFFFu128) >> j) & 1u128
                == 1u128 <==> ((s >> j) & 1u128 == 1u128 && (t >> j) & 1u128 == 1u128)),
        ((s & t) & 0x1_FFFF_FFFF_FFFF_FFFF_FFFFu128) < (1u128 << 81),
{
}

proof fn lemma_u128_shrink(s: u128, a: u128)
    by (bit_vector)
    requires
        a < 127,
        !((s >> a) & 1u128 == 1u128),
        s < (1u128 << (a + 1)),
    ensures
        s < (1u128 << a),
{
}

/// A nonzero word below `1 << k` has a set bit below `k`.
pub proof fn lemma_u128_nonzero(s: u128, k: u128)
    requires
        s != 0,
        k <= 81,
        s < (1u128 << k),
    ensures
        exists|j: int| 0 <= j < k && #[trigger] bit128(s, j),
    decreases k,
{
    if k == 0 {
        assert(s < (1u128 << 0) ==> s == 0) by (bit_vector);
    } else {
        if bit128(s, k - 1) {
            assert(0 <= k - 1 < k && bit128(s, k - 1));
        } else {
            assert(((k - 1) as u128) < 127 && (k - 1) as u128 + 1 == k) by (bit_vector)
                requires
                    0 < k <= 81,
            ;
            lemma_u128_shrink(s, (k - 1) as u128);
            lemma_u128_nonzero(s, (k - 1) as u128);
        }
    }
}

pub proof fn lemma_u128_zero_bits()
    by (bit_vector)
    ensures
        forall|j: u128| j < 81 ==> !(#[trigger] (0u128 >> j) & 1u128 == 1u128),
{
}

/// Two 81-bit words with the same bits are equal.
pub proof fn lemma_u128_ext(s: u128, t: u128)
    requires
        s < (1u128 << 81),
        t < (1u128 << 81),
        forall|j: int| 0 <= j < 81 ==> (#[trigger] bit128(s, j) <==> bit128(t, j)),
    ensures
        s == t,
{
    if s != t {
        let d = s ^ t;
        assert(d != 0 && d < (1u128 << 81)) by (bit_vector)
            requires
                s < (1u128 << 81),
                t < (1u128 << 81),
                s != t,
                d == s ^ t,
        ;
        lemma_u128_nonzero(d, 81);
        let j = choose|j: int| 0 <= j < 81 && bit128(d, j);
        let ju = j as u128;
        assert(((d >> ju) & 1u128 == 1u128) ==> (((s >> ju) & 1u128 == 1u128) != ((t >> ju) & 1u128
            == 1u128))) by (bit_vector)
            requires
                d == s ^ t,
        ;
        assert(bit128(d, j));
        assert((d >> ju) & 1u128 == 1u128);
        assert(bit128(s, j) != bit128(t, j));
        assert(false);
    }
}

} // verus!
