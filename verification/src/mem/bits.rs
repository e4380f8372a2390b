//! Facts about single bits of a 64-bit word.

use vstd::prelude::*;
use vstd::std_specs::bits::{axiom_u64_trailing_ones, axiom_u64_trailing_zeros, u64_trailing_ones, u64_trailing_zeros};

verus! {

/// Whether bit `i` of `w` is set.
pub open spec fn bit_set(w: u64, i: int) -> bool {
    (w >> (i as u64)) & 1u64 == 1u64
}

/// Setting bit `i` changes bit `i` and no other.
pub proof fn lemma_or_bit(w: u64, i: u64, j: u64)
    requires
        i < 64,
        j < 64,
    ensures
        bit_set(w | (1u64 << i), j as int) == (i == j || bit_set(w, j as int)),
{
    assert((((w | (1u64 << i)) >> j) & 1u64 == 1u64) == (i == j || (w >> j) & 1u64 == 1u64))
        by (bit_vector)
        requires
            i < 64,
            j < 64,
    ;
}

/// Clearing bit `i` changes bit `i` and no other.
pub proof fn lemma_clear_bit(w: u64, i: u64, j: u64)
    requires
        i < 64,
        j < 64,
    ensures
        bit_set(w & !(1u64 << i), j as int) == (i != j && bit_set(w, j as int)),
{
    assert((((w & !(1u64 << i)) >> j) & 1u64 == 1u64) == (i != j && (w >> j) & 1u64 == 1u64))
        by (bit_vector)
        requires
            i < 64,
            j < 64,
    ;
}

/// Every bit of the all-ones word is set, and no bit of the zero word is.
pub proof fn lemma_full_and_empty(j: u64)
    requires
        j < 64,
    ensures
        bit_set(0xffff_ffff_ffff_ffffu64, j as int),
        !bit_set(0u64, j as int),
{
    assert((0xffff_ffff_ffff_ffffu64 >> j) & 1u64 == 1u64) by (bit_vector)
        requires
            j < 64,
    ;
    assert((0u64 >> j) & 1u64 == 0u64) by (bit_vector);
}

/// The number of trailing ones is the index of the lowest clear bit, and it
/// is 64 exactly for the all-ones word.
pub proof fn lemma_trailing_ones(w: u64)
    ensures
        u64_trailing_ones(w) <= 64,
        u64_trailing_ones(w) == 64 <==> w == 0xffff_ffff_ffff_ffffu64,
        u64_trailing_ones(w) < 64 ==> !bit_set(w, u64_trailing_ones(w) as int),
        forall|j: int| 0 <= j < u64_trailing_ones(w) ==> bit_set(w, j),
{
    axiom_u64_trailing_ones(w);
    let t = u64_trailing_ones(w);
    assert forall|j: int| 0 <= j < t implies bit_set(w, j) by {
        let ju = j as u64;
        assert((w >> ju) & 1u64 == 1u64);
    }
    if t < 64 {
        let tu = t as u64;
        assert((w >> tu) & 1u64 == 0u64);
    }
}

/// Two words with the same bits are the same word.
pub proof fn lemma_bits_determine_word(a: u64, b: u64)
    requires
        forall|j: int| 0 <= j < 64 ==> bit_set(a, j) == bit_set(b, j),
    ensures
        a == b,
{
    if a != b {
        let x = a ^ b;
        assert(x != 0) by (bit_vector)
            requires
                x == a ^ b,
                a != b,
        ;
        axiom_u64_trailing_zeros(x);
        let t = u64_trailing_zeros(x);
        assert(t < 64);
        let tu = t as u64;
        assert((x >> tu) & 1u64 == 1u64);
        assert(((a >> tu) & 1u64 == 1u64) != ((b >> tu) & 1u64 == 1u64)) by (bit_vector)
            requires
                x == a ^ b,
                (x >> tu) & 1u64 == 1u64,
                tu < 64,
        ;
        assert(bit_set(a, t as int) != bit_set(b, t as int));
    }
}

/// Index of the lowest clear bit of `w`, or 64 if `w` is all ones.
pub fn lowest_clear_bit(w: u64) -> (bit: usize)
    ensures
        bit <= 64,
        bit == 64 <==> w == 0xffff_ffff_ffff_ffffu64,
        bit < 64 ==> !bit_set(w, bit as int),
        forall|j: int| 0 <= j < bit ==> bit_set(w, j),
        bit == u64_trailing_ones(w),
{
    proof {
        lemma_trailing_ones(w);
    }
    w.trailing_ones() as usize
}

/// The word with bit `bit` set and no other.
pub fn bit_mask(bit: usize) -> (mask: u64)
    requires
        bit < 64,
    ensures
        mask == 1u64 << (bit as u64),
{
    1u64 << bit
}

} // verus!
