//! Facts about single bits of 64-bit words, proved with the bit-vector
//! solver, on which the card sets rest.
use vstd::prelude::*;

verus! {

/// Bit `i` of `x` is set.
pub open spec fn has_bit(x: u64, i: int) -> bool {
    0 <= i < 64 && (x >> (i as u64)) & 1u64 == 1u64
}

/// The word with the low 52 bits set: one bit per card.
pub open spec fn full_mask() -> u64 {
    0xF_FFFF_FFFF_FFFFu64
}

pub proof fn lemma_bit_or_single(x: u64, i: u64, j: u64)
    requires
        i < 64,
        j < 64,
    ensures
        has_bit(x | (1u64 << i), j as int) == (has_bit(x, j as int) || i == j),
{
    assert(((x | (1u64 << i)) >> j) & 1u64 == 1u64 <==> ((x >> j) & 1u64 == 1u64 || i == j))
        by (bit_vector)
        requires
            i < 64,
            j < 64,
    ;
}

pub proof fn lemma_bit_clear_single(x: u64, i: u64, j: u64)
    requires
        i < 64,
        j < 64,
    ensures
        has_bit(x & !(1u64 << i), j as int) == (has_bit(x, j as int) && i != j),
{
    assert(((x & !(1u64 << i)) >> j) & 1u64 == 1u64 <==> ((x >> j) & 1u64 == 1u64 && i != j))
        by (bit_vector)
        requires
            i < 64,
            j < 64,
    ;
}

pub proof fn lemma_bit_xor_single(x: u64, i: u64, j: u64)
    requires
        i < 64,
        j < 64,
    ensures
        has_bit(x ^ (1u64 << i), j as int) == (has_bit(x, j as int) != (i == j)),
{
    assert(((x ^ (1u64 << i)) >> j) & 1u64 == 1u64 <==> ((x >> j) & 1u64 == 1u64) != (i == j))
        by (bit_vector)
        requires
            i < 64,
            j < 64,
    ;
}

pub proof fn lemma_bit_test(x: u64, i: u64)
    requires
        i < 64,
    ensures
        ((x & (1u64 << i)) != 0) == has_bit(x, i as int),
{
    assert(((x & (1u64 << i)) != 0) <==> ((x >> i) & 1u64 == 1u64)) by (bit_vector)
        requires
            i < 64,
    ;
}

pub proof fn lemma_bit_binops(x: u64, y: u64, j: u64)
    requires
        j < 64,
    ensures
        has_bit(x | y, j as int) == (has_bit(x, j as int) || has_bit(y, j as int)),
        has_bit(x & y, j as int) == (has_bit(x, j as int) && has_bit(y, j as int)),
        has_bit(x ^ y, j as int) == (has_bit(x, j as int) != has_bit(y, j as int)),
        has_bit(!x & full_mask(), j as int) == (j < 52 && !has_bit(x, j as int)),
{
    assert({
        &&& ((x | y) >> j) & 1u64 == 1u64 <==> ((x >> j) & 1u64 == 1u64 || (y >> j) & 1u64 == 1u64)
        &&& ((x & y) >> j) & 1u64 == 1u64 <==> ((x >> j) & 1u64 == 1u64 && (y >> j) & 1u64 == 1u64)
        &&& ((x ^ y) >> j) & 1u64 == 1u64 <==> ((x >> j) & 1u64 == 1u64) != ((y >> j) & 1u64
            == 1u64)
        &&& ((!x & 0xF_FFFF_FFFF_FFFFu64) >> j) & 1u64 == 1u64 <==> (j < 52 && (x >> j) & 1u64
            != 1u64)
    }) by (bit_vector)
        requires
            j < 64,
    ;
}

/// Words below 2^52 have no bit at 52 or above, and the bounded words are
/// closed under the operations the card sets use.
pub proof fn lemma_bounded_ops(x: u64, y: u64, i: u64)
    requires
        x <= full_mask(),
        y <= full_mask(),
        i < 52,
    ensures
        x | y <= full_mask(),
        x & y <= full_mask(),
        x ^ y <= full_mask(),
        !x & full_mask() <= full_mask(),
        x | (1u64 << i) <= full_mask(),
        x & !(1u64 << i) <= full_mask(),
        x ^ (1u64 << i) <= full_mask(),
{
    assert({
        &&& x | y <= 0xF_FFFF_FFFF_FFFFu64
        &&& x & y <= 0xF_FFFF_FFFF_FFFFu64
        &&& x ^ y <= 0xF_FFFF_FFFF_FFFFu64
        &&& !x & 0xF_FFFF_FFFF_FFFFu64 <= 0xF_FFFF_FFFF_FFFFu64
        &&& x | (1u64 << i) <= 0xF_FFFF_FFFF_FFFFu64
        &&& x & !(1u64 << i) <= 0xF_FFFF_FFFF_FFFFu64
        &&& x ^ (1u64 << i) <= 0xF_FFFF_FFFF_FFFFu64
    }) by (bit_vector)
        requires
            x <= 0xF_FFFF_FFFF_FFFFu64,
            y <= 0xF_FFFF_FFFF_FFFFu64,
            i < 52,
    ;
}

pub proof fn lemma_bounded_high_bits(x: u64, j: u64)
    requires
        x <= full_mask(),
        52 <= j < 64,
    ensures
        !has_bit(x, j as int),
{
    assert((x >> j) & 1u64 != 1u64) by (bit_vector)
        requires
            x <= 0xF_FFFF_FFFF_FFFFu64,
            52 <= j < 64,
    ;
}

pub proof fn lemma_full_mask_bits(j: u64)
    requires
        j < 64,
    ensures
        has_bit(full_mask(), j as int) == (j < 52),
{
    assert(((0xF_FFFF_FFFF_FFFFu64 >> j) & 1u64 == 1u64) <==> j < 52) by (bit_vector)
        requires
            j < 64,
    ;
}

pub proof fn lemma_zero_bits(j: u64)
    requires
        j < 64,
    ensures
        !has_bit(0u64, j as int),
{
    assert((0u64 >> j) & 1u64 != 1u64) by (bit_vector);
}

} // verus!
