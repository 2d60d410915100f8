//! On five distinct cards the seven-card evaluation gives the same rank as
//! the five-card evaluation: ranking the best five of five cards is ranking
//! those five cards.

use vstd::prelude::*;
use vstd::std_specs::bits::{axiom_u32_leading_zeros, u32_leading_zeros};
use crate::cards::card::{suit_index, value_index, Card};
use crate::cards::rank::{
    count_mask, flush_suit, highest_bit, keep_n_spec, lemma_pop_zero, rank_five_spec,
    rank_seven_spec, suit_value_masks, pop32, pop_low, straight_rank, suit_mask, suit_value_mask,
    value_count, value_mask, STRAIGHT0, STRAIGHT1, STRAIGHT2, STRAIGHT3, STRAIGHT4, STRAIGHT5,
    STRAIGHT6, STRAIGHT7, STRAIGHT8, STRAIGHT9,
};
use crate::cards::rank_defined::{
    bit32, lemma_count_facts, lemma_count_mask_bits, lemma_pop_low13, total_below,
};

verus! {

/// Single bits of the results of the bitwise operations on 32-bit masks.
pub(crate) proof fn lemma_bit32_ops(x: u32, y: u32, w: u32, v: u32)
    requires
        v < 32,
        w < 32,
    ensures
        bit32(x ^ y, v as nat) == (bit32(x, v as nat) != bit32(y, v as nat)),
        bit32(x | y, v as nat) == (bit32(x, v as nat) || bit32(y, v as nat)),
        bit32(x & y, v as nat) == (bit32(x, v as nat) && bit32(y, v as nat)),
        !bit32(0u32, v as nat),
        bit32(1u32 << w, v as nat) == (v == w),
        ((x >> v) & 1u32 != 0u32) == bit32(x, v as nat),
{
    assert({
        &&& ((x ^ y) >> v) & 1u32 == 1u32 <==> (((x >> v) & 1u32 == 1u32) != ((y >> v) & 1u32
            == 1u32))
        &&& ((x | y) >> v) & 1u32 == 1u32 <==> ((x >> v) & 1u32 == 1u32 || (y >> v) & 1u32 == 1u32)
        &&& ((x & y) >> v) & 1u32 == 1u32 <==> ((x >> v) & 1u32 == 1u32 && (y >> v) & 1u32 == 1u32)
        &&& (0u32 >> v) & 1u32 != 1u32
        &&& ((1u32 << w) >> v) & 1u32 == 1u32 <==> v == w
        &&& ((x >> v) & 1u32 != 0u32) <==> ((x >> v) & 1u32 == 1u32)
    }) by (bit_vector)
        requires
            v < 32,
            w < 32,
    ;
}

/// The three shift facts from which two masks with the same bits are equal.
proof fn lemma_shift_facts(x: u32, y: u32, i: u32, j: u32)
    by (bit_vector)
    requires
        i < 32,
        j == i + 1,
    ensures
        x >> 32u32 == 0u32,
        x >> 0u32 == x,
        (x >> j == y >> j && (((x >> i) & 1u32 == 1u32) == ((y >> i) & 1u32 == 1u32))) ==> x >> i
            == y >> i,
{
}

/// Masks that agree on the bits from `i` up agree after shifting by `i`.
proof fn lemma_bit32_ext_from(x: u32, y: u32, i: nat)
    requires
        i <= 32,
        forall|v: nat| i <= v < 32 ==> #[trigger] bit32(x, v) == bit32(y, v),
    ensures
        x >> (i as u32) == y >> (i as u32),
    decreases 32 - i,
{
    if i < 32 {
        lemma_bit32_ext_from(x, y, i + 1);
        lemma_shift_facts(x, y, i as u32, (i + 1) as u32);
        assert(bit32(x, i) == bit32(y, i));
    } else {
        lemma_shift_facts(x, y, 0, 1);
        lemma_shift_facts(y, x, 0, 1);
    }
}

/// Two masks with the same bits are equal.
pub(crate) proof fn lemma_bit32_ext(x: u32, y: u32)
    requires
        forall|v: nat| v < 32 ==> #[trigger] bit32(x, v) == bit32(y, v),
    ensures
        x == y,
{
    lemma_bit32_ext_from(x, y, 0);
    lemma_shift_facts(x, y, 0, 1);
    lemma_shift_facts(y, x, 0, 1);
}

/// A mask whose bits are among those of another has no more of them.
pub(crate) proof fn lemma_pop_subset(x: u32, y: u32, i: nat)
    requires
        i <= 32,
        forall|v: nat| v < 32 && #[trigger] bit32(x, v) ==> bit32(y, v),
    ensures
        pop_low(x, i) <= pop_low(y, i),
    decreases i,
{
    if i > 0 {
        lemma_pop_subset(x, y, (i - 1) as nat);
        assert(bit32(x, (i - 1) as nat) ==> bit32(y, (i - 1) as nat));
    }
}

/// Removing a sub-mask removes its bits from the count.
pub(crate) proof fn lemma_pop_xor_subset(x: u32, y: u32, i: nat)
    requires
        i <= 32,
        forall|v: nat| v < 32 && #[trigger] bit32(x, v) ==> bit32(y, v),
    ensures
        pop_low(y ^ x, i) + pop_low(x, i) == pop_low(y, i),
    decreases i,
{
    if i > 0 {
        let j = (i - 1) as nat;
        lemma_pop_xor_subset(x, y, j);
        lemma_bit32_ops(y, x, 0, j as u32);
        assert(bit32(x, j) ==> bit32(y, j));
    }
}

/// A mask with a set bit `a` counts it.
pub(crate) proof fn lemma_pop_ge1(x: u32, a: nat, i: nat)
    requires
        i <= 32,
        a < 32,
        bit32(x, a),
    ensures
        pop_low(x, i) >= (if a < i { 1nat } else { 0nat }),
    decreases i,
{
    if i > 0 {
        lemma_pop_ge1(x, a, (i - 1) as nat);
    }
}

/// A mask with two different set bits counts both.
pub(crate) proof fn lemma_pop_ge2(x: u32, a: nat, b: nat, i: nat)
    requires
        i <= 32,
        a < 32,
        b < 32,
        a != b,
        bit32(x, a),
        bit32(x, b),
    ensures
        pop_low(x, i) >= (if a < i { 1nat } else { 0nat }) + (if b < i { 1nat } else { 0nat }),
    decreases i,
{
    if i > 0 {
        lemma_pop_ge2(x, a, b, (i - 1) as nat);
    }
}

/// How many of five positions lie below `i`.
pub(crate) open spec fn below5(a: nat, b: nat, c: nat, d: nat, e: nat, i: nat) -> nat {
    (if a < i { 1nat } else { 0nat }) + (if b < i { 1nat } else { 0nat }) + (if c < i {
        1nat
    } else {
        0nat
    }) + (if d < i { 1nat } else { 0nat }) + (if e < i { 1nat } else { 0nat })
}

/// A mask with five different set bits counts all five.
proof fn lemma_pop_ge5(x: u32, a: nat, b: nat, c: nat, d: nat, e: nat, i: nat)
    requires
        i <= 32,
        a < b < c < d < e < 32,
        bit32(x, a),
        bit32(x, b),
        bit32(x, c),
        bit32(x, d),
        bit32(x, e),
    ensures
        pop_low(x, i) >= below5(a, b, c, d, e, i),
    decreases i,
{
    if i > 0 {
        lemma_pop_ge5(x, a, b, c, d, e, (i - 1) as nat);
    }
}

/// A mask whose only set bit is `s` counts one bit.
pub(crate) proof fn lemma_pop_single(x: u32, s: nat, i: nat)
    requires
        i <= 32,
        s < 32,
        forall|v: nat| v < 32 ==> #[trigger] bit32(x, v) == (v == s),
    ensures
        pop_low(x, i) == (if s < i { 1nat } else { 0nat }),
    decreases i,
{
    if i > 0 {
        lemma_pop_single(x, s, (i - 1) as nat);
        assert(bit32(x, (i - 1) as nat) == (i - 1 == s));
    }
}

/// A mask with no set bit counted is zero.
pub(crate) proof fn lemma_pop_zero_is_zero(x: u32)
    requires
        pop32(x) == 0,
    ensures
        x == 0,
{
    assert forall|v: nat| v < 32 implies #[trigger] bit32(x, v) == bit32(0u32, v) by {
        lemma_bit32_ops(x, x, 0, v as u32);
        if bit32(x, v) {
            lemma_pop_ge1(x, v, 32);
        }
    }
    lemma_bit32_ext(x, 0u32);
}

/// A mask with one set bit is its own highest bit.
pub(crate) proof fn lemma_highest_single(x: u32)
    requires
        pop32(x) == 1,
    ensures
        highest_bit(x) == x,
{
    if x == 0 {
        lemma_pop_zero(32);
    }
    axiom_u32_leading_zeros(x);
    let lz = u32_leading_zeros(x);
    let k = (31 - lz) as u32;
    lemma_bit32_ops(x, x, k, k);
    assert(bit32(x, k as nat));
    assert forall|v: nat| v < 32 implies #[trigger] bit32(x, v) == bit32(1u32 << k, v) by {
        lemma_bit32_ops(x, x, k, v as u32);
        if bit32(x, v) && v != k {
            lemma_pop_ge2(x, v, k as nat, 32);
        }
    }
    lemma_bit32_ext(x, 1u32 << k);
}

/// The five values of each straight pattern.
proof fn lemma_straight_bits(m: u32)
    by (bit_vector)
    ensures
        m & 0x100Fu32 == 0x100Fu32 ==> (m >> 0u32) & 1u32 == 1u32 && (m >> 1u32) & 1u32 == 1u32 && (m >> 2u32) & 1u32 == 1u32 && (m >> 3u32) & 1u32 == 1u32 && (m >> 12u32) & 1u32 == 1u32,
        m & 0x001Fu32 == 0x001Fu32 ==> (m >> 0u32) & 1u32 == 1u32 && (m >> 1u32) & 1u32 == 1u32 && (m >> 2u32) & 1u32 == 1u32 && (m >> 3u32) & 1u32 == 1u32 && (m >> 4u32) & 1u32 == 1u32,
        m & 0x003Eu32 == 0x003Eu32 ==> (m >> 1u32) & 1u32 == 1u32 && (m >> 2u32) & 1u32 == 1u32 && (m >> 3u32) & 1u32 == 1u32 && (m >> 4u32) & 1u32 == 1u32 && (m >> 5u32) & 1u32 == 1u32,
        m & 0x007Cu32 == 0x007Cu32 ==> (m >> 2u32) & 1u32 == 1u32 && (m >> 3u32) & 1u32 == 1u32 && (m >> 4u32) & 1u32 == 1u32 && (m >> 5u32) & 1u32 == 1u32 && (m >> 6u32) & 1u32 == 1u32,
        m & 0x00F8u32 == 0x00F8u32 ==> (m >> 3u32) & 1u32 == 1u32 && (m >> 4u32) & 1u32 == 1u32 && (m >> 5u32) & 1u32 == 1u32 && (m >> 6u32) & 1u32 == 1u32 && (m >> 7u32) & 1u32 == 1u32,
        m & 0x01F0u32 == 0x01F0u32 ==> (m >> 4u32) & 1u32 == 1u32 && (m >> 5u32) & 1u32 == 1u32 && (m >> 6u32) & 1u32 == 1u32 && (m >> 7u32) & 1u32 == 1u32 && (m >> 8u32) & 1u32 == 1u32,
        m & 0x03E0u32 == 0x03E0u32 ==> (m >> 5u32) & 1u32 == 1u32 && (m >> 6u32) & 1u32 == 1u32 && (m >> 7u32) & 1u32 == 1u32 && (m >> 8u32) & 1u32 == 1u32 && (m >> 9u32) & 1u32 == 1u32,
        m & 0x07C0u32 == 0x07C0u32 ==> (m >> 6u32) & 1u32 == 1u32 && (m >> 7u32) & 1u32 == 1u32 && (m >> 8u32) & 1u32 == 1u32 && (m >> 9u32) & 1u32 == 1u32 && (m >> 10u32) & 1u32 == 1u32,
        m & 0x0F80u32 == 0x0F80u32 ==> (m >> 7u32) & 1u32 == 1u32 && (m >> 8u32) & 1u32 == 1u32 && (m >> 9u32) & 1u32 == 1u32 && (m >> 10u32) & 1u32 == 1u32 && (m >> 11u32) & 1u32 == 1u32,
        m & 0x1F00u32 == 0x1F00u32 ==> (m >> 8u32) & 1u32 == 1u32 && (m >> 9u32) & 1u32 == 1u32 && (m >> 10u32) & 1u32 == 1u32 && (m >> 11u32) & 1u32 == 1u32 && (m >> 12u32) & 1u32 == 1u32,
{
}

/// A straight takes five distinct values.
pub(crate) proof fn lemma_straight_needs_five(m: u32)
    requires
        straight_rank(m) is Some,
    ensures
        pop32(m) >= 5,
{
    lemma_straight_bits(m);
    if m & STRAIGHT9 == STRAIGHT9 {
        lemma_pop_ge5(m, 8, 9, 10, 11, 12, 32);
    } else if m & STRAIGHT8 == STRAIGHT8 {
        lemma_pop_ge5(m, 7, 8, 9, 10, 11, 32);
    } else if m & STRAIGHT7 == STRAIGHT7 {
        lemma_pop_ge5(m, 6, 7, 8, 9, 10, 32);
    } else if m & STRAIGHT6 == STRAIGHT6 {
        lemma_pop_ge5(m, 5, 6, 7, 8, 9, 32);
    } else if m & STRAIGHT5 == STRAIGHT5 {
        lemma_pop_ge5(m, 4, 5, 6, 7, 8, 32);
    } else if m & STRAIGHT4 == STRAIGHT4 {
        lemma_pop_ge5(m, 3, 4, 5, 6, 7, 32);
    } else if m & STRAIGHT3 == STRAIGHT3 {
        lemma_pop_ge5(m, 2, 3, 4, 5, 6, 32);
    } else if m & STRAIGHT2 == STRAIGHT2 {
        lemma_pop_ge5(m, 1, 2, 3, 4, 5, 32);
    } else if m & STRAIGHT1 == STRAIGHT1 {
        lemma_pop_ge5(m, 0, 1, 2, 3, 4, 32);
    } else {
        lemma_pop_ge5(m, 0, 1, 2, 3, 12, 32);
    }
}

/// Counting the values below `m` by how often they appear: the cards
/// number one per single value, two per pair, three per set and four per
/// quad, and the values number one per class.
pub(crate) proof fn lemma_count_split(cs: Seq<Card>, m: nat)
    requires
        m <= 13,
        forall|v: nat| v < 13 ==> #[trigger] value_count(cs, v) <= 4,
        forall|v: nat|
            v < 32 ==> #[trigger] bit32(value_mask(cs), v) == (v < 13 && value_count(cs, v) > 0),
        forall|v: nat, k: nat|
            v < 32 ==> #[trigger] bit32(count_mask(cs, k), v) == (v < 13 && value_count(cs, v)
                == k),
    ensures
        total_below(cs, m) == pop_low(count_mask(cs, 1), m) + 2 * pop_low(count_mask(cs, 2), m)
            + 3 * pop_low(count_mask(cs, 3), m) + 4 * pop_low(count_mask(cs, 4), m),
        pop_low(value_mask(cs), m) == pop_low(count_mask(cs, 1), m) + pop_low(count_mask(cs, 2), m)
            + pop_low(count_mask(cs, 3), m) + pop_low(count_mask(cs, 4), m),
    decreases m,
{
    if m > 0 {
        let j = (m - 1) as nat;
        lemma_count_split(cs, j);
        assert(value_count(cs, j) <= 4);
        assert(bit32(value_mask(cs), j) == (value_count(cs, j) > 0));
        assert(bit32(count_mask(cs, 1), j) == (value_count(cs, j) == 1));
        assert(bit32(count_mask(cs, 2), j) == (value_count(cs, j) == 2));
        assert(bit32(count_mask(cs, 3), j) == (value_count(cs, j) == 3));
        assert(bit32(count_mask(cs, 4), j) == (value_count(cs, j) == 4));
    }
}

/// How many of the cards have suit index `s`.
pub open spec fn suit_count(cs: Seq<Card>, s: nat) -> nat
    decreases cs.len(),
{
    if cs.len() == 0 {
        0
    } else {
        suit_count(cs.drop_last(), s) + (if suit_index(cs.last().suit) == s {
            1nat
        } else {
            0nat
        })
    }
}

/// The four suits share out all the cards.
pub(crate) proof fn lemma_suit_counts_total(cs: Seq<Card>)
    ensures
        suit_count(cs, 0) + suit_count(cs, 1) + suit_count(cs, 2) + suit_count(cs, 3) == cs.len(),
    decreases cs.len(),
{
    if cs.len() > 0 {
        lemma_suit_counts_total(cs.drop_last());
    }
}

/// A suit's bit is in the suit mask exactly when a card has that suit.
pub(crate) proof fn lemma_suit_mask_bits(cs: Seq<Card>, t: nat)
    requires
        t < 32,
    ensures
        bit32(suit_mask(cs), t) == (suit_count(cs, t) > 0),
    decreases cs.len(),
{
    if cs.len() > 0 {
        lemma_suit_mask_bits(cs.drop_last(), t);
        let m = suit_mask(cs.drop_last());
        lemma_bit32_ops(m, 1u32 << (suit_index(cs.last().suit) as u32), suit_index(cs.last().suit) as u32, t as u32);
    } else {
        lemma_bit32_ops(0u32, 0u32, 0, t as u32);
    }
}

/// The values of one suit are among the values of the cards.
pub(crate) proof fn lemma_suit_values_within(cs: Seq<Card>, s: nat, v: nat)
    requires
        v < 32,
    ensures
        bit32(suit_value_mask(cs, s), v) ==> bit32(value_mask(cs), v),
    decreases cs.len(),
{
    if cs.len() > 0 {
        lemma_suit_values_within(cs.drop_last(), s, v);
        let w = value_index(cs.last().value) as u32;
        let a = suit_value_mask(cs.drop_last(), s);
        let b = value_mask(cs.drop_last());
        lemma_bit32_ops(a, 1u32 << w, w, v as u32);
        lemma_bit32_ops(b, 1u32 << w, w, v as u32);
    } else {
        lemma_bit32_ops(0u32, 0u32, 0, v as u32);
    }
}

/// Setting one bit adds at most one to the count.
pub(crate) proof fn lemma_pop_or_single(m: u32, w: u32, i: nat)
    requires
        w < 32,
        i <= 32,
    ensures
        pop_low(m | (1u32 << w), i) <= pop_low(m, i) + (if w < i { 1nat } else { 0nat }),
    decreases i,
{
    if i > 0 {
        let j = (i - 1) as nat;
        lemma_pop_or_single(m, w, j);
        lemma_bit32_ops(m, 1u32 << w, w, j as u32);
    }
}

/// A suit has no more values than cards.
pub(crate) proof fn lemma_suit_values_pop(cs: Seq<Card>, s: nat)
    ensures
        pop32(suit_value_mask(cs, s)) <= suit_count(cs, s),
    decreases cs.len(),
{
    if cs.len() > 0 {
        lemma_suit_values_pop(cs.drop_last(), s);
        if suit_index(cs.last().suit) == s {
            lemma_pop_or_single(
                suit_value_mask(cs.drop_last(), s),
                value_index(cs.last().value) as u32,
                32,
            );
        }
    } else {
        lemma_pop_zero(32);
    }
}

/// A suit holds at most all the cards.
pub(crate) proof fn lemma_suit_count_le(cs: Seq<Card>, s: nat)
    ensures
        suit_count(cs, s) <= cs.len(),
    decreases cs.len(),
{
    if cs.len() > 0 {
        lemma_suit_count_le(cs.drop_last(), s);
    }
}

/// When every card has suit `s`, that suit's values are all the values.
pub(crate) proof fn lemma_suit_all(cs: Seq<Card>, s: nat)
    requires
        suit_count(cs, s) == cs.len(),
    ensures
        suit_value_mask(cs, s) == value_mask(cs),
    decreases cs.len(),
{
    if cs.len() > 0 {
        lemma_suit_count_le(cs.drop_last(), s);
        lemma_suit_all(cs.drop_last(), s);
    }
}

/// A suit with no card has no values.
pub(crate) proof fn lemma_suit_none(cs: Seq<Card>, s: nat)
    requires
        suit_count(cs, s) == 0,
    ensures
        suit_value_mask(cs, s) == 0,
    decreases cs.len(),
{
    if cs.len() > 0 {
        lemma_suit_none(cs.drop_last(), s);
    }
}

/// With fewer than five values no suit holds five of them.
pub(crate) proof fn lemma_no_flush_below_five(cs: Seq<Card>)
    requires
        pop32(value_mask(cs)) < 5,
    ensures
        flush_suit(suit_value_masks(cs)) is None,
{
    assert forall|s: nat| s < 4 implies pop32(#[trigger] suit_value_mask(cs, s)) < 5 by {
        assert forall|v: nat| v < 32 && #[trigger] bit32(suit_value_mask(cs, s), v) implies bit32(
            value_mask(cs),
            v,
        ) by {
            lemma_suit_values_within(cs, s, v);
        }
        lemma_pop_subset(suit_value_mask(cs, s), value_mask(cs), 32);
    }
    assert(pop32(suit_value_mask(cs, 0)) < 5);
    assert(pop32(suit_value_mask(cs, 1)) < 5);
    assert(pop32(suit_value_mask(cs, 2)) < 5);
    assert(pop32(suit_value_mask(cs, 3)) < 5);
}

/// Five cards of five values: the seven-card evaluation finds a flush
/// exactly when the cards share one suit, and the flush suit then holds
/// all the values.
pub(crate) proof fn lemma_flush_five(cs: Seq<Card>)
    requires
        cs.len() == 5,
        pop32(value_mask(cs)) == 5,
    ensures
        (flush_suit(suit_value_masks(cs)) is Some) == (pop32(suit_mask(cs)) == 1),
        flush_suit(suit_value_masks(cs)) is Some ==> suit_value_masks(cs)[flush_suit(
            suit_value_masks(cs),
        )->Some_0 as int] == value_mask(cs),
{
    let sm = suit_mask(cs);
    lemma_suit_counts_total(cs);
    lemma_pop_zero(32);
    assert forall|t: nat| t < 32 implies #[trigger] bit32(sm, t) == (suit_count(cs, t) > 0) by {
        lemma_suit_mask_bits(cs, t);
    }
    assert forall|s: nat| s < 4 && suit_count(cs, s) < 5 implies pop32(
        #[trigger] suit_value_mask(cs, s),
    ) < 5 by {
        lemma_suit_values_pop(cs, s);
    }
    assert forall|s: nat| s < 4 && suit_count(cs, s) == 5 implies #[trigger] suit_value_mask(
        cs,
        s,
    ) == value_mask(cs) by {
        lemma_suit_all(cs, s);
    }
    assert forall|s: nat| #[trigger] suit_count(cs, s) == 0 implies suit_value_mask(cs, s)
        == 0 by {
        lemma_suit_none(cs, s);
    }
    assert forall|t: nat| 4 <= t implies #[trigger] suit_count(cs, t) == 0 by {
        lemma_suit_high(cs, t);
    }
    if pop32(sm) == 1 {
        assert forall|a: nat, b: nat|
            a < 4 && b < 4 && a != b && #[trigger] suit_count(cs, a) > 0 implies #[trigger] suit_count(
            cs,
            b,
        ) == 0 by {
            if suit_count(cs, b) > 0 {
                assert(bit32(sm, a));
                assert(bit32(sm, b));
                lemma_pop_ge2(sm, a, b, 32);
            }
        }
        if suit_count(cs, 0) > 0 {
            assert(suit_count(cs, 1) == 0 && suit_count(cs, 2) == 0 && suit_count(cs, 3) == 0);
        } else if suit_count(cs, 1) > 0 {
            assert(suit_count(cs, 2) == 0 && suit_count(cs, 3) == 0);
        } else if suit_count(cs, 2) > 0 {
            assert(suit_count(cs, 3) == 0);
        }
    } else {
        assert forall|s: nat| s < 4 implies #[trigger] suit_count(cs, s) < 5 by {
            if suit_count(cs, s) == 5 {
                assert forall|t: nat| t < 32 implies #[trigger] bit32(sm, t) == (t == s) by {
                    if t < 4 && t != s {
                        assert(suit_count(cs, t) == 0);
                    }
                }
                lemma_pop_single(sm, s, 32);
            }
        }
        assert(suit_count(cs, 0) < 5);
        assert(suit_count(cs, 1) < 5);
        assert(suit_count(cs, 2) < 5);
        assert(suit_count(cs, 3) < 5);
    }
}

/// No card has a suit index of 4 or more.
pub(crate) proof fn lemma_suit_high(cs: Seq<Card>, t: nat)
    requires
        4 <= t,
    ensures
        suit_count(cs, t) == 0,
    decreases cs.len(),
{
    if cs.len() > 0 {
        lemma_suit_high(cs.drop_last(), t);
    }
}

/// On five distinct cards the seven-card evaluation gives the same rank as
/// the five-card evaluation: the best five of five cards are those cards.
pub proof fn lemma_rank_seven_agrees_with_five(cs: Seq<Card>)
    requires
        cs.no_duplicates(),
        cs.len() == 5,
    ensures
        rank_seven_spec(cs) == rank_five_spec(cs),
{
    lemma_count_facts(cs);
    let vs = value_mask(cs);
    let c1 = count_mask(cs, 1);
    let c2 = count_mask(cs, 2);
    let c3 = count_mask(cs, 3);
    let c4 = count_mask(cs, 4);
    lemma_count_split(cs, 13);
    lemma_count_mask_bits(cs, 1, 13, 0);
    lemma_count_mask_bits(cs, 2, 13, 0);
    lemma_count_mask_bits(cs, 3, 13, 0);
    lemma_count_mask_bits(cs, 4, 13, 0);
    lemma_pop_low13(vs, 32);
    lemma_pop_low13(c1, 32);
    lemma_pop_low13(c2, 32);
    lemma_pop_low13(c3, 32);
    lemma_pop_low13(c4, 32);
    lemma_pop_zero(32);
    let u = pop32(vs);
    assert(pop32(c1) + 2 * pop32(c2) + 3 * pop32(c3) + 4 * pop32(c4) == 5);
    assert(u == pop32(c1) + pop32(c2) + pop32(c3) + pop32(c4));
    assert forall|v: nat| v < 32 && #[trigger] bit32(c2, v) implies bit32(vs, v) by {}
    assert forall|v: nat| v < 32 && #[trigger] bit32(c3, v) implies bit32(vs, v) by {}
    assert forall|v: nat| v < 32 && #[trigger] bit32(c4, v) implies bit32(vs, v) by {}
    if straight_rank(vs) is Some {
        lemma_straight_needs_five(vs);
    }
    if u == 5 {
        lemma_pop_zero_is_zero(c2);
        lemma_pop_zero_is_zero(c3);
        lemma_pop_zero_is_zero(c4);
        lemma_flush_five(cs);
    } else {
        lemma_no_flush_below_five(cs);
        if u == 4 {
            lemma_pop_zero_is_zero(c3);
            lemma_pop_zero_is_zero(c4);
            lemma_pop_xor_subset(c2, vs, 32);
        } else if u == 3 {
            if pop32(c3) == 1 {
                lemma_pop_zero_is_zero(c2);
                lemma_pop_zero_is_zero(c4);
                lemma_pop_xor_subset(c3, vs, 32);
            } else {
                lemma_pop_zero_is_zero(c3);
                lemma_pop_zero_is_zero(c4);
                lemma_pop_xor_subset(c2, vs, 32);
                lemma_highest_single(vs ^ c2);
            }
        } else if pop32(c4) == 1 {
            lemma_pop_zero_is_zero(c2);
            lemma_pop_zero_is_zero(c3);
            lemma_pop_xor_subset(c4, vs, 32);
            lemma_highest_single(vs ^ c4);
        } else {
            lemma_pop_zero_is_zero(c1);
            lemma_pop_zero_is_zero(c4);
            lemma_highest_single(c2);
            assert forall|v: nat| v < 32 implies #[trigger] bit32(vs ^ c3, v) == bit32(c2, v) by {
                lemma_bit32_ops(vs, c3, 0, v as u32);
                lemma_bit32_ops(c1, c1, 0, v as u32);
                assert(bit32(c1, v) == (v < 13 && value_count(cs, v) == 1));
                assert(bit32(c3, v) == (v < 13 && value_count(cs, v) == 3));
                assert(bit32(c4, v) == (v < 13 && value_count(cs, v) == 4));
                assert(bit32(c2, v) == (v < 13 && value_count(cs, v) == 2));
                lemma_bit32_ops(c4, c4, 0, v as u32);
            }
            lemma_bit32_ext(vs ^ c3, c2);
        }
    }
}

} // verus!
