//! The seven-card evaluation's rank is the five-card rank of some five of
//! the cards; with the bound of the neighbouring module, it is the best
//! such rank.

use vstd::prelude::*;
use crate::cards::card::{suit_index, value_index, Card};
use crate::cards::rank::{
    lemma_clear_lowest_decreases, STRAIGHT0, STRAIGHT1, STRAIGHT2, STRAIGHT3, STRAIGHT4,
    STRAIGHT5, STRAIGHT6, STRAIGHT7, STRAIGHT8, STRAIGHT9, pop_low,
    count_mask, flush_suit, highest_bit, keep_n_spec, lemma_pop_zero, pop32, rank_five_spec,
    rank_seven_spec, straight_rank, suit_mask, suit_value_mask, suit_value_masks, value_count,
    value_mask,
};
use crate::cards::rank_agree::{
    below5, lemma_suit_mask_bits, lemma_pop_single, lemma_bit32_ext, lemma_bit32_ops, lemma_count_split, lemma_pop_xor_subset,
    lemma_pop_zero_is_zero, suit_count,
};
use crate::cards::rank_best::{
    bits_within, count_if, five_among, has_card, has_suit, has_value, lemma_highest_within,
    lemma_keep_n_within, lemma_single_bit, lemma_some_bit, lemma_within_le, lemma_straight_monotone,
    lemma_no_flush_in_part, lemma_no_straight_in_part, lemma_rank_seven_is_best, rank_le,
};
use crate::cards::rank_defined::{
    bit32, lemma_count_facts, lemma_count_mask_bits, lemma_pop_low13, lemma_rank_seven_defined,
    lemma_total_is_len,
};

verus! {

/// Cards that satisfy both tests.
pub open spec fn both(p: spec_fn(Card) -> bool, q: spec_fn(Card) -> bool) -> spec_fn(Card) -> bool {
    |c: Card| p(c) && q(c)
}

/// Keeping the cards that satisfy a test keeps them distinct and among
/// the cards, and counts by any other test what both tests count.
pub(crate) proof fn lemma_filter_counts(cs: Seq<Card>, p: spec_fn(Card) -> bool, q: spec_fn(Card) -> bool)
    requires
        cs.no_duplicates(),
    ensures
        cs.filter(p).no_duplicates(),
        forall|c: Card| cs.filter(p).contains(c) ==> cs.contains(c),
        count_if(cs.filter(p), q) == count_if(cs, both(p, q)),
        cs.filter(p).len() == count_if(cs, p),
    decreases cs.len(),
{
    reveal(Seq::filter);
    if cs.len() > 0 {
        let dl = cs.drop_last();
        let x = cs.last();
        assert forall|i: int, j: int| 0 <= i < j < dl.len() implies dl[i] != dl[j] by {
            assert(dl[i] == cs[i] && dl[j] == cs[j]);
        }
        lemma_filter_counts(dl, p, q);
        let rest = dl.filter(p);
        assert(!dl.contains(x)) by {
            if dl.contains(x) {
                let i = choose|i: int| 0 <= i < dl.len() && dl[i] == x;
                assert(cs[i] == cs[cs.len() - 1]);
            }
        }
        assert forall|c: Card| cs.filter(p).contains(c) implies cs.contains(c) by {
            if rest.contains(c) {
                assert(dl.contains(c));
                let i = choose|i: int| 0 <= i < dl.len() && dl[i] == c;
                assert(cs[i] == c);
            } else {
                assert(c == x);
                assert(cs[cs.len() - 1] == c);
            }
        }
        if p(x) {
            let out = rest.push(x);
            assert(out.drop_last() =~= rest);
            assert forall|i: int, j: int| 0 <= i < j < out.len() implies out[i] != out[j] by {
                if j == out.len() - 1 {
                    assert(rest.contains(out[i]));
                }
            }
        }
    }
}

/// Counting by a test that no card meets gives nothing.
proof fn lemma_count_none(cs: Seq<Card>, p: spec_fn(Card) -> bool)
    requires
        forall|c: Card| !#[trigger] p(c),
    ensures
        count_if(cs, p) == 0,
    decreases cs.len(),
{
    if cs.len() > 0 {
        lemma_count_none(cs.drop_last(), p);
    }
}

/// Tests that agree on every card count alike.
proof fn lemma_count_same(cs: Seq<Card>, p: spec_fn(Card) -> bool, q: spec_fn(Card) -> bool)
    requires
        forall|c: Card| #[trigger] p(c) == q(c),
    ensures
        count_if(cs, p) == count_if(cs, q),
{
    assert(p =~= q);
}

/// A count splits by whether a second test holds.
proof fn lemma_count_split_by(cs: Seq<Card>, p: spec_fn(Card) -> bool, q: spec_fn(Card) -> bool)
    ensures
        count_if(cs, p) == count_if(cs, both(p, q)) + count_if(cs, both(p, |c: Card| !q(c))),
    decreases cs.len(),
{
    if cs.len() > 0 {
        lemma_count_split_by(cs.drop_last(), p, q);
    }
}

/// Distinct cards hold one copy of each of their cards.
proof fn lemma_count_one(cs: Seq<Card>, x: Card)
    requires
        cs.no_duplicates(),
        cs.contains(x),
    ensures
        count_if(cs, |c: Card| c == x) == 1,
    decreases cs.len(),
{
    let dl = cs.drop_last();
    assert forall|i: int, j: int| 0 <= i < j < dl.len() implies dl[i] != dl[j] by {
        assert(dl[i] == cs[i] && dl[j] == cs[j]);
    }
    if cs.last() == x {
        assert(!dl.contains(x)) by {
            if dl.contains(x) {
                let i = choose|i: int| 0 <= i < dl.len() && dl[i] == x;
                assert(cs[i] == cs[cs.len() - 1]);
            }
        }
        lemma_count_absent(dl, x);
    } else {
        let i = choose|i: int| 0 <= i < cs.len() && cs[i] == x;
        assert(dl[i] == x);
        lemma_count_one(dl, x);
    }
}

/// A card not among the cards is counted nowhere.
proof fn lemma_count_absent(cs: Seq<Card>, x: Card)
    requires
        !cs.contains(x),
    ensures
        count_if(cs, |c: Card| c == x) == 0,
    decreases cs.len(),
{
    if cs.len() > 0 {
        let dl = cs.drop_last();
        assert(!dl.contains(x)) by {
            if dl.contains(x) {
                let i = choose|i: int| 0 <= i < dl.len() && dl[i] == x;
                assert(cs[i] == x);
            }
        }
        assert(cs[cs.len() - 1] != x);
        lemma_count_absent(dl, x);
    }
}

/// A card of value `v` among the cards, when there is one.
pub open spec fn pick(cs: Seq<Card>, v: nat) -> Card {
    choose|c: Card| cs.contains(c) && value_index(c.value) == v
}

/// When some card has value `v`, the picked card is one of them.
proof fn lemma_pick(cs: Seq<Card>, v: nat)
    requires
        value_count(cs, v) > 0,
    ensures
        cs.contains(pick(cs, v)),
        value_index(pick(cs, v).value) == v,
{
    let w = lemma_value_witness(cs, v);
    assert(cs.contains(w) && value_index(w.value) == v);
}

/// A card of value `v`, when the cards have one.
proof fn lemma_value_witness(cs: Seq<Card>, v: nat) -> (w: Card)
    requires
        value_count(cs, v) > 0,
    ensures
        cs.contains(w),
        value_index(w.value) == v,
    decreases cs.len(),
{
    if value_index(cs.last().value) == v {
        assert(cs[cs.len() - 1] == cs.last());
        cs.last()
    } else {
        let w = lemma_value_witness(cs.drop_last(), v);
        let i = choose|i: int| 0 <= i < cs.drop_last().len() && cs.drop_last()[i] == w;
        assert(cs[i] == w);
        w
    }
}

/// All the cards of the values in `all`, one card of each value in `one`,
/// and all but one card of each value in `most`.
pub open spec fn chosen(cs: Seq<Card>, all: u32, one: u32, most: u32) -> spec_fn(Card) -> bool {
    |c: Card|
        bit32(all, value_index(c.value)) || (bit32(one, value_index(c.value)) && c == pick(
            cs,
            value_index(c.value),
        )) || (bit32(most, value_index(c.value)) && c != pick(cs, value_index(c.value)))
}

/// The chosen cards hold, of each value, all of them, one, all but one, or
/// none, as the value's mask says.
pub(crate) proof fn lemma_chosen_counts(cs: Seq<Card>, all: u32, one: u32, most: u32)
    requires
        cs.no_duplicates(),
        forall|v: nat|
            v < 32 ==> (#[trigger] bit32(all, v) as int) + (bit32(one, v) as int) + (bit32(most, v)
                as int) <= 1,
        forall|v: nat| v < 32 && (#[trigger] bit32(one, v) || bit32(most, v)) ==> value_count(cs, v) > 0,
        forall|v: nat| 13 <= v < 32 ==> !#[trigger] bit32(all, v),
    ensures
        cs.filter(chosen(cs, all, one, most)).no_duplicates(),
        forall|c: Card| cs.filter(chosen(cs, all, one, most)).contains(c) ==> cs.contains(c),
        forall|v: nat|
            v < 32 ==> #[trigger] value_count(cs.filter(chosen(cs, all, one, most)), v) == (if bit32(
                all,
                v,
            ) {
                value_count(cs, v)
            } else if bit32(one, v) {
                1nat
            } else if bit32(most, v) {
                (value_count(cs, v) - 1) as nat
            } else {
                0nat
            }),
{
    let p = chosen(cs, all, one, most);
    let t = cs.filter(p);
    lemma_filter_counts(cs, p, has_value(0));
    assert forall|v: nat| v < 32 implies #[trigger] value_count(t, v) == (if bit32(all, v) {
        value_count(cs, v)
    } else if bit32(one, v) {
        1nat
    } else if bit32(most, v) {
        (value_count(cs, v) - 1) as nat
    } else {
        0nat
    }) by {
        crate::cards::rank_best::lemma_counts_are_count_if(t, v, 0);
        crate::cards::rank_best::lemma_counts_are_count_if(cs, v, 0);
        lemma_filter_counts(cs, p, has_value(v));
        let bp = both(p, has_value(v));
        if bit32(all, v) {
            lemma_count_same(cs, bp, has_value(v));
        } else if bit32(one, v) {
            lemma_pick(cs, v);
            lemma_count_same(cs, bp, |c: Card| c == pick(cs, v));
            lemma_count_one(cs, pick(cs, v));
        } else if bit32(most, v) {
            lemma_pick(cs, v);
            let x = pick(cs, v);
            lemma_count_split_by(cs, has_value(v), |c: Card| c == x);
            lemma_count_same(cs, both(has_value(v), |c: Card| c == x), |c: Card| c == x);
            lemma_count_one(cs, x);
            lemma_count_same(cs, bp, both(has_value(v), |c: Card| !((|c: Card| c == x)(c))));
        } else {
            assert forall|c: Card| !#[trigger] bp(c) by {
                if bp(c) {
                    assert(value_index(c.value) == v);
                }
            }
            lemma_count_none(cs, bp);
        }
    }
}

/// What counting gives about distinct cards: each value's bit in the value
/// mask and in the count masks, and the cards and values added up by how
/// often each value appears.
pub(crate) proof fn lemma_hand_facts(cs: Seq<Card>)
    requires
        cs.no_duplicates(),
    ensures
        forall|v: nat| v < 13 ==> #[trigger] value_count(cs, v) <= 4,
        forall|v: nat| 13 <= v ==> #[trigger] value_count(cs, v) == 0,
        forall|v: nat|
            v < 32 ==> #[trigger] bit32(value_mask(cs), v) == (v < 13 && value_count(cs, v) > 0),
        forall|v: nat, k: nat|
            v < 32 ==> #[trigger] bit32(count_mask(cs, k), v) == (v < 13 && value_count(cs, v)
                == k),
        value_mask(cs) < 0x2000,
        forall|k: nat| #[trigger] count_mask(cs, k) < 0x2000,
        pop32(count_mask(cs, 1)) + 2 * pop32(count_mask(cs, 2)) + 3 * pop32(count_mask(cs, 3)) + 4
            * pop32(count_mask(cs, 4)) == cs.len(),
        pop32(value_mask(cs)) == pop32(count_mask(cs, 1)) + pop32(count_mask(cs, 2)) + pop32(
            count_mask(cs, 3),
        ) + pop32(count_mask(cs, 4)),
        pop32(0u32) == 0,
{
    lemma_count_facts(cs);
    lemma_count_split(cs, 13);
    assert forall|k: nat| #[trigger] count_mask(cs, k) < 0x2000 by {
        lemma_count_mask_bits(cs, k, 13, 0);
    }
    lemma_pop_low13(value_mask(cs), 32);
    lemma_pop_low13(count_mask(cs, 1), 32);
    lemma_pop_low13(count_mask(cs, 2), 32);
    lemma_pop_low13(count_mask(cs, 3), 32);
    lemma_pop_low13(count_mask(cs, 4), 32);
    lemma_pop_zero(32);
}

/// The only bit of a one-bit mask.
proof fn lemma_only_bit(x: u32) -> (b: nat)
    requires
        pop32(x) == 1,
    ensures
        b < 32,
        forall|v: nat| v < 32 ==> #[trigger] bit32(x, v) == (v == b),
{
    lemma_pop_zero(32);
    let b = lemma_some_bit(x);
    lemma_single_bit(x, b);
    b
}

/// A mask with no bit set is zero.
proof fn lemma_no_bits(x: u32)
    requires
        forall|v: nat| v < 32 ==> !#[trigger] bit32(x, v),
    ensures
        x == 0,
{
    assert forall|v: nat| v < 32 implies #[trigger] bit32(x, v) == bit32(0u32, v) by {
        lemma_bit32_ops(x, x, 0, v as u32);
    }
    lemma_bit32_ext(x, 0u32);
}

/// With four of a kind among at most seven cards and no flush, the four
/// and the highest other card rank as the seven-card evaluation ranks the
/// cards.
proof fn lemma_reach_quads(cs: Seq<Card>) -> (t: Seq<Card>)
    requires
        cs.no_duplicates(),
        5 <= cs.len() <= 7,
        flush_suit(suit_value_masks(cs)) is None,
        count_mask(cs, 4) != 0,
    ensures
        five_among(t, cs),
        rank_five_spec(t) == rank_seven_spec(cs),
{
    lemma_hand_facts(cs);
    lemma_rank_seven_defined(cs);
    let vs = value_mask(cs);
    let c4 = count_mask(cs, 4);
    if pop32(c4) == 0 {
        lemma_pop_zero_is_zero(c4);
    }
    let a = lemma_only_bit(c4);
    let h = highest_bit(vs ^ c4);
    lemma_highest_within(vs ^ c4);
    let b = lemma_only_bit(h);
    lemma_bit32_ops(vs, c4, 0, b as u32);
    assert(bit32(h, b));
    assert(bit32(vs ^ c4, b));
    assert(bit32(c4, a));
    assert(value_count(cs, a) == 4);
    assert(bit32(vs, a));
    assert(b != a);
    assert forall|v: nat| v < 32 implies #[trigger] bit32(0u32, v) == false by {
        lemma_bit32_ops(0, 0, 0, v as u32);
    }
    let p = chosen(cs, c4, h, 0);
    lemma_chosen_counts(cs, c4, h, 0);
    let t = cs.filter(p);
    lemma_hand_facts(t);
    lemma_total_is_len(t);
    let vt = value_mask(t);
    let d4 = count_mask(t, 4);
    assert forall|v: nat| v < 32 implies #[trigger] bit32(d4, v) == bit32(c4, v) by {}
    lemma_bit32_ext(d4, c4);
    assert forall|v: nat| v < 32 implies #[trigger] bit32(count_mask(t, 1), v) == bit32(h, v) by {}
    lemma_bit32_ext(count_mask(t, 1), h);
    assert forall|v: nat| v < 32 implies !#[trigger] bit32(count_mask(t, 2), v) by {}
    lemma_no_bits(count_mask(t, 2));
    assert forall|v: nat| v < 32 implies !#[trigger] bit32(count_mask(t, 3), v) by {}
    lemma_no_bits(count_mask(t, 3));
    assert forall|v: nat| v < 32 implies #[trigger] bit32(vt ^ d4, v) == bit32(h, v) by {
        lemma_bit32_ops(vt, d4, 0, v as u32);
    }
    lemma_bit32_ext(vt ^ d4, h);
    t
}

/// The values of the straight numbered `r`, from 0 for the wheel to 9 for
/// Ten to Ace.
pub open spec fn straight_mask(r: u32) -> u32 {
    if r == 0 {
        STRAIGHT0
    } else if r == 1 {
        STRAIGHT1
    } else if r == 2 {
        STRAIGHT2
    } else if r == 3 {
        STRAIGHT3
    } else if r == 4 {
        STRAIGHT4
    } else if r == 5 {
        STRAIGHT5
    } else if r == 6 {
        STRAIGHT6
    } else if r == 7 {
        STRAIGHT7
    } else if r == 8 {
        STRAIGHT8
    } else {
        STRAIGHT9
    }
}

/// The straight that the evaluation reports is in the mask.
proof fn lemma_straight_found(m: u32)
    requires
        straight_rank(m) is Some,
    ensures
        straight_rank(m)->Some_0 <= 9,
        m & straight_mask(straight_rank(m)->Some_0) == straight_mask(straight_rank(m)->Some_0),
{
}

/// A mask holding the straight numbered `r` has a straight at least that
/// high.
proof fn lemma_straight_at_least(m: u32, r: u32)
    requires
        r <= 9,
        m & straight_mask(r) == straight_mask(r),
    ensures
        straight_rank(m) is Some,
        straight_rank(m)->Some_0 >= r,
{
}

/// The bits of each straight's values.
proof fn lemma_straight_mask_bits(v: u32)
    by (bit_vector)
    requires
        v < 32,
    ensures
        ((0x100Fu32 >> v) & 1u32 == 1u32) == (v == 0u32 || v == 1u32 || v == 2u32 || v == 3u32 || v == 12u32),
        ((0x001Fu32 >> v) & 1u32 == 1u32) == (v == 0u32 || v == 1u32 || v == 2u32 || v == 3u32 || v == 4u32),
        ((0x003Eu32 >> v) & 1u32 == 1u32) == (v == 1u32 || v == 2u32 || v == 3u32 || v == 4u32 || v == 5u32),
        ((0x007Cu32 >> v) & 1u32 == 1u32) == (v == 2u32 || v == 3u32 || v == 4u32 || v == 5u32 || v == 6u32),
        ((0x00F8u32 >> v) & 1u32 == 1u32) == (v == 3u32 || v == 4u32 || v == 5u32 || v == 6u32 || v == 7u32),
        ((0x01F0u32 >> v) & 1u32 == 1u32) == (v == 4u32 || v == 5u32 || v == 6u32 || v == 7u32 || v == 8u32),
        ((0x03E0u32 >> v) & 1u32 == 1u32) == (v == 5u32 || v == 6u32 || v == 7u32 || v == 8u32 || v == 9u32),
        ((0x07C0u32 >> v) & 1u32 == 1u32) == (v == 6u32 || v == 7u32 || v == 8u32 || v == 9u32 || v == 10u32),
        ((0x0F80u32 >> v) & 1u32 == 1u32) == (v == 7u32 || v == 8u32 || v == 9u32 || v == 10u32 || v == 11u32),
        ((0x1F00u32 >> v) & 1u32 == 1u32) == (v == 8u32 || v == 9u32 || v == 10u32 || v == 11u32 || v == 12u32),
{
}

/// A mask whose set bits are exactly five given ones counts five.
proof fn lemma_pop_exact5(x: u32, a: nat, b: nat, c: nat, d: nat, e: nat, i: nat)
    requires
        i <= 32,
        a < b < c < d < e < 32,
        forall|v: nat|
            v < 32 ==> #[trigger] bit32(x, v) == (v == a || v == b || v == c || v == d || v == e),
    ensures
        pop_low(x, i) == below5(a, b, c, d, e, i),
    decreases i,
{
    if i > 0 {
        lemma_pop_exact5(x, a, b, c, d, e, (i - 1) as nat);
        assert(bit32(x, (i - 1) as nat) == (i - 1 == a || i - 1 == b || i - 1 == c || i - 1 == d
            || i - 1 == e));
    }
}

/// A straight has five values.
proof fn lemma_straight_mask_pop(r: u32)
    requires
        r <= 9,
    ensures
        pop32(straight_mask(r)) == 5,
{
    let m = straight_mask(r);
    if r == 0 {
        assert forall|v: nat| v < 32 implies #[trigger] bit32(m, v) == (v == 0 || v == 1 || v == 2
            || v == 3 || v == 12) by {
            lemma_straight_mask_bits(v as u32);
        }
        lemma_pop_exact5(m, 0, 1, 2, 3, 12, 32);
    } else {
        let lo = (r - 1) as nat;
        assert forall|v: nat| v < 32 implies #[trigger] bit32(m, v) == (v == lo || v == lo + 1 || v
            == lo + 2 || v == lo + 3 || v == lo + 4) by {
            lemma_straight_mask_bits(v as u32);
        }
        lemma_pop_exact5(m, lo, lo + 1, lo + 2, lo + 3, lo + 4, 32);
    }
}

/// Keeping `n` bits of a mask with at least `n` keeps exactly `n`.
proof fn lemma_keep_n_exact(m: u32, n: u32)
    requires
        pop32(m) >= n,
    ensures
        pop32(keep_n_spec(m, n)) == n,
    decreases m,
{
    lemma_pop_zero(32);
    if !(m == 0 || pop32(m) <= n) {
        let low = m & ((m - 1) as u32);
        lemma_clear_lowest_decreases(m);
        lemma_clear_lowest_pop(m);
        lemma_keep_n_exact(low, n);
    }
}

/// Clearing the lowest set bit of a non-zero mask counts one bit fewer.
proof fn lemma_clear_lowest_pop(m: u32)
    requires
        m != 0,
    ensures
        pop32(m & ((m - 1) as u32)) + 1 == pop32(m),
{
    let low = m & ((m - 1) as u32);
    let x = m ^ low;
    assert(bits_within(low, m)) by {
        assert forall|v: nat| v < 32 && #[trigger] bit32(low, v) implies bit32(m, v) by {
            crate::cards::rank_best::lemma_clear_lowest_bits(m, v as u32, v as u32);
        }
    }
    lemma_pop_xor_subset(low, m, 32);
    // The cleared bits form a single bit.
    let b = lemma_some_bit_of_difference(m);
    assert forall|v: nat| v < 32 implies #[trigger] bit32(x, v) == (v == b) by {
        lemma_bit32_ops(m, low, 0, v as u32);
        crate::cards::rank_best::lemma_clear_lowest_bits(m, b as u32, v as u32);
        crate::cards::rank_best::lemma_clear_lowest_bits(m, v as u32, v as u32);
    }
    crate::cards::rank_agree::lemma_pop_single(x, b, 32);
}

/// A non-zero mask has a bit that clearing its lowest bit removes.
proof fn lemma_some_bit_of_difference(m: u32) -> (b: nat)
    requires
        m != 0,
    ensures
        b < 32,
        bit32(m, b),
        !bit32(m & ((m - 1) as u32), b),
{
    let low = m & ((m - 1) as u32);
    lemma_clear_lowest_decreases(m);
    if !(exists|b: nat| b < 32 && bit32(m, b) && !bit32(low, b)) {
        assert forall|v: nat| v < 32 implies #[trigger] bit32(m, v) == bit32(low, v) by {
            crate::cards::rank_best::lemma_clear_lowest_bits(m, v as u32, v as u32);
            assert(!(bit32(m, v) && !bit32(low, v)));
        }
        lemma_bit32_ext(m, low);
    }
    choose|b: nat| b < 32 && bit32(m, b) && !bit32(low, b)
}

/// The bits of the zero mask.
proof fn lemma_zero_bits32()
    ensures
        forall|v: nat| v < 32 ==> !#[trigger] bit32(0u32, v),
{
    assert forall|v: nat| v < 32 implies !#[trigger] bit32(0u32, v) by {
        lemma_bit32_ops(0, 0, 0, v as u32);
    }
}

/// The bits of an exclusive or.
proof fn lemma_xor_bits(x: u32, y: u32)
    ensures
        forall|v: nat| v < 32 ==> #[trigger] bit32(x ^ y, v) == (bit32(x, v) != bit32(y, v)),
{
    assert forall|v: nat| v < 32 implies #[trigger] bit32(x ^ y, v) == (bit32(x, v) != bit32(
        y,
        v,
    )) by {
        lemma_bit32_ops(x, y, 0, v as u32);
    }
}

/// The bits of an inclusive or.
proof fn lemma_or_bits(x: u32, y: u32)
    ensures
        forall|v: nat| v < 32 ==> #[trigger] bit32(x | y, v) == (bit32(x, v) || bit32(y, v)),
{
    assert forall|v: nat| v < 32 implies #[trigger] bit32(x | y, v) == (bit32(x, v) || bit32(
        y,
        v,
    )) by {
        lemma_bit32_ops(x, y, 0, v as u32);
    }
}

/// The value and count masks of chosen cards, from how many of each value
/// were chosen.
proof fn lemma_chosen_masks(t: Seq<Card>, m1: u32, m2: u32, m3: u32, m4: u32)
    requires
        t.no_duplicates(),
        forall|v: nat| v < 32 ==> (#[trigger] bit32(m1, v) == (v < 13 && value_count(t, v) == 1)),
        forall|v: nat| v < 32 ==> (#[trigger] bit32(m2, v) == (v < 13 && value_count(t, v) == 2)),
        forall|v: nat| v < 32 ==> (#[trigger] bit32(m3, v) == (v < 13 && value_count(t, v) == 3)),
        forall|v: nat| v < 32 ==> (#[trigger] bit32(m4, v) == (v < 13 && value_count(t, v) == 4)),
    ensures
        count_mask(t, 1) == m1,
        count_mask(t, 2) == m2,
        count_mask(t, 3) == m3,
        count_mask(t, 4) == m4,
        t.len() == pop32(m1) + 2 * pop32(m2) + 3 * pop32(m3) + 4 * pop32(m4),
        pop32(value_mask(t)) == pop32(m1) + pop32(m2) + pop32(m3) + pop32(m4),
{
    lemma_hand_facts(t);
    lemma_total_is_len(t);
    assert forall|v: nat| v < 32 implies #[trigger] bit32(count_mask(t, 1), v) == bit32(m1, v) by {}
    assert forall|v: nat| v < 32 implies #[trigger] bit32(count_mask(t, 2), v) == bit32(m2, v) by {}
    assert forall|v: nat| v < 32 implies #[trigger] bit32(count_mask(t, 3), v) == bit32(m3, v) by {}
    assert forall|v: nat| v < 32 implies #[trigger] bit32(count_mask(t, 4), v) == bit32(m4, v) by {}
    lemma_bit32_ext(count_mask(t, 1), m1);
    lemma_bit32_ext(count_mask(t, 2), m2);
    lemma_bit32_ext(count_mask(t, 3), m3);
    lemma_bit32_ext(count_mask(t, 4), m4);
}

/// With two sets among the cards, no flush and no four of a kind, the
/// higher set and two cards of the lower rank as the seven-card evaluation
/// ranks the cards.
proof fn lemma_reach_two_sets(cs: Seq<Card>) -> (t: Seq<Card>)
    requires
        cs.no_duplicates(),
        5 <= cs.len() <= 7,
        flush_suit(suit_value_masks(cs)) is None,
        count_mask(cs, 4) == 0,
        count_mask(cs, 3) != 0,
        pop32(count_mask(cs, 3)) == 2,
    ensures
        five_among(t, cs),
        rank_five_spec(t) == rank_seven_spec(cs),
{
    lemma_hand_facts(cs);
    lemma_zero_bits32();
    let c3 = count_mask(cs, 3);
    let set = highest_bit(c3);
    lemma_highest_within(c3);
    let a = lemma_only_bit(set);
    let rest = c3 ^ set;
    lemma_pop_xor_subset(set, c3, 32);
    let b = lemma_only_bit(rest);
    lemma_xor_bits(c3, set);
    assert(bit32(set, a));
    assert(bit32(c3, a));
    assert(bit32(rest, b));
    assert(bit32(rest, b) == (bit32(c3, b) != bit32(set, b)));
    assert(b != a) by {
        if b == a {
            assert(bit32(set, b));
            assert(bit32(c3, b));
        }
    }
    assert(!bit32(set, b));
    assert(bit32(c3, b));
    assert(value_count(cs, a) == 3);
    assert(value_count(cs, b) == 3);
    let p = chosen(cs, set, 0, rest);
    lemma_chosen_counts(cs, set, 0, rest);
    let t = cs.filter(p);
    lemma_chosen_masks(t, 0, rest, set, 0);
    lemma_xor_bits(value_mask(t), set);
    lemma_hand_facts(t);
    assert forall|v: nat| v < 32 implies #[trigger] bit32(value_mask(t) ^ set, v) == bit32(rest, v)
        by {}
    lemma_bit32_ext(value_mask(t) ^ set, rest);
    t
}

/// With a set and a pair among the cards, no flush, no four of a kind and
/// no second set, the set and the highest pair rank as the seven-card
/// evaluation ranks the cards.
proof fn lemma_reach_set_and_pair(cs: Seq<Card>) -> (t: Seq<Card>)
    requires
        cs.no_duplicates(),
        5 <= cs.len() <= 7,
        flush_suit(suit_value_masks(cs)) is None,
        count_mask(cs, 4) == 0,
        count_mask(cs, 3) != 0,
        pop32(count_mask(cs, 3)) != 2,
        count_mask(cs, 2) != 0,
    ensures
        five_among(t, cs),
        rank_five_spec(t) == rank_seven_spec(cs),
{
    lemma_hand_facts(cs);
    lemma_zero_bits32();
    let c2 = count_mask(cs, 2);
    let c3 = count_mask(cs, 3);
    if pop32(c2) == 0 {
        lemma_pop_zero_is_zero(c2);
    }
    if pop32(c3) == 0 {
        lemma_pop_zero_is_zero(c3);
    }
    let a = lemma_only_bit(c3);
    let h = highest_bit(c2);
    lemma_highest_within(c2);
    let b = lemma_only_bit(h);
    assert(bit32(h, b));
    assert(bit32(c2, b));
    assert(bit32(c3, a));
    assert(value_count(cs, a) == 3);
    assert(value_count(cs, b) == 2);
    lemma_or_bits(c3, h);
    let p = chosen(cs, c3 | h, 0, 0);
    lemma_chosen_counts(cs, c3 | h, 0, 0);
    let t = cs.filter(p);
    lemma_chosen_masks(t, 0, h, c3, 0);
    lemma_xor_bits(value_mask(t), c3);
    lemma_hand_facts(t);
    assert forall|v: nat| v < 32 implies #[trigger] bit32(value_mask(t) ^ c3, v) == bit32(h, v)
        by {}
    lemma_bit32_ext(value_mask(t) ^ c3, h);
    t
}

/// With a single set among the cards and no better hand, the set and the
/// two highest other cards rank as the seven-card evaluation ranks the
/// cards.
proof fn lemma_reach_set(cs: Seq<Card>) -> (t: Seq<Card>)
    requires
        cs.no_duplicates(),
        5 <= cs.len() <= 7,
        flush_suit(suit_value_masks(cs)) is None,
        count_mask(cs, 4) == 0,
        count_mask(cs, 3) != 0,
        pop32(count_mask(cs, 3)) != 2,
        count_mask(cs, 2) == 0,
        straight_rank(value_mask(cs)) is None,
    ensures
        five_among(t, cs),
        rank_five_spec(t) == rank_seven_spec(cs),
{
    lemma_hand_facts(cs);
    lemma_zero_bits32();
    let vs = value_mask(cs);
    let c3 = count_mask(cs, 3);
    if pop32(c3) == 0 {
        lemma_pop_zero_is_zero(c3);
    }
    let a = lemma_only_bit(c3);
    assert(bits_within(c3, vs));
    lemma_pop_xor_subset(c3, vs, 32);
    let k = keep_n_spec(vs ^ c3, 2);
    lemma_keep_n_exact(vs ^ c3, 2);
    lemma_keep_n_within(vs ^ c3, 2);
    lemma_xor_bits(vs, c3);
    let p = chosen(cs, c3, k, 0);
    lemma_chosen_counts(cs, c3, k, 0);
    let t = cs.filter(p);
    lemma_chosen_masks(t, k, 0, c3, 0);
    lemma_xor_bits(value_mask(t), c3);
    lemma_hand_facts(t);
    assert forall|v: nat| v < 32 implies #[trigger] bit32(value_mask(t) ^ c3, v) == bit32(k, v)
        by {}
    lemma_bit32_ext(value_mask(t) ^ c3, k);
    t
}

/// With two pairs among the cards and no better hand, the two highest
/// pairs and the highest other card rank as the seven-card evaluation
/// ranks the cards.
proof fn lemma_reach_two_pair(cs: Seq<Card>) -> (t: Seq<Card>)
    requires
        cs.no_duplicates(),
        5 <= cs.len() <= 7,
        flush_suit(suit_value_masks(cs)) is None,
        count_mask(cs, 4) == 0,
        count_mask(cs, 3) == 0,
        straight_rank(value_mask(cs)) is None,
        pop32(count_mask(cs, 2)) >= 2,
    ensures
        five_among(t, cs),
        rank_five_spec(t) == rank_seven_spec(cs),
{
    lemma_hand_facts(cs);
    lemma_zero_bits32();
    lemma_rank_seven_defined(cs);
    let vs = value_mask(cs);
    let c2 = count_mask(cs, 2);
    let pairs = keep_n_spec(c2, 2);
    lemma_keep_n_exact(c2, 2);
    lemma_keep_n_within(c2, 2);
    let h = highest_bit(vs ^ pairs);
    lemma_highest_within(vs ^ pairs);
    let b = lemma_only_bit(h);
    lemma_xor_bits(vs, pairs);
    let p = chosen(cs, pairs, h, 0);
    lemma_chosen_counts(cs, pairs, h, 0);
    let t = cs.filter(p);
    lemma_chosen_masks(t, h, pairs, 0, 0);
    lemma_xor_bits(value_mask(t), pairs);
    lemma_hand_facts(t);
    assert forall|v: nat| v < 32 implies #[trigger] bit32(value_mask(t) ^ pairs, v) == bit32(h, v)
        by {}
    lemma_bit32_ext(value_mask(t) ^ pairs, h);
    t
}

/// With a single pair among the cards and no better hand, the pair and the
/// three highest other cards rank as the seven-card evaluation ranks the
/// cards.
proof fn lemma_reach_pair(cs: Seq<Card>) -> (t: Seq<Card>)
    requires
        cs.no_duplicates(),
        5 <= cs.len() <= 7,
        flush_suit(suit_value_masks(cs)) is None,
        count_mask(cs, 4) == 0,
        count_mask(cs, 3) == 0,
        straight_rank(value_mask(cs)) is None,
        pop32(count_mask(cs, 2)) < 2,
        count_mask(cs, 2) != 0,
    ensures
        five_among(t, cs),
        rank_five_spec(t) == rank_seven_spec(cs),
{
    lemma_hand_facts(cs);
    lemma_zero_bits32();
    let vs = value_mask(cs);
    let c2 = count_mask(cs, 2);
    if pop32(c2) == 0 {
        lemma_pop_zero_is_zero(c2);
    }
    let a = lemma_only_bit(c2);
    assert(bits_within(c2, vs));
    lemma_pop_xor_subset(c2, vs, 32);
    let k = keep_n_spec(vs ^ c2, 3);
    lemma_keep_n_exact(vs ^ c2, 3);
    lemma_keep_n_within(vs ^ c2, 3);
    lemma_xor_bits(vs, c2);
    let p = chosen(cs, c2, k, 0);
    lemma_chosen_counts(cs, c2, k, 0);
    let t = cs.filter(p);
    lemma_chosen_masks(t, k, c2, 0, 0);
    lemma_xor_bits(value_mask(t), c2);
    lemma_hand_facts(t);
    assert forall|v: nat| v < 32 implies #[trigger] bit32(value_mask(t) ^ c2, v) == bit32(k, v)
        by {}
    lemma_bit32_ext(value_mask(t) ^ c2, k);
    t
}

/// A mask whose `and` with a wider one is itself lies within it.
proof fn lemma_and_within(m: u32, mm: u32)
    requires
        mm & m == m,
    ensures
        bits_within(m, mm),
{
    assert forall|v: nat| v < 32 && #[trigger] bit32(m, v) implies bit32(mm, v) by {
        lemma_bit32_ops(mm, m, 0, v as u32);
    }
}

/// The evaluation reports exactly the straight a straight's own values
/// make, within any mask where it is the highest straight.
proof fn lemma_straight_exact(m: u32, mm: u32)
    requires
        straight_rank(mm) is Some,
        m == straight_mask(straight_rank(mm)->Some_0),
    ensures
        bits_within(m, mm),
        straight_rank(m) == straight_rank(mm),
{
    lemma_straight_found(mm);
    lemma_and_within(m, mm);
    lemma_within_le(m, m);
    lemma_straight_at_least(m, straight_rank(mm)->Some_0);
    lemma_within_le(m, mm);
    lemma_straight_monotone(m, mm);
}

/// With a straight among the cards and no flush, four of a kind or full
/// house, one card of each value of the highest straight ranks as the
/// seven-card evaluation ranks the cards.
proof fn lemma_reach_straight(cs: Seq<Card>) -> (t: Seq<Card>)
    requires
        cs.no_duplicates(),
        5 <= cs.len() <= 7,
        flush_suit(suit_value_masks(cs)) is None,
        count_mask(cs, 4) == 0,
        !(count_mask(cs, 3) != 0 && pop32(count_mask(cs, 3)) == 2),
        !(count_mask(cs, 3) != 0 && count_mask(cs, 2) != 0),
        straight_rank(value_mask(cs)) is Some,
    ensures
        five_among(t, cs),
        rank_five_spec(t) == rank_seven_spec(cs),
{
    lemma_hand_facts(cs);
    lemma_zero_bits32();
    let vs = value_mask(cs);
    let r = straight_rank(vs)->Some_0;
    lemma_straight_found(vs);
    let m = straight_mask(r);
    lemma_straight_exact(m, vs);
    lemma_straight_mask_pop(r);
    let p = chosen(cs, 0, m, 0);
    lemma_chosen_counts(cs, 0, m, 0);
    let t = cs.filter(p);
    lemma_chosen_masks(t, m, 0, 0, 0);
    lemma_hand_facts(t);
    assert forall|v: nat| v < 32 implies #[trigger] bit32(value_mask(t), v) == bit32(m, v) by {}
    lemma_bit32_ext(value_mask(t), m);
    lemma_no_flush_in_part(cs, t);
    t
}

/// With no pair, set, straight or flush among the cards, their five highest
/// cards rank as the seven-card evaluation ranks the cards.
proof fn lemma_reach_high_card(cs: Seq<Card>) -> (t: Seq<Card>)
    requires
        cs.no_duplicates(),
        5 <= cs.len() <= 7,
        flush_suit(suit_value_masks(cs)) is None,
        count_mask(cs, 4) == 0,
        count_mask(cs, 3) == 0,
        count_mask(cs, 2) == 0,
        straight_rank(value_mask(cs)) is None,
    ensures
        five_among(t, cs),
        rank_five_spec(t) == rank_seven_spec(cs),
{
    lemma_hand_facts(cs);
    lemma_zero_bits32();
    let vs = value_mask(cs);
    let k = keep_n_spec(vs, 5);
    lemma_keep_n_exact(vs, 5);
    lemma_keep_n_within(vs, 5);
    let p = chosen(cs, 0, k, 0);
    lemma_chosen_counts(cs, 0, k, 0);
    let t = cs.filter(p);
    lemma_chosen_masks(t, k, 0, 0, 0);
    lemma_hand_facts(t);
    assert forall|v: nat| v < 32 implies #[trigger] bit32(value_mask(t), v) == bit32(k, v) by {}
    lemma_bit32_ext(value_mask(t), k);
    lemma_no_flush_in_part(cs, t);
    lemma_no_straight_in_part(cs, t);
    t
}

/// Cards of suit index `f` whose value is in `m`.
pub open spec fn suited(f: nat, m: u32) -> spec_fn(Card) -> bool {
    |c: Card| suit_index(c.suit) == f && bit32(m, value_index(c.value))
}

/// Choosing the cards of one suit with values in a mask of that suit's
/// values gives one card of each of those values, all of that suit.
proof fn lemma_suited_counts(cs: Seq<Card>, f: nat, m: u32)
    requires
        cs.no_duplicates(),
        f < 4,
        bits_within(m, suit_value_mask(cs, f)),
    ensures
        cs.filter(suited(f, m)).no_duplicates(),
        forall|c: Card| cs.filter(suited(f, m)).contains(c) ==> cs.contains(c),
        forall|v: nat|
            v < 32 ==> #[trigger] value_count(cs.filter(suited(f, m)), v) == (if bit32(m, v) {
                1nat
            } else {
                0nat
            }),
        forall|s: nat|
            #[trigger] suit_count(cs.filter(suited(f, m)), s) == (if s == f {
                cs.filter(suited(f, m)).len()
            } else {
                0
            }),
{
    broadcast use vstd::seq_lib::seq_to_set_is_finite;

    let q = suited(f, m);
    let t = cs.filter(q);
    lemma_filter_counts(cs, q, has_value(0));
    assert forall|v: nat| v < 32 implies #[trigger] value_count(t, v) == (if bit32(m, v) {
        1nat
    } else {
        0nat
    }) by {
        crate::cards::rank_best::lemma_counts_are_count_if(t, v, 0);
        lemma_filter_counts(cs, q, has_value(v));
        let bq = both(q, has_value(v));
        if bit32(m, v) {
            lemma_count_same(cs, bq, has_card(v, f));
            crate::cards::rank_best::lemma_suit_value_bits(cs, f, v);
            crate::cards::rank_best::lemma_card_once(cs, v, f);
            crate::cards::rank_best::lemma_count_if_set(cs, has_card(v, f));
        } else {
            assert forall|c: Card| !#[trigger] bq(c) by {}
            lemma_count_none(cs, bq);
        }
    }
    assert forall|s: nat| #[trigger] suit_count(t, s) == (if s == f {
        t.len()
    } else {
        0
    }) by {
        crate::cards::rank_best::lemma_counts_are_count_if(t, 0, s);
        lemma_filter_counts(cs, q, has_suit(s));
        let bq = both(q, has_suit(s));
        if s == f {
            lemma_count_same(cs, bq, q);
        } else {
            assert forall|c: Card| !#[trigger] bq(c) by {}
            lemma_count_none(cs, bq);
        }
    }
}

/// Cards of a single suit have a one-bit suit mask.
proof fn lemma_one_suit(t: Seq<Card>, f: nat)
    requires
        f < 4,
        t.len() > 0,
        forall|s: nat| #[trigger] suit_count(t, s) == (if s == f { t.len() } else { 0 }),
    ensures
        pop32(suit_mask(t)) == 1,
{
    assert forall|v: nat| v < 32 implies #[trigger] bit32(suit_mask(t), v) == (v == f) by {
        lemma_suit_mask_bits(t, v);
    }
    lemma_pop_single(suit_mask(t), f, 32);
}

/// With a flush among at most seven cards, the straight flush or the five
/// highest cards of the flush suit rank as the seven-card evaluation ranks
/// the cards.
proof fn lemma_reach_flush(cs: Seq<Card>) -> (t: Seq<Card>)
    requires
        cs.no_duplicates(),
        5 <= cs.len() <= 7,
        flush_suit(suit_value_masks(cs)) is Some,
    ensures
        five_among(t, cs),
        rank_five_spec(t) == rank_seven_spec(cs),
{
    lemma_zero_bits32();
    let sv = suit_value_masks(cs);
    let f = flush_suit(sv)->Some_0;
    let fm = suit_value_mask(cs, f as nat);
    assert(f < 4 && sv[f as int] == fm && pop32(fm) >= 5);
    let m = if straight_rank(fm) is Some {
        straight_mask(straight_rank(fm)->Some_0)
    } else {
        keep_n_spec(fm, 5)
    };
    if straight_rank(fm) is Some {
        lemma_straight_found(fm);
        lemma_straight_exact(m, fm);
        lemma_straight_mask_pop(straight_rank(fm)->Some_0);
    } else {
        lemma_keep_n_exact(fm, 5);
        lemma_keep_n_within(fm, 5);
        if straight_rank(m) is Some {
            lemma_within_le(m, fm);
            lemma_straight_monotone(m, fm);
        }
    }
    lemma_suited_counts(cs, f as nat, m);
    let t = cs.filter(suited(f as nat, m));
    assert forall|v: nat| v < 32 implies #[trigger] bit32(m, v) == (v < 13 && value_count(t, v)
        == 1) by {
        if bit32(m, v) {
            lemma_hand_facts(cs);
            crate::cards::rank_agree::lemma_suit_values_within(cs, f as nat, v);
        }
    }
    lemma_chosen_masks(t, m, 0, 0, 0);
    lemma_hand_facts(t);
    assert forall|v: nat| v < 32 implies #[trigger] bit32(value_mask(t), v) == bit32(m, v) by {}
    lemma_bit32_ext(value_mask(t), m);
    lemma_one_suit(t, f as nat);
    t
}

/// Five to seven distinct cards hold five that rank, as a five-card hand,
/// as the seven-card evaluation ranks all of them.
pub proof fn lemma_rank_seven_is_reached(cs: Seq<Card>)
    requires
        cs.no_duplicates(),
        5 <= cs.len() <= 7,
    ensures
        exists|t: Seq<Card>| five_among(t, cs) && rank_five_spec(t) == rank_seven_spec(cs),
{
    let c2 = count_mask(cs, 2);
    let c3 = count_mask(cs, 3);
    let c4 = count_mask(cs, 4);
    let t = if flush_suit(suit_value_masks(cs)) is Some {
        lemma_reach_flush(cs)
    } else if c4 != 0 {
        lemma_reach_quads(cs)
    } else if c3 != 0 && pop32(c3) == 2 {
        lemma_reach_two_sets(cs)
    } else if c3 != 0 && c2 != 0 {
        lemma_reach_set_and_pair(cs)
    } else if straight_rank(value_mask(cs)) is Some {
        lemma_reach_straight(cs)
    } else if c3 != 0 {
        lemma_reach_set(cs)
    } else if pop32(c2) >= 2 {
        lemma_reach_two_pair(cs)
    } else if c2 == 0 {
        lemma_reach_high_card(cs)
    } else {
        lemma_reach_pair(cs)
    };
    assert(five_among(t, cs) && rank_five_spec(t) == rank_seven_spec(cs));
}

/// The seven-card evaluation ranks five to seven distinct cards as the best
/// five-card hand among them: some five of the cards rank so as a
/// five-card hand, and no five rank higher.
pub proof fn lemma_rank_seven_is_best_of_fives(cs: Seq<Card>)
    requires
        cs.no_duplicates(),
        5 <= cs.len() <= 7,
    ensures
        exists|t: Seq<Card>| five_among(t, cs) && rank_five_spec(t) == rank_seven_spec(cs),
        forall|t: Seq<Card>|
            five_among(t, cs) ==> rank_le(#[trigger] rank_five_spec(t), rank_seven_spec(cs)),
{
    lemma_rank_seven_is_reached(cs);
    assert forall|t: Seq<Card>| five_among(t, cs) implies rank_le(
        #[trigger] rank_five_spec(t),
        rank_seven_spec(cs),
    ) by {
        lemma_rank_seven_is_best(cs, t);
    }
}

} // verus!
