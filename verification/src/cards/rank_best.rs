//! The seven-card evaluation finds the best hand: no five of the cards
//! rank higher, as five-card hands, than the rank it gives the whole set.

use vstd::prelude::*;
use crate::cards::card::{suit_index, value_index, Card};
use crate::cards::rank::{
    count_mask, flush_suit, lemma_pop_zero, rank_five_spec, rank_seven_spec, suit_mask,
    suit_value_masks, value_mask, suit_value_mask, value_count,
    highest_bit, keep_n_spec, lemma_clear_lowest_decreases, pop32, pop_low, straight_rank, Rank,
    STRAIGHT0, STRAIGHT1, STRAIGHT2, STRAIGHT3, STRAIGHT4, STRAIGHT5, STRAIGHT6, STRAIGHT7,
    STRAIGHT8, STRAIGHT9,
};
use crate::cards::rank_agree::{
    suit_count, lemma_count_split, lemma_flush_five, lemma_highest_single, lemma_pop_zero_is_zero,
    lemma_suit_counts_total, lemma_suit_values_pop, lemma_pop_ge2,
    lemma_bit32_ext, lemma_bit32_ops, lemma_pop_single, lemma_pop_subset, lemma_pop_xor_subset,
};
use crate::cards::rank_defined::{
    bit32, lemma_count_facts, lemma_count_mask_bits, lemma_pop_low13, lemma_value_mask_bits,
};
use vstd::std_specs::bits::{axiom_u32_leading_zeros, u32_leading_zeros};

verus! {

/// The category of a rank, from 0 for a high card to 8 for a straight
/// flush, in the order the categories are declared.
pub open spec fn category(r: Rank) -> nat {
    match r {
        Rank::HighCard(_) => 0,
        Rank::OnePair(_) => 1,
        Rank::TwoPair(_) => 2,
        Rank::ThreeOfAKind(_) => 3,
        Rank::Straight(_) => 4,
        Rank::Flush(_) => 5,
        Rank::FullHouse(_) => 6,
        Rank::FourOfAKind(_) => 7,
        Rank::StraightFlush(_) => 8,
    }
}

/// The number that orders ranks within a category.
pub open spec fn strength(r: Rank) -> u32 {
    match r {
        Rank::HighCard(x) => x,
        Rank::OnePair(x) => x,
        Rank::TwoPair(x) => x,
        Rank::ThreeOfAKind(x) => x,
        Rank::Straight(x) => x,
        Rank::Flush(x) => x,
        Rank::FullHouse(x) => x,
        Rank::FourOfAKind(x) => x,
        Rank::StraightFlush(x) => x,
    }
}

/// `a` ranks no higher than `b`: a lower category, or the same category
/// and a number no greater.
pub open spec fn rank_le(a: Rank, b: Rank) -> bool {
    category(a) < category(b) || (category(a) == category(b) && strength(a) <= strength(b))
}

/// Orders between masks, read as numbers.
proof fn lemma_mask_order_facts(m: u32, mm: u32, a: u32, k: u32, s: u32)
    by (bit_vector)
    ensures
        m & mm == m ==> m <= mm,
        (m & mm == m && m & s == s) ==> mm & s == s,
        (a <= k && k < 32) ==> (1u32 << a) <= (1u32 << k),
        (m < 0x2000 && mm < 0x2000) ==> (m << 13u32 | mm) == m * 8192 + mm,
        (a < k && k < 32 && (m >> a) & 1u32 == 1u32 && (m >> k) & 1u32 != 1u32) ==> m < ((m ^ (
        1u32 << a)) | (1u32 << k)),
{
}

/// Clearing the lowest set bit removes exactly that bit, the lowest one.
pub(crate) proof fn lemma_clear_lowest_bits(m: u32, v: u32, w: u32)
    by (bit_vector)
    requires
        v < 32,
        w < 32,
    ensures
        ((m & ((m - 1) as u32)) >> v) & 1u32 == 1u32 ==> (m >> v) & 1u32 == 1u32,
        ((m >> v) & 1u32 == 1u32 && ((m & ((m - 1) as u32)) >> v) & 1u32 != 1u32 && (m >> w)
            & 1u32 == 1u32 && w != v) ==> ((m & ((m - 1) as u32)) >> w) & 1u32 == 1u32 && v < w,
{
}

/// The bits of `x` are among those of `y`.
pub open spec fn bits_within(x: u32, y: u32) -> bool {
    forall|v: nat| v < 32 && #[trigger] bit32(x, v) ==> bit32(y, v)
}

/// A mask within another is no greater as a number.
pub(crate) proof fn lemma_within_le(x: u32, y: u32)
    requires
        bits_within(x, y),
    ensures
        x <= y,
        x & y == x,
{
    assert forall|v: nat| v < 32 implies #[trigger] bit32(x & y, v) == bit32(x, v) by {
        lemma_bit32_ops(x, y, 0, v as u32);
    }
    lemma_bit32_ext(x & y, x);
    lemma_mask_order_facts(x, y, 0, 0, 0);
}

/// Any choice of at most `n` bits of a mask is, as a number, no greater
/// than the `n` highest bits of the mask.
pub(crate) proof fn lemma_keep_n_max(m: u32, mm: u32, n: u32)
    requires
        bits_within(m, mm),
        pop32(m) <= n,
    ensures
        m <= keep_n_spec(mm, n),
    decreases mm, m,
{
    if mm == 0 || pop32(mm) <= n {
        lemma_within_le(m, mm);
    } else {
        let low = mm & ((mm - 1) as u32);
        lemma_clear_lowest_decreases(mm);
        // The bit that clearing removes.
        assert(exists|b: nat| b < 32 && bit32(mm, b) && !bit32(low, b)) by {
            if !(exists|b: nat| b < 32 && bit32(mm, b) && !bit32(low, b)) {
                assert forall|v: nat| v < 32 implies #[trigger] bit32(mm, v) == bit32(low, v) by {
                    lemma_clear_lowest_bits(mm, v as u32, v as u32);
                    assert(!(bit32(mm, v) && !bit32(low, v)));
                }
                lemma_bit32_ext(mm, low);
            }
        }
        let b = choose|b: nat| b < 32 && bit32(mm, b) && !bit32(low, b);
        assert forall|v: nat| v < 32 && bit32(mm, v) && v != b implies #[trigger] bit32(low, v)
            && b < v by {
            lemma_clear_lowest_bits(mm, b as u32, v as u32);
        }
        if !bit32(m, b) {
            assert forall|v: nat| v < 32 && #[trigger] bit32(m, v) implies bit32(low, v) by {
                assert(bit32(mm, v));
            }
            lemma_keep_n_max(m, low, n);
        } else {
            // Some bit of the mask is not chosen, and it lies above `b`.
            assert(exists|c: nat| c < 32 && bit32(mm, c) && !bit32(m, c)) by {
                if !(exists|c: nat| c < 32 && bit32(mm, c) && !bit32(m, c)) {
                    assert forall|v: nat| v < 32 && #[trigger] bit32(mm, v) implies bit32(m, v) by {
                        assert(!(bit32(mm, v) && !bit32(m, v)));
                    }
                    lemma_pop_subset(mm, m, 32);
                }
            }
            let c = choose|c: nat| c < 32 && bit32(mm, c) && !bit32(m, c);
            assert(c != b);
            lemma_clear_lowest_bits(mm, b as u32, c as u32);
            assert(bit32(low, c) && b < c);
            let bb = b as u32;
            let cc = c as u32;
            let x = m ^ (1u32 << bb);
            let m2 = x | (1u32 << cc);
            assert forall|v: nat| v < 32 implies #[trigger] bit32(x, v) == (bit32(m, v) && v != b)
                by {
                lemma_bit32_ops(m, 1u32 << bb, bb, v as u32);
            }
            assert forall|v: nat| v < 32 implies #[trigger] bit32(m2, v) == (bit32(x, v) || v == c)
                by {
                lemma_bit32_ops(x, 1u32 << cc, cc, v as u32);
            }
            // The swap keeps the count of chosen bits.
            assert forall|v: nat| v < 32 implies #[trigger] bit32(1u32 << bb, v) == (v == b) by {
                lemma_bit32_ops(m, m, bb, v as u32);
            }
            assert forall|v: nat| v < 32 implies #[trigger] bit32(1u32 << cc, v) == (v == c) by {
                lemma_bit32_ops(m, m, cc, v as u32);
            }
            lemma_pop_single(1u32 << bb, b, 32);
            lemma_pop_single(1u32 << cc, c, 32);
            lemma_pop_xor_subset(1u32 << bb, m, 32);
            assert forall|v: nat| v < 32 implies #[trigger] bit32(m2 ^ (1u32 << cc), v) == bit32(
                x,
                v,
            ) by {
                lemma_bit32_ops(m2, 1u32 << cc, cc, v as u32);
            }
            lemma_bit32_ext(m2 ^ (1u32 << cc), x);
            lemma_pop_xor_subset(1u32 << cc, m2, 32);
            assert forall|v: nat| v < 32 && #[trigger] bit32(m2, v) implies bit32(low, v) by {
                if v != c {
                    assert(bit32(mm, v));
                }
            }
            lemma_mask_order_facts(m, 0, bb, cc, 0);
            lemma_keep_n_max(m2, low, n);
        }
    }
}

/// A set bit of a mask is, as a single bit, no greater than its highest
/// bit.
pub(crate) proof fn lemma_bit_le_highest(mm: u32, a: nat)
    requires
        a < 32,
        bit32(mm, a),
    ensures
        (1u32 << (a as u32)) <= highest_bit(mm),
{
    axiom_u32_leading_zeros(mm);
    let lz = u32_leading_zeros(mm);
    if mm == 0 {
        lemma_bit32_ops(0, 0, 0, a as u32);
    }
    if a >= 32 - lz {
        assert((mm >> (a as u32)) & 1u32 == 0u32);
    }
    lemma_mask_order_facts(0, 0, a as u32, (31 - lz) as u32, 0);
}

/// A straight in a mask is a straight, at least as high, in any mask that
/// holds it.
pub(crate) proof fn lemma_straight_monotone(m: u32, mm: u32)
    requires
        m & mm == m,
        straight_rank(m) is Some,
    ensures
        straight_rank(mm) is Some,
        straight_rank(m)->Some_0 <= straight_rank(mm)->Some_0,
{
    lemma_mask_order_facts(m, mm, 0, 0, STRAIGHT0);
    lemma_mask_order_facts(m, mm, 0, 0, STRAIGHT1);
    lemma_mask_order_facts(m, mm, 0, 0, STRAIGHT2);
    lemma_mask_order_facts(m, mm, 0, 0, STRAIGHT3);
    lemma_mask_order_facts(m, mm, 0, 0, STRAIGHT4);
    lemma_mask_order_facts(m, mm, 0, 0, STRAIGHT5);
    lemma_mask_order_facts(m, mm, 0, 0, STRAIGHT6);
    lemma_mask_order_facts(m, mm, 0, 0, STRAIGHT7);
    lemma_mask_order_facts(m, mm, 0, 0, STRAIGHT8);
    lemma_mask_order_facts(m, mm, 0, 0, STRAIGHT9);
}

/// How many of the cards satisfy `p`.
pub open spec fn count_if(cs: Seq<Card>, p: spec_fn(Card) -> bool) -> nat
    decreases cs.len(),
{
    if cs.len() == 0 {
        0
    } else {
        count_if(cs.drop_last(), p) + (if p(cs.last()) {
            1nat
        } else {
            0nat
        })
    }
}

/// Cards of value index `v`.
pub open spec fn has_value(v: nat) -> spec_fn(Card) -> bool {
    |c: Card| value_index(c.value) == v
}

/// Cards of suit index `s`.
pub open spec fn has_suit(s: nat) -> spec_fn(Card) -> bool {
    |c: Card| suit_index(c.suit) == s
}

/// Cards of value index `v` and suit index `s`.
pub open spec fn has_card(v: nat, s: nat) -> spec_fn(Card) -> bool {
    |c: Card| value_index(c.value) == v && suit_index(c.suit) == s
}

/// Dropping the last card keeps the cards distinct.
proof fn lemma_drop_last_distinct(cs: Seq<Card>)
    requires
        cs.no_duplicates(),
        cs.len() > 0,
    ensures
        cs.drop_last().no_duplicates(),
        !cs.drop_last().to_set().contains(cs.last()),
        cs.to_set() =~= cs.drop_last().to_set().insert(cs.last()),
{
    let dl = cs.drop_last();
    assert(cs =~= dl.push(cs.last()));
    dl.lemma_push_to_set_commute(cs.last());
    assert forall|i: int, j: int| 0 <= i < j < dl.len() implies dl[i] != dl[j] by {
        assert(dl[i] == cs[i] && dl[j] == cs[j]);
    }
    if dl.to_set().contains(cs.last()) {
        let i = choose|i: int| 0 <= i < dl.len() && dl[i] == cs.last();
        assert(cs[i] == cs[cs.len() - 1]);
    }
}

/// Counting distinct cards is counting the set of them.
pub(crate) proof fn lemma_count_if_set(cs: Seq<Card>, p: spec_fn(Card) -> bool)
    requires
        cs.no_duplicates(),
    ensures
        cs.to_set().filter(p).finite(),
        count_if(cs, p) == cs.to_set().filter(p).len(),
    decreases cs.len(),
{
    broadcast use vstd::seq_lib::seq_to_set_is_finite;

    if cs.len() > 0 {
        let dl = cs.drop_last();
        lemma_drop_last_distinct(cs);
        lemma_count_if_set(dl, p);
        if p(cs.last()) {
            assert(cs.to_set().filter(p) =~= dl.to_set().filter(p).insert(cs.last()));
        } else {
            assert(cs.to_set().filter(p) =~= dl.to_set().filter(p));
        }
    } else {
        assert(cs.to_set().filter(p) =~= Set::empty());
    }
}

/// Counting by value and by suit are counts of cards that satisfy a test.
pub(crate) proof fn lemma_counts_are_count_if(cs: Seq<Card>, v: nat, s: nat)
    ensures
        value_count(cs, v) == count_if(cs, has_value(v)),
        suit_count(cs, s) == count_if(cs, has_suit(s)),
    decreases cs.len(),
{
    if cs.len() > 0 {
        lemma_counts_are_count_if(cs.drop_last(), v, s);
    }
}

/// A part of the cards has no more cards that satisfy a test.
proof fn lemma_count_if_sub(t: Seq<Card>, cs: Seq<Card>, p: spec_fn(Card) -> bool)
    requires
        t.no_duplicates(),
        cs.no_duplicates(),
        forall|c: Card| t.contains(c) ==> cs.contains(c),
    ensures
        count_if(t, p) <= count_if(cs, p),
{
    broadcast use vstd::seq_lib::seq_to_set_is_finite;

    lemma_count_if_set(t, p);
    lemma_count_if_set(cs, p);
    assert(t.to_set().filter(p).subset_of(cs.to_set().filter(p)));
    vstd::set_lib::lemma_len_subset(t.to_set().filter(p), cs.to_set().filter(p));
}

/// A set whose elements are all equal has at most one.
proof fn lemma_at_most_one(st: Set<Card>)
    requires
        st.finite(),
        forall|x: Card, y: Card| st.contains(x) && st.contains(y) ==> x == y,
    ensures
        st.len() <= 1,
{
    if st.len() > 0 {
        let x = st.choose();
        assert(st.subset_of(set![x]));
        vstd::set_lib::lemma_len_subset(st, set![x]);
    }
}

/// Distinct cards hold at most one card of a given value and suit.
pub(crate) proof fn lemma_card_once(cs: Seq<Card>, v: nat, s: nat)
    requires
        cs.no_duplicates(),
    ensures
        cs.to_set().filter(has_card(v, s)).len() <= 1,
{
    broadcast use vstd::seq_lib::seq_to_set_is_finite;

    lemma_count_if_set(cs, has_card(v, s));
    lemma_at_most_one(cs.to_set().filter(has_card(v, s)));
}

/// Among distinct cards, those of suit `f` and those of values `a` and `b`
/// overlap in at most two cards: a suit, plus two values, count at most
/// two more than all the cards.
pub(crate) proof fn lemma_suit_values_overlap(cs: Seq<Card>, f: nat, a: nat, b: nat)
    requires
        cs.no_duplicates(),
        a != b,
    ensures
        suit_count(cs, f) + value_count(cs, a) + value_count(cs, b) <= cs.len() + 2,
        suit_count(cs, f) + value_count(cs, a) <= cs.len() + 1,
{
    broadcast use vstd::seq_lib::seq_to_set_is_finite;

    let all = cs.to_set();
    let sa = all.filter(has_suit(f));
    let va = all.filter(has_value(a));
    let vb = all.filter(has_value(b));
    lemma_counts_are_count_if(cs, a, f);
    lemma_counts_are_count_if(cs, b, f);
    lemma_count_if_set(cs, has_suit(f));
    lemma_count_if_set(cs, has_value(a));
    lemma_count_if_set(cs, has_value(b));
    lemma_card_once(cs, a, f);
    lemma_card_once(cs, b, f);
    cs.unique_seq_to_set();
    let vab = va + vb;
    assert(va.disjoint(vb));
    vstd::set_lib::lemma_set_disjoint_lens(va, vb);
    // The suit's cards and the two values' cards all lie among the cards.
    vstd::set_lib::lemma_len_subset(sa + vab, all);
    vstd::set_lib::lemma_set_intersect_union_lens(sa, vab);
    assert(sa.intersect(vab) =~= all.filter(has_card(a, f)) + all.filter(has_card(b, f)));
    vstd::set_lib::lemma_len_union(all.filter(has_card(a, f)), all.filter(has_card(b, f)));
    vstd::set_lib::lemma_len_subset(sa + va, all);
    vstd::set_lib::lemma_set_intersect_union_lens(sa, va);
    assert(sa.intersect(va) =~= all.filter(has_card(a, f)));
}

/// A value of a suit is in the suit's value mask exactly when a card of
/// that value and suit is among the cards.
pub(crate) proof fn lemma_suit_value_bits(cs: Seq<Card>, s: nat, v: nat)
    requires
        v < 32,
    ensures
        bit32(suit_value_mask(cs, s), v) == (count_if(cs, has_card(v, s)) > 0),
    decreases cs.len(),
{
    if cs.len() > 0 {
        lemma_suit_value_bits(cs.drop_last(), s, v);
        let w = value_index(cs.last().value) as u32;
        let m = suit_value_mask(cs.drop_last(), s);
        lemma_bit32_ops(m, 1u32 << w, w, v as u32);
    } else {
        lemma_bit32_ops(0, 0, 0, v as u32);
    }
}

/// A part of the cards has, in each suit, only values the cards have there.
pub(crate) proof fn lemma_sub_suit_values(t: Seq<Card>, cs: Seq<Card>, s: nat)
    requires
        t.no_duplicates(),
        cs.no_duplicates(),
        forall|c: Card| t.contains(c) ==> cs.contains(c),
    ensures
        bits_within(suit_value_mask(t, s), suit_value_mask(cs, s)),
{
    assert forall|v: nat| v < 32 && #[trigger] bit32(suit_value_mask(t, s), v) implies bit32(
        suit_value_mask(cs, s),
        v,
    ) by {
        lemma_suit_value_bits(t, s, v);
        lemma_suit_value_bits(cs, s, v);
        lemma_count_if_sub(t, cs, has_card(v, s));
    }
}

/// A part of the cards has no more cards of any value.
pub(crate) proof fn lemma_sub_value_counts(t: Seq<Card>, cs: Seq<Card>)
    requires
        t.no_duplicates(),
        cs.no_duplicates(),
        forall|c: Card| t.contains(c) ==> cs.contains(c),
    ensures
        forall|v: nat| #[trigger] value_count(t, v) <= value_count(cs, v),
{
    assert forall|v: nat| #[trigger] value_count(t, v) <= value_count(cs, v) by {
        lemma_counts_are_count_if(t, v, 0);
        lemma_counts_are_count_if(cs, v, 0);
        lemma_count_if_sub(t, cs, has_value(v));
    }
}

/// A mask with one set bit `b` has no other.
pub(crate) proof fn lemma_single_bit(x: u32, b: nat)
    requires
        pop32(x) == 1,
        b < 32,
        bit32(x, b),
    ensures
        forall|v: nat| v < 32 ==> #[trigger] bit32(x, v) == (v == b),
{
    assert forall|v: nat| v < 32 implies #[trigger] bit32(x, v) == (v == b) by {
        if v != b && bit32(x, v) {
            lemma_pop_ge2(x, v, b, 32);
        }
    }
}

/// A non-zero mask has a set bit.
pub(crate) proof fn lemma_some_bit(x: u32) -> (b: nat)
    requires
        x != 0,
    ensures
        b < 32,
        bit32(x, b),
{
    if !(exists|b: nat| b < 32 && bit32(x, b)) {
        assert forall|v: nat| v < 32 implies #[trigger] bit32(x, v) == bit32(0u32, v) by {
            lemma_bit32_ops(x, x, 0, v as u32);
            assert(!(v < 32 && bit32(x, v)));
        }
        lemma_bit32_ext(x, 0u32);
    }
    choose|b: nat| b < 32 && bit32(x, b)
}

/// Two masks with the single same bit are equal.
pub(crate) proof fn lemma_single_same(x: u32, y: u32, b: nat)
    requires
        pop32(x) == 1,
        pop32(y) == 1,
        b < 32,
        bit32(x, b),
        bit32(y, b),
    ensures
        x == y,
{
    lemma_single_bit(x, b);
    lemma_single_bit(y, b);
    lemma_bit32_ext(x, y);
}

/// The highest bit of a non-zero mask is no greater than the mask.
pub(crate) proof fn lemma_highest_le(mm: u32)
    requires
        mm != 0,
    ensures
        highest_bit(mm) <= mm,
{
    axiom_u32_leading_zeros(mm);
    let k = (31 - u32_leading_zeros(mm)) as u32;
    assert forall|v: nat| v < 32 && #[trigger] bit32(1u32 << k, v) implies bit32(mm, v) by {
        lemma_bit32_ops(mm, mm, k, v as u32);
        lemma_bit32_ops(mm, mm, k, k);
    }
    lemma_within_le(1u32 << k, mm);
}

/// A single bit within a mask is no greater than the mask's highest bit.
pub(crate) proof fn lemma_single_le_highest(x: u32, mm: u32)
    requires
        pop32(x) == 1,
        bits_within(x, mm),
    ensures
        x <= highest_bit(mm),
{
    if x == 0 {
        lemma_pop_zero(32);
    }
    let b = lemma_some_bit(x);
    lemma_single_bit(x, b);
    assert forall|v: nat| v < 32 implies #[trigger] bit32(x, v) == bit32(1u32 << (b as u32), v) by {
        lemma_bit32_ops(x, x, b as u32, v as u32);
    }
    lemma_bit32_ext(x, 1u32 << (b as u32));
    lemma_bit_le_highest(mm, b);
}

/// Keeping some of a mask's bits gives no greater a number.
pub(crate) proof fn lemma_keep_n_le(mm: u32, n: u32)
    ensures
        keep_n_spec(mm, n) <= mm,
    decreases mm,
{
    if !(mm == 0 || pop32(mm) <= n) {
        lemma_clear_lowest_decreases(mm);
        lemma_keep_n_le(mm & ((mm - 1) as u32), n);
    }
}

/// Ranks inside a category compare by the mask above bit 13 first and by
/// the mask below it next.
pub(crate) proof fn lemma_encoded_le(a1: u32, b1: u32, a2: u32, b2: u32)
    requires
        a1 < 0x2000,
        b1 < 0x2000,
        a2 < 0x2000,
        b2 < 0x2000,
        a1 < a2 || (a1 == a2 && b1 <= b2),
    ensures
        (a1 << 13u32 | b1) <= (a2 << 13u32 | b2),
{
    lemma_mask_order_facts(a1, b1, 0, 0, 0);
    lemma_mask_order_facts(a2, b2, 0, 0, 0);
    assert(a1 * 8192 + b1 <= a2 * 8192 + b2) by (nonlinear_arith)
        requires
            b1 < 0x2000,
            b2 < 0x2000,
            a1 < a2 || (a1 == a2 && b1 <= b2),
    ;
}

/// Five distinct cards `t` all among the cards `cs`.
pub open spec fn five_among(t: Seq<Card>, cs: Seq<Card>) -> bool {
    &&& t.no_duplicates()
    &&& t.len() == 5
    &&& forall|c: Card| t.contains(c) ==> cs.contains(c)
}

/// What counting gives about five distinct cards among at most seven.
proof fn lemma_best_facts(cs: Seq<Card>, t: Seq<Card>)
    requires
        cs.no_duplicates(),
        5 <= cs.len() <= 7,
        five_among(t, cs),
    ensures
        forall|v: nat| #[trigger] value_count(t, v) <= value_count(cs, v),
        forall|v: nat| v < 13 ==> #[trigger] value_count(cs, v) <= 4,
        forall|v: nat| 13 <= v ==> #[trigger] value_count(cs, v) == 0,
        forall|v: nat|
            v < 32 ==> #[trigger] bit32(value_mask(cs), v) == (v < 13 && value_count(cs, v) > 0),
        forall|v: nat|
            v < 32 ==> #[trigger] bit32(value_mask(t), v) == (v < 13 && value_count(t, v) > 0),
        forall|v: nat, k: nat|
            v < 32 ==> #[trigger] bit32(count_mask(cs, k), v) == (v < 13 && value_count(cs, v)
                == k),
        forall|v: nat, k: nat|
            v < 32 ==> #[trigger] bit32(count_mask(t, k), v) == (v < 13 && value_count(t, v)
                == k),
        value_mask(cs) < 0x2000,
        value_mask(t) < 0x2000,
        forall|k: nat| #[trigger] count_mask(cs, k) < 0x2000,
        forall|k: nat| #[trigger] count_mask(t, k) < 0x2000,
        pop32(count_mask(cs, 1)) + 2 * pop32(count_mask(cs, 2)) + 3 * pop32(count_mask(cs, 3)) + 4
            * pop32(count_mask(cs, 4)) == cs.len(),
        pop32(value_mask(cs)) == pop32(count_mask(cs, 1)) + pop32(count_mask(cs, 2)) + pop32(
            count_mask(cs, 3),
        ) + pop32(count_mask(cs, 4)),
        pop32(count_mask(t, 1)) + 2 * pop32(count_mask(t, 2)) + 3 * pop32(count_mask(t, 3)) + 4
            * pop32(count_mask(t, 4)) == 5,
        pop32(value_mask(t)) == pop32(count_mask(t, 1)) + pop32(count_mask(t, 2)) + pop32(
            count_mask(t, 3),
        ) + pop32(count_mask(t, 4)),
        bits_within(value_mask(t), value_mask(cs)),
        forall|s: nat| bits_within(#[trigger] suit_value_mask(t, s), suit_value_mask(cs, s)),
{
    lemma_count_facts(cs);
    lemma_count_facts(t);
    lemma_sub_value_counts(t, cs);
    lemma_count_split(cs, 13);
    lemma_count_split(t, 13);
    assert forall|k: nat| #[trigger] count_mask(cs, k) < 0x2000 by {
        lemma_count_mask_bits(cs, k, 13, 0);
    }
    assert forall|k: nat| #[trigger] count_mask(t, k) < 0x2000 by {
        lemma_count_mask_bits(t, k, 13, 0);
    }
    lemma_pop_low13(value_mask(cs), 32);
    lemma_pop_low13(value_mask(t), 32);
    lemma_pop_low13(count_mask(cs, 1), 32);
    lemma_pop_low13(count_mask(cs, 2), 32);
    lemma_pop_low13(count_mask(cs, 3), 32);
    lemma_pop_low13(count_mask(cs, 4), 32);
    lemma_pop_low13(count_mask(t, 1), 32);
    lemma_pop_low13(count_mask(t, 2), 32);
    lemma_pop_low13(count_mask(t, 3), 32);
    lemma_pop_low13(count_mask(t, 4), 32);
    assert forall|v: nat| v < 32 && #[trigger] bit32(value_mask(t), v) implies bit32(
        value_mask(cs),
        v,
    ) by {
        assert(value_count(t, v) <= value_count(cs, v));
    }
    assert forall|s: nat| bits_within(#[trigger] suit_value_mask(t, s), suit_value_mask(cs, s)) by {
        lemma_sub_suit_values(t, cs, s);
    }
}

/// Among at most seven distinct cards a suit with five values is the only
/// one, and it is the flush suit.
pub(crate) proof fn lemma_flush_unique(cs: Seq<Card>, g: nat)
    requires
        cs.no_duplicates(),
        cs.len() <= 7,
        g < 4,
        pop32(suit_value_mask(cs, g)) >= 5,
    ensures
        flush_suit(suit_value_masks(cs)) == Some(g as usize),
{
    lemma_suit_counts_total(cs);
    lemma_suit_values_pop(cs, 0);
    lemma_suit_values_pop(cs, 1);
    lemma_suit_values_pop(cs, 2);
    lemma_suit_values_pop(cs, 3);
}

/// Among at most seven distinct cards with a suit of five values, no value
/// appears four times, and no value appears three times beside another
/// that appears twice.
proof fn lemma_flush_excludes(cs: Seq<Card>, f: nat)
    requires
        cs.no_duplicates(),
        cs.len() <= 7,
        pop32(suit_value_mask(cs, f)) >= 5,
    ensures
        forall|a: nat| #[trigger] value_count(cs, a) <= 3,
        forall|a: nat, b: nat|
            a != b && #[trigger] value_count(cs, a) >= 3 ==> #[trigger] value_count(cs, b) <= 1,
{
    lemma_suit_values_pop(cs, f);
    assert forall|a: nat| #[trigger] value_count(cs, a) <= 3 by {
        lemma_suit_values_overlap(cs, f, a, a + 1);
    }
    assert forall|a: nat, b: nat|
        a != b && #[trigger] value_count(cs, a) >= 3 implies #[trigger] value_count(cs, b) <= 1 by {
        lemma_suit_values_overlap(cs, f, a, b);
    }
}

/// Five distinct cards whose values are not all different take a pair,
/// two pair, three of a kind, a full house or four of a kind, and a full
/// house or four of a kind needs a value three or four times beside
/// another.
proof fn lemma_five_paired(t: Seq<Card>)
    requires
        t.no_duplicates(),
        t.len() == 5,
        pop32(value_mask(t)) < 5,
    ensures
        category(rank_five_spec(t)) <= 3 || (exists|a: nat, b: nat|
            a != b && a < 13 && b < 13 && #[trigger] value_count(t, a) >= 3
                && #[trigger] value_count(t, b) >= 1 && value_count(t, a) + value_count(t, b) == 5),
{
    lemma_count_facts(t);
    lemma_count_split(t, 13);
    lemma_pop_low13(value_mask(t), 32);
    lemma_count_mask_bits(t, 1, 13, 0);
    lemma_count_mask_bits(t, 2, 13, 0);
    lemma_count_mask_bits(t, 3, 13, 0);
    lemma_count_mask_bits(t, 4, 13, 0);
    lemma_pop_low13(count_mask(t, 1), 32);
    lemma_pop_low13(count_mask(t, 2), 32);
    lemma_pop_low13(count_mask(t, 3), 32);
    lemma_pop_low13(count_mask(t, 4), 32);
    lemma_pop_zero(32);
    if pop32(value_mask(t)) == 2 {
        if pop32(count_mask(t, 4)) == 1 {
            let a = lemma_some_bit(count_mask(t, 4));
            let b = lemma_some_bit(count_mask(t, 1));
            assert(value_count(t, a) == 4 && value_count(t, b) == 1);
        } else {
            let a = lemma_some_bit(count_mask(t, 3));
            let b = lemma_some_bit(count_mask(t, 2));
            assert(value_count(t, a) == 3 && value_count(t, b) == 2);
        }
    }
}

/// With a flush among the cards, no five of them rank higher.
proof fn lemma_best_with_flush(cs: Seq<Card>, t: Seq<Card>)
    requires
        cs.no_duplicates(),
        5 <= cs.len() <= 7,
        five_among(t, cs),
        flush_suit(suit_value_masks(cs)) is Some,
    ensures
        rank_le(rank_five_spec(t), rank_seven_spec(cs)),
{
    lemma_best_facts(cs, t);
    let sv = suit_value_masks(cs);
    let f = flush_suit(sv)->Some_0;
    assert(f < 4 && pop32(sv[f as int]) >= 5);
    assert(sv[f as int] == suit_value_mask(cs, f as nat));
    lemma_flush_excludes(cs, f as nat);
    let vt = value_mask(t);
    if pop32(vt) == 5 {
        lemma_flush_five(t);
        if pop32(suit_mask(t)) == 1 {
            let g = flush_suit(suit_value_masks(t))->Some_0;
            assert(suit_value_masks(t)[g as int] == suit_value_mask(t, g as nat));
            assert(bits_within(suit_value_mask(t, g as nat), suit_value_mask(cs, g as nat)));
            lemma_pop_subset(vt, suit_value_mask(cs, g as nat), 32);
            lemma_flush_unique(cs, g as nat);
            lemma_within_le(vt, sv[f as int]);
            if straight_rank(vt) is Some {
                lemma_straight_monotone(vt, sv[f as int]);
            } else if straight_rank(sv[f as int]) is None {
                lemma_keep_n_max(vt, sv[f as int], 5);
            }
        }
    } else {
        lemma_five_paired(t);
        if category(rank_five_spec(t)) > 3 {
            let (a, b) = choose|a: nat, b: nat|
                a != b && a < 13 && b < 13 && #[trigger] value_count(t, a) >= 3
                    && #[trigger] value_count(t, b) >= 1 && value_count(t, a) + value_count(t, b)
                    == 5;
            assert(value_count(t, a) <= value_count(cs, a));
            assert(value_count(t, b) <= value_count(cs, b));
        }
    }
}

/// Without a flush among the cards, no five of them are of one suit.
pub(crate) proof fn lemma_no_flush_in_part(cs: Seq<Card>, t: Seq<Card>)
    requires
        cs.no_duplicates(),
        5 <= cs.len() <= 7,
        five_among(t, cs),
        flush_suit(suit_value_masks(cs)) is None,
    ensures
        pop32(value_mask(t)) == 5 ==> pop32(suit_mask(t)) != 1,
{
    if pop32(value_mask(t)) == 5 && pop32(suit_mask(t)) == 1 {
        lemma_flush_five(t);
        let g = flush_suit(suit_value_masks(t))->Some_0;
        assert(suit_value_masks(t)[g as int] == suit_value_mask(t, g as nat));
        lemma_sub_suit_values(t, cs, g as nat);
        lemma_pop_subset(value_mask(t), suit_value_mask(cs, g as nat), 32);
        lemma_flush_unique(cs, g as nat);
    }
}

/// The shapes of five distinct cards by how often their values appear.
proof fn lemma_five_shape(t: Seq<Card>)
    requires
        t.no_duplicates(),
        t.len() == 5,
    ensures
        2 <= pop32(value_mask(t)) <= 5,
        pop32(value_mask(t)) == 5 ==> count_mask(t, 2) == 0 && count_mask(t, 3) == 0
            && count_mask(t, 4) == 0,
        pop32(value_mask(t)) == 4 ==> pop32(count_mask(t, 2)) == 1 && count_mask(t, 3) == 0
            && count_mask(t, 4) == 0,
        pop32(value_mask(t)) == 3 ==> count_mask(t, 4) == 0 && ((pop32(count_mask(t, 3)) == 1
            && count_mask(t, 2) == 0) || (pop32(count_mask(t, 2)) == 2 && count_mask(t, 3) == 0)),
        pop32(value_mask(t)) == 2 ==> (pop32(count_mask(t, 4)) == 1 && count_mask(t, 2) == 0
            && count_mask(t, 3) == 0) || (pop32(count_mask(t, 3)) == 1 && pop32(count_mask(t, 2))
            == 1 && count_mask(t, 4) == 0),
{
    lemma_count_facts(t);
    lemma_count_split(t, 13);
    lemma_pop_low13(value_mask(t), 32);
    lemma_count_mask_bits(t, 1, 13, 0);
    lemma_count_mask_bits(t, 2, 13, 0);
    lemma_count_mask_bits(t, 3, 13, 0);
    lemma_count_mask_bits(t, 4, 13, 0);
    lemma_pop_low13(count_mask(t, 1), 32);
    lemma_pop_low13(count_mask(t, 2), 32);
    lemma_pop_low13(count_mask(t, 3), 32);
    lemma_pop_low13(count_mask(t, 4), 32);
    if pop32(count_mask(t, 2)) == 0 {
        lemma_pop_zero_is_zero(count_mask(t, 2));
    }
    if pop32(count_mask(t, 3)) == 0 {
        lemma_pop_zero_is_zero(count_mask(t, 3));
    }
    if pop32(count_mask(t, 4)) == 0 {
        lemma_pop_zero_is_zero(count_mask(t, 4));
    }
}

/// The highest bit of a non-zero mask is one bit of the mask.
pub(crate) proof fn lemma_highest_within(mm: u32)
    requires
        mm != 0,
    ensures
        pop32(highest_bit(mm)) == 1,
        bits_within(highest_bit(mm), mm),
{
    axiom_u32_leading_zeros(mm);
    let k = (31 - u32_leading_zeros(mm)) as u32;
    lemma_bit32_ops(mm, mm, k, k);
    assert forall|v: nat| v < 32 implies #[trigger] bit32(1u32 << k, v) == (v == k) by {
        lemma_bit32_ops(mm, mm, k, v as u32);
    }
    lemma_pop_single(1u32 << k, k as nat, 32);
}

/// The kept bits of a mask are bits of the mask.
pub(crate) proof fn lemma_keep_n_within(mm: u32, n: u32)
    ensures
        bits_within(keep_n_spec(mm, n), mm),
    decreases mm,
{
    if !(mm == 0 || pop32(mm) <= n) {
        let low = mm & ((mm - 1) as u32);
        lemma_clear_lowest_decreases(mm);
        lemma_keep_n_within(low, n);
        assert forall|v: nat| v < 32 && #[trigger] bit32(keep_n_spec(mm, n), v) implies bit32(
            mm,
            v,
        ) by {
            lemma_clear_lowest_bits(mm, v as u32, v as u32);
        }
    }
}

/// Removing a sub-mask leaves a mask within the mask it was removed from.
proof fn lemma_xor_within(x: u32, mm: u32)
    ensures
        bits_within(x, mm) ==> bits_within(mm ^ x, mm),
        bits_within(x, mm) ==> (forall|v: nat| v < 32 ==> #[trigger] bit32(mm ^ x, v) == (bit32(
            mm,
            v,
        ) && !bit32(x, v))),
{
    assert forall|v: nat| v < 32 implies #[trigger] bit32(mm ^ x, v) == (bit32(mm, v) != bit32(
        x,
        v,
    )) by {
        lemma_bit32_ops(mm, x, 0, v as u32);
    }
}

/// With four of a kind among the cards and no flush, no five of them rank
/// higher.
proof fn lemma_best_with_quads(cs: Seq<Card>, t: Seq<Card>)
    requires
        cs.no_duplicates(),
        5 <= cs.len() <= 7,
        five_among(t, cs),
        flush_suit(suit_value_masks(cs)) is None,
        count_mask(cs, 4) != 0,
    ensures
        rank_le(rank_five_spec(t), rank_seven_spec(cs)),
{
    lemma_best_facts(cs, t);
    lemma_five_shape(t);
    lemma_no_flush_in_part(cs, t);
    lemma_pop_zero(32);
    let vs = value_mask(cs);
    let c4 = count_mask(cs, 4);
    let vt = value_mask(t);
    let d4 = count_mask(t, 4);
    if pop32(vt) == 2 && pop32(d4) == 1 {
        let a = lemma_some_bit(d4);
        assert(value_count(t, a) == 4);
        assert(value_count(t, a) <= value_count(cs, a));
        assert(bit32(c4, a));
        if pop32(c4) == 0 {
            lemma_pop_zero_is_zero(c4);
        }
        lemma_single_same(d4, c4, a);
        lemma_single_bit(c4, a);
        assert(bits_within(d4, vt));
        lemma_pop_xor_subset(d4, vt, 32);
        lemma_xor_within(d4, vt);
        let x = vt ^ d4;
        assert(bits_within(c4, vs));
        lemma_xor_within(c4, vs);
        assert forall|v: nat| v < 32 && #[trigger] bit32(x, v) implies bit32(vs ^ c4, v) by {
            assert(value_count(t, v) <= value_count(cs, v));
        }
        lemma_single_le_highest(x, vs ^ c4);
        lemma_within_le(x, vt);
        let b = lemma_some_bit(x);
        lemma_bit32_ops(0, 0, 0, b as u32);
        lemma_highest_le(vs ^ c4);
        lemma_within_le(vs ^ c4, vs);
        lemma_encoded_le(d4, x, c4, highest_bit(vs ^ c4));
    }
}

/// A non-empty mask within a mask below bit 13 has a highest bit below
/// bit 13, and is itself below bit 13.
proof fn lemma_small_masks(x: u32, mm: u32)
    requires
        bits_within(x, mm),
        mm < 0x2000,
    ensures
        x < 0x2000,
        x != 0 ==> highest_bit(x) < 0x2000,
{
    lemma_within_le(x, mm);
    if x != 0 {
        lemma_highest_le(x);
    }
}

/// With two sets among the cards, no flush and no four of a kind, no five
/// of them rank higher.
proof fn lemma_best_with_two_sets(cs: Seq<Card>, t: Seq<Card>)
    requires
        cs.no_duplicates(),
        5 <= cs.len() <= 7,
        five_among(t, cs),
        flush_suit(suit_value_masks(cs)) is None,
        count_mask(cs, 4) == 0,
        count_mask(cs, 3) != 0,
        pop32(count_mask(cs, 3)) == 2,
    ensures
        rank_le(rank_five_spec(t), rank_seven_spec(cs)),
{
    lemma_best_facts(cs, t);
    lemma_five_shape(t);
    lemma_no_flush_in_part(cs, t);
    lemma_pop_zero(32);
    let c2 = count_mask(cs, 2);
    let c3 = count_mask(cs, 3);
    let vt = value_mask(t);
    let d2 = count_mask(t, 2);
    let d3 = count_mask(t, 3);
    let d4 = count_mask(t, 4);
    if pop32(c2) == 0 {
        lemma_pop_zero_is_zero(c2);
    }
    assert(c2 == 0);
    if pop32(vt) == 2 && pop32(d4) == 1 {
        let a = lemma_some_bit(d4);
        assert(value_count(t, a) <= value_count(cs, a));
        assert(bit32(count_mask(cs, 4), a));
        lemma_bit32_ops(0, 0, 0, a as u32);
    }
    if pop32(vt) == 2 && pop32(d3) == 1 && pop32(d2) == 1 {
        let a = lemma_some_bit(d3);
        let b = lemma_some_bit(d2);
        assert(value_count(t, a) <= value_count(cs, a));
        assert(value_count(t, b) <= value_count(cs, b));
        assert(value_count(cs, a) != 4) by {
            lemma_bit32_ops(0, 0, 0, a as u32);
        }
        assert(bit32(c3, a));
        lemma_fh_pair(t, a, b);
        assert(value_count(cs, b) != 4 && value_count(cs, b) != 2) by {
            lemma_bit32_ops(0, 0, 0, b as u32);
        }
        assert(bit32(c3, b));
        lemma_single_bit(d3, a);
        lemma_single_bit(d2, b);
        assert(bits_within(d3, c3));
        let set = highest_bit(c3);
        lemma_single_le_highest(d3, c3);
        lemma_highest_within(c3);
        lemma_small_masks(c3, c3);
        lemma_small_masks(d3, c3);
        lemma_small_masks(d2, c3);
        lemma_xor_within(set, c3);
        lemma_small_masks(c3 ^ set, c3);
        if d3 == set {
            lemma_xor_within(d3, c3);
            lemma_pop_xor_subset(d3, c3, 32);
            assert(bit32(c3 ^ d3, b));
            lemma_single_same(c3 ^ d3, d2, b);
        }
        lemma_encoded_le(d3, vt ^ d3, set, c3 ^ set);
    }
}

/// With a set and a pair among the cards, no flush, no four of a kind and
/// no second set, no five of them rank higher.
proof fn lemma_best_with_set_and_pair(cs: Seq<Card>, t: Seq<Card>)
    requires
        cs.no_duplicates(),
        5 <= cs.len() <= 7,
        five_among(t, cs),
        flush_suit(suit_value_masks(cs)) is None,
        count_mask(cs, 4) == 0,
        count_mask(cs, 3) != 0,
        pop32(count_mask(cs, 3)) != 2,
        count_mask(cs, 2) != 0,
    ensures
        rank_le(rank_five_spec(t), rank_seven_spec(cs)),
{
    lemma_best_facts(cs, t);
    lemma_five_shape(t);
    lemma_no_flush_in_part(cs, t);
    lemma_pop_zero(32);
    let c2 = count_mask(cs, 2);
    let c3 = count_mask(cs, 3);
    let vt = value_mask(t);
    let d2 = count_mask(t, 2);
    let d3 = count_mask(t, 3);
    let d4 = count_mask(t, 4);
    if pop32(c2) == 0 {
        lemma_pop_zero_is_zero(c2);
    }
    if pop32(c3) == 0 {
        lemma_pop_zero_is_zero(c3);
    }
    assert(pop32(c3) == 1);
    if pop32(vt) == 2 && pop32(d4) == 1 {
        let a = lemma_some_bit(d4);
        assert(value_count(t, a) <= value_count(cs, a));
        assert(bit32(count_mask(cs, 4), a));
        lemma_bit32_ops(0, 0, 0, a as u32);
    }
    if pop32(vt) == 2 && pop32(d3) == 1 && pop32(d2) == 1 {
        let a = lemma_some_bit(d3);
        let b = lemma_some_bit(d2);
        assert(value_count(t, a) <= value_count(cs, a));
        assert(value_count(t, b) <= value_count(cs, b));
        assert(value_count(cs, a) != 4) by {
            lemma_bit32_ops(0, 0, 0, a as u32);
        }
        assert(bit32(c3, a));
        lemma_fh_pair(t, a, b);
        lemma_single_same(d3, c3, a);
        lemma_single_bit(c3, a);
        assert(value_count(cs, b) != 4) by {
            lemma_bit32_ops(0, 0, 0, b as u32);
        }
        assert(value_count(cs, b) != 3) by {
            if value_count(cs, b) == 3 {
                assert(bit32(c3, b));
            }
        }
        assert(bit32(c2, b));
        lemma_single_bit(d2, b);
        assert(bits_within(d2, c2));
        lemma_single_le_highest(d2, c2);
        lemma_small_masks(c2, c2);
        lemma_small_masks(d2, c2);
        lemma_small_masks(c3, c3);
        lemma_encoded_le(d3, vt ^ d3, c3, highest_bit(c2));
    }
}

/// In five cards of two values, the set's value mask and the pair's make
/// up the value mask.
proof fn lemma_fh_pair(t: Seq<Card>, a: nat, b: nat)
    requires
        t.no_duplicates(),
        t.len() == 5,
        pop32(value_mask(t)) == 2,
        pop32(count_mask(t, 3)) == 1,
        pop32(count_mask(t, 2)) == 1,
        a < 32,
        b < 32,
        bit32(count_mask(t, 3), a),
        bit32(count_mask(t, 2), b),
    ensures
        value_mask(t) ^ count_mask(t, 3) == count_mask(t, 2),
{
    lemma_count_facts(t);
    let vt = value_mask(t);
    let d3 = count_mask(t, 3);
    assert(bits_within(d3, vt));
    lemma_xor_within(d3, vt);
    lemma_pop_xor_subset(d3, vt, 32);
    assert(bit32(vt ^ d3, b));
    lemma_single_same(vt ^ d3, count_mask(t, 2), b);
}

/// Without four of a kind or a full house among the cards, no five of them
/// make one.
proof fn lemma_no_full_house_in_part(cs: Seq<Card>, t: Seq<Card>)
    requires
        cs.no_duplicates(),
        5 <= cs.len() <= 7,
        five_among(t, cs),
        count_mask(cs, 4) == 0,
        !(count_mask(cs, 3) != 0 && pop32(count_mask(cs, 3)) == 2),
        !(count_mask(cs, 3) != 0 && count_mask(cs, 2) != 0),
    ensures
        pop32(value_mask(t)) != 2,
{
    lemma_best_facts(cs, t);
    lemma_five_shape(t);
    lemma_pop_zero(32);
    let c2 = count_mask(cs, 2);
    let c3 = count_mask(cs, 3);
    let d2 = count_mask(t, 2);
    let d3 = count_mask(t, 3);
    let d4 = count_mask(t, 4);
    if pop32(value_mask(t)) == 2 {
        if pop32(d4) == 1 {
            let a = lemma_some_bit(d4);
            assert(value_count(t, a) <= value_count(cs, a));
            assert(bit32(count_mask(cs, 4), a));
            lemma_bit32_ops(0, 0, 0, a as u32);
        } else {
            let a = lemma_some_bit(d3);
            let b = lemma_some_bit(d2);
            assert(value_count(t, a) <= value_count(cs, a));
            assert(value_count(t, b) <= value_count(cs, b));
            lemma_bit32_ops(0, 0, 0, a as u32);
            lemma_bit32_ops(0, 0, 0, b as u32);
            assert(value_count(cs, a) != 4);
            assert(value_count(cs, b) != 4);
            assert(bit32(c3, a));
            if value_count(cs, b) == 2 {
                assert(bit32(c2, b));
            } else {
                assert(bit32(c3, b));
                lemma_pop_ge2(c3, a, b, 32);
                lemma_count_mask_bits(cs, 3, 13, 0);
                lemma_pop_low13(c3, 32);
                assert(pop32(count_mask(cs, 1)) + 2 * pop32(c2) + 3 * pop32(c3) + 4 * pop32(
                    count_mask(cs, 4),
                ) == cs.len());
            }
        }
    }
}

/// With a straight among the cards, and no flush, four of a kind or full
/// house, no five of them rank higher.
proof fn lemma_best_with_straight(cs: Seq<Card>, t: Seq<Card>)
    requires
        cs.no_duplicates(),
        5 <= cs.len() <= 7,
        five_among(t, cs),
        flush_suit(suit_value_masks(cs)) is None,
        count_mask(cs, 4) == 0,
        !(count_mask(cs, 3) != 0 && pop32(count_mask(cs, 3)) == 2),
        !(count_mask(cs, 3) != 0 && count_mask(cs, 2) != 0),
        straight_rank(value_mask(cs)) is Some,
    ensures
        rank_le(rank_five_spec(t), rank_seven_spec(cs)),
{
    lemma_best_facts(cs, t);
    lemma_five_shape(t);
    lemma_no_flush_in_part(cs, t);
    lemma_no_full_house_in_part(cs, t);
    let vt = value_mask(t);
    if pop32(vt) == 5 && straight_rank(vt) is Some {
        lemma_within_le(vt, value_mask(cs));
        lemma_straight_monotone(vt, value_mask(cs));
    }
}

/// Without a flush or a straight among the cards, no five of them make one.
pub(crate) proof fn lemma_no_straight_in_part(cs: Seq<Card>, t: Seq<Card>)
    requires
        cs.no_duplicates(),
        5 <= cs.len() <= 7,
        five_among(t, cs),
        straight_rank(value_mask(cs)) is None,
    ensures
        straight_rank(value_mask(t)) is None,
{
    lemma_best_facts(cs, t);
    if straight_rank(value_mask(t)) is Some {
        lemma_within_le(value_mask(t), value_mask(cs));
        lemma_straight_monotone(value_mask(t), value_mask(cs));
    }
}

/// With a single set among the cards and no better hand, no five of them
/// rank higher.
proof fn lemma_best_with_set(cs: Seq<Card>, t: Seq<Card>)
    requires
        cs.no_duplicates(),
        5 <= cs.len() <= 7,
        five_among(t, cs),
        flush_suit(suit_value_masks(cs)) is None,
        count_mask(cs, 4) == 0,
        !(count_mask(cs, 3) != 0 && pop32(count_mask(cs, 3)) == 2),
        !(count_mask(cs, 3) != 0 && count_mask(cs, 2) != 0),
        straight_rank(value_mask(cs)) is None,
        count_mask(cs, 3) != 0,
    ensures
        rank_le(rank_five_spec(t), rank_seven_spec(cs)),
{
    lemma_best_facts(cs, t);
    lemma_five_shape(t);
    lemma_no_flush_in_part(cs, t);
    lemma_no_full_house_in_part(cs, t);
    lemma_no_straight_in_part(cs, t);
    lemma_pop_zero(32);
    let vs = value_mask(cs);
    let c3 = count_mask(cs, 3);
    let vt = value_mask(t);
    let d2 = count_mask(t, 2);
    let d3 = count_mask(t, 3);
    if pop32(c3) == 0 {
        lemma_pop_zero_is_zero(c3);
    }
    assert(pop32(c3) == 1);
    assert forall|v: nat| v < 32 && #[trigger] bit32(d2, v) implies bit32(c3, v) by {
        assert(value_count(t, v) <= value_count(cs, v));
        lemma_bit32_ops(0, 0, 0, v as u32);
        assert(!bit32(count_mask(cs, 2), v));
        assert(!bit32(count_mask(cs, 4), v));
    }
    lemma_pop_subset(d2, c3, 32);
    if pop32(vt) == 3 && pop32(d3) == 1 {
        let a = lemma_some_bit(d3);
        assert(value_count(t, a) <= value_count(cs, a));
        assert(value_count(cs, a) != 4) by {
            lemma_bit32_ops(0, 0, 0, a as u32);
        }
        assert(bit32(c3, a));
        lemma_single_same(d3, c3, a);
        lemma_single_bit(c3, a);
        assert(bits_within(d3, vt));
        lemma_xor_within(d3, vt);
        lemma_pop_xor_subset(d3, vt, 32);
        let x = vt ^ d3;
        assert(bits_within(c3, vs));
        lemma_xor_within(c3, vs);
        assert forall|v: nat| v < 32 && #[trigger] bit32(x, v) implies bit32(vs ^ c3, v) by {
            assert(value_count(t, v) <= value_count(cs, v));
        }
        lemma_keep_n_max(x, vs ^ c3, 2);
        lemma_keep_n_le(vs ^ c3, 2);
        lemma_within_le(vs ^ c3, vs);
        lemma_within_le(x, vt);
        lemma_encoded_le(d3, x, c3, keep_n_spec(vs ^ c3, 2));
    }
}

/// Without sets or quads among the cards, every value of five of them
/// that appears twice is a pair of the cards.
proof fn lemma_pairs_within(cs: Seq<Card>, t: Seq<Card>)
    requires
        cs.no_duplicates(),
        5 <= cs.len() <= 7,
        five_among(t, cs),
        count_mask(cs, 4) == 0,
        count_mask(cs, 3) == 0,
    ensures
        bits_within(count_mask(t, 2), count_mask(cs, 2)),
        count_mask(t, 3) == 0,
        count_mask(t, 4) == 0,
{
    lemma_best_facts(cs, t);
    lemma_five_shape(t);
    assert forall|v: nat| v < 32 && #[trigger] bit32(count_mask(t, 2), v) implies bit32(
        count_mask(cs, 2),
        v,
    ) by {
        assert(value_count(t, v) <= value_count(cs, v));
        lemma_bit32_ops(0, 0, 0, v as u32);
        assert(!bit32(count_mask(cs, 3), v));
        assert(!bit32(count_mask(cs, 4), v));
    }
    lemma_pop_zero(32);
    let d3 = count_mask(t, 3);
    let d4 = count_mask(t, 4);
    if d3 != 0 {
        let a = lemma_some_bit(d3);
        assert(value_count(t, a) <= value_count(cs, a));
        lemma_bit32_ops(0, 0, 0, a as u32);
        assert(!bit32(count_mask(cs, 3), a));
        assert(!bit32(count_mask(cs, 4), a));
    }
    if d4 != 0 {
        let a = lemma_some_bit(d4);
        assert(value_count(t, a) <= value_count(cs, a));
        lemma_bit32_ops(0, 0, 0, a as u32);
        assert(!bit32(count_mask(cs, 4), a));
    }
}

/// With two pairs among the cards and no better hand, no five of them rank
/// higher.
proof fn lemma_best_with_two_pair(cs: Seq<Card>, t: Seq<Card>)
    requires
        cs.no_duplicates(),
        5 <= cs.len() <= 7,
        five_among(t, cs),
        flush_suit(suit_value_masks(cs)) is None,
        count_mask(cs, 4) == 0,
        count_mask(cs, 3) == 0,
        straight_rank(value_mask(cs)) is None,
        pop32(count_mask(cs, 2)) >= 2,
    ensures
        rank_le(rank_five_spec(t), rank_seven_spec(cs)),
{
    lemma_best_facts(cs, t);
    lemma_five_shape(t);
    lemma_no_flush_in_part(cs, t);
    lemma_no_straight_in_part(cs, t);
    lemma_pairs_within(cs, t);
    lemma_pop_zero(32);
    let vs = value_mask(cs);
    let c2 = count_mask(cs, 2);
    let vt = value_mask(t);
    let d2 = count_mask(t, 2);
    if pop32(vt) == 3 && pop32(d2) == 2 {
        let pairs = keep_n_spec(c2, 2);
        lemma_keep_n_max(d2, c2, 2);
        lemma_keep_n_within(c2, 2);
        lemma_keep_n_le(c2, 2);
        assert(bits_within(d2, vt));
        lemma_xor_within(d2, vt);
        lemma_pop_xor_subset(d2, vt, 32);
        let x = vt ^ d2;
        lemma_within_le(x, vt);
        lemma_within_le(d2, vt);
        assert(bits_within(pairs, vs));
        lemma_xor_within(pairs, vs);
        lemma_within_le(vs ^ pairs, vs);
        if d2 == pairs {
            assert forall|v: nat| v < 32 && #[trigger] bit32(x, v) implies bit32(vs ^ pairs, v) by {
                assert(value_count(t, v) <= value_count(cs, v));
            }
            lemma_single_le_highest(x, vs ^ pairs);
            let b = lemma_some_bit(x);
            lemma_bit32_ops(0, 0, 0, b as u32);
            lemma_highest_le(vs ^ pairs);
            lemma_encoded_le(d2, x, pairs, highest_bit(vs ^ pairs));
        } else {
            crate::cards::rank_defined::lemma_rank_seven_defined(cs);
            lemma_highest_le(vs ^ pairs);
            lemma_encoded_le(d2, x, pairs, highest_bit(vs ^ pairs));
        }
    }
}

/// With a single pair among the cards and no better hand, no five of them
/// rank higher.
proof fn lemma_best_with_pair(cs: Seq<Card>, t: Seq<Card>)
    requires
        cs.no_duplicates(),
        5 <= cs.len() <= 7,
        five_among(t, cs),
        flush_suit(suit_value_masks(cs)) is None,
        count_mask(cs, 4) == 0,
        count_mask(cs, 3) == 0,
        straight_rank(value_mask(cs)) is None,
        pop32(count_mask(cs, 2)) < 2,
        count_mask(cs, 2) != 0,
    ensures
        rank_le(rank_five_spec(t), rank_seven_spec(cs)),
{
    lemma_best_facts(cs, t);
    lemma_five_shape(t);
    lemma_no_flush_in_part(cs, t);
    lemma_no_straight_in_part(cs, t);
    lemma_pairs_within(cs, t);
    lemma_pop_zero(32);
    let vs = value_mask(cs);
    let c2 = count_mask(cs, 2);
    let vt = value_mask(t);
    let d2 = count_mask(t, 2);
    lemma_pop_subset(d2, c2, 32);
    if pop32(vt) == 4 {
        let p = lemma_some_bit(d2);
        lemma_single_same(d2, c2, p);
        assert(bits_within(d2, vt));
        lemma_xor_within(d2, vt);
        lemma_pop_xor_subset(d2, vt, 32);
        let x = vt ^ d2;
        assert(bits_within(c2, vs));
        lemma_xor_within(c2, vs);
        assert forall|v: nat| v < 32 && #[trigger] bit32(x, v) implies bit32(vs ^ c2, v) by {
            assert(value_count(t, v) <= value_count(cs, v));
        }
        lemma_keep_n_max(x, vs ^ c2, 3);
        lemma_keep_n_le(vs ^ c2, 3);
        lemma_within_le(vs ^ c2, vs);
        lemma_within_le(x, vt);
        lemma_encoded_le(d2, x, c2, keep_n_spec(vs ^ c2, 3));
    }
}

/// With no pair among the cards and no better hand, no five of them rank
/// higher.
proof fn lemma_best_high_card(cs: Seq<Card>, t: Seq<Card>)
    requires
        cs.no_duplicates(),
        5 <= cs.len() <= 7,
        five_among(t, cs),
        flush_suit(suit_value_masks(cs)) is None,
        count_mask(cs, 4) == 0,
        count_mask(cs, 3) == 0,
        straight_rank(value_mask(cs)) is None,
        count_mask(cs, 2) == 0,
    ensures
        rank_le(rank_five_spec(t), rank_seven_spec(cs)),
{
    lemma_best_facts(cs, t);
    lemma_five_shape(t);
    lemma_no_flush_in_part(cs, t);
    lemma_no_straight_in_part(cs, t);
    lemma_pairs_within(cs, t);
    lemma_pop_zero(32);
    lemma_pop_subset(count_mask(t, 2), 0, 32);
    lemma_keep_n_max(value_mask(t), value_mask(cs), 5);
}

/// No five of at most seven distinct cards rank higher, as a five-card
/// hand, than the seven-card evaluation ranks all of them: the seven-card
/// evaluation is at least the best five-card hand among the cards.
pub proof fn lemma_rank_seven_is_best(cs: Seq<Card>, t: Seq<Card>)
    requires
        cs.no_duplicates(),
        5 <= cs.len() <= 7,
        t.no_duplicates(),
        t.len() == 5,
        forall|c: Card| t.contains(c) ==> cs.contains(c),
    ensures
        rank_le(rank_five_spec(t), rank_seven_spec(cs)),
{
    let c2 = count_mask(cs, 2);
    let c3 = count_mask(cs, 3);
    let c4 = count_mask(cs, 4);
    if flush_suit(suit_value_masks(cs)) is Some {
        lemma_best_with_flush(cs, t);
    } else if c4 != 0 {
        lemma_best_with_quads(cs, t);
    } else if c3 != 0 && pop32(c3) == 2 {
        lemma_best_with_two_sets(cs, t);
    } else if c3 != 0 && c2 != 0 {
        lemma_best_with_set_and_pair(cs, t);
    } else if straight_rank(value_mask(cs)) is Some {
        lemma_best_with_straight(cs, t);
    } else if c3 != 0 {
        lemma_best_with_set(cs, t);
    } else if pop32(c2) >= 2 {
        lemma_best_with_two_pair(cs, t);
    } else if c2 == 0 {
        lemma_best_high_card(cs, t);
    } else {
        lemma_best_with_pair(cs, t);
    }
}

} // verus!
