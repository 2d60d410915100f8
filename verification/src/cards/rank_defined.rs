//! Ranking never fails on real hands: five distinct cards can always be
//! ranked as a five-card hand, and five to seven distinct cards as a
//! seven-card hand.

use vstd::prelude::*;
use crate::cards::card::{suit_index, value_index, Card, Suit, Value};
use crate::cards::rank::{
    count_mask, count_mask_upto, keep_n_spec, lemma_clear_lowest_decreases, lemma_pop_zero,
    pop32, pop_low, rank_five_defined, rank_seven_defined, value_count, value_mask,
};

verus! {

/// Whether bit `v` of `x` is set.
pub open spec fn bit32(x: u32, v: nat) -> bool {
    (x >> (v as u32)) & 1u32 == 1u32
}

/// How many cards have a value index below `m`.
pub open spec fn total_below(cs: Seq<Card>, m: nat) -> nat
    decreases m,
{
    if m == 0 {
        0
    } else {
        total_below(cs, (m - 1) as nat) + value_count(cs, (m - 1) as nat)
    }
}

/// The suits of the cards of value index `v`.
pub open spec fn suits_of_value(cs: Seq<Card>, v: nat) -> Set<Suit>
    decreases cs.len(),
{
    if cs.len() == 0 {
        Set::empty()
    } else if value_index(cs.last().value) == v {
        suits_of_value(cs.drop_last(), v).insert(cs.last().suit)
    } else {
        suits_of_value(cs.drop_last(), v)
    }
}

/// Distinct cards of one value have distinct suits, so there are at most
/// four of them.
proof fn lemma_count_at_most_four(cs: Seq<Card>, v: nat)
    requires
        cs.no_duplicates(),
    ensures
        value_count(cs, v) == suits_of_value(cs, v).len(),
        suits_of_value(cs, v).finite(),
        value_count(cs, v) <= 4,
    decreases cs.len(),
{
    let all = Set::<Suit>::empty().insert(Suit::Spade).insert(Suit::Club).insert(Suit::Heart).insert(
        Suit::Diamond,
    );
    if cs.len() > 0 {
        let dl = cs.drop_last();
        assert(dl.no_duplicates()) by {
            assert forall|i: int, j: int| 0 <= i < j < dl.len() implies dl[i] != dl[j] by {
                assert(dl[i] == cs[i] && dl[j] == cs[j]);
            }
        }
        lemma_count_at_most_four(dl, v);
        if value_index(cs.last().value) == v {
            if suits_of_value(dl, v).contains(cs.last().suit) {
                lemma_suit_from_card(dl, v, cs.last().suit);
                let i = choose|i: int|
                    0 <= i < dl.len() && value_index(dl[i].value) == v && dl[i].suit
                        == cs.last().suit;
                assert(value_index(dl[i].value) == value_index(cs.last().value));
                assert(dl[i].value == cs.last().value);
                assert(cs[i] == cs[cs.len() - 1]);
                assert(false);
            }
        }
    }
    assert(suits_of_value(cs, v).subset_of(all)) by {
        lemma_suits_subset(cs, v, all);
    }
    vstd::set_lib::lemma_len_subset(suits_of_value(cs, v), all);
}

/// Every suit of a card of value `v` comes from such a card.
proof fn lemma_suit_from_card(cs: Seq<Card>, v: nat, s: Suit)
    requires
        suits_of_value(cs, v).contains(s),
    ensures
        exists|i: int| 0 <= i < cs.len() && value_index(cs[i].value) == v && cs[i].suit == s,
    decreases cs.len(),
{
    if cs.len() > 0 {
        let dl = cs.drop_last();
        if value_index(cs.last().value) == v && cs.last().suit == s {
            assert(cs[cs.len() - 1].suit == s);
        } else {
            lemma_suit_from_card(dl, v, s);
            let i = choose|i: int| 0 <= i < dl.len() && value_index(dl[i].value) == v && dl[i].suit == s;
            assert(cs[i] == dl[i]);
        }
    }
}

/// The suits of a value are among the four suits.
proof fn lemma_suits_subset(cs: Seq<Card>, v: nat, all: Set<Suit>)
    requires
        forall|s: Suit| all.contains(s),
    ensures
        suits_of_value(cs, v).subset_of(all),
        suits_of_value(cs, v).finite(),
    decreases cs.len(),
{
    if cs.len() > 0 {
        lemma_suits_subset(cs.drop_last(), v, all);
    }
}

/// Counting the cards value by value gives all of them.
proof fn lemma_total(cs: Seq<Card>, m: nat)
    ensures
        total_below(cs, m) == (if cs.len() == 0 {
            0
        } else {
            total_below(cs.drop_last(), m) + (if value_index(cs.last().value) < m {
                1nat
            } else {
                0nat
            })
        }),
    decreases m,
{
    if m > 0 {
        lemma_total(cs, (m - 1) as nat);
    }
}

/// There are as many cards as the counts of the thirteen values add up
/// to.
pub(crate) proof fn lemma_total_is_len(cs: Seq<Card>)
    ensures
        total_below(cs, 13) == cs.len(),
    decreases cs.len(),
{
    lemma_total(cs, 13);
    if cs.len() > 0 {
        lemma_total_is_len(cs.drop_last());
    } else {
        lemma_total_zero(cs, 13);
    }
}

/// No cards, no count.
proof fn lemma_total_zero(cs: Seq<Card>, m: nat)
    requires
        cs.len() == 0,
    ensures
        total_below(cs, m) == 0,
    decreases m,
{
    if m > 0 {
        lemma_total_zero(cs, (m - 1) as nat);
    }
}

/// A value's bit is in the value mask exactly when a card has that value;
/// the mask has no bit from 13 up.
pub(crate) proof fn lemma_value_mask_bits(cs: Seq<Card>, v: nat)
    requires
        v < 32,
    ensures
        bit32(value_mask(cs), v) == (v < 13 && value_count(cs, v) > 0),
        value_mask(cs) < 0x2000,
    decreases cs.len(),
{
    if cs.len() > 0 {
        lemma_value_mask_bits(cs.drop_last(), v);
        let m = value_mask(cs.drop_last());
        let w = value_index(cs.last().value) as u32;
        let vv = v as u32;
        assert(w < 13);
        assert(((m | (1u32 << w)) >> vv) & 1u32 == 1u32 <==> ((m >> vv) & 1u32 == 1u32 || w == vv))
            by (bit_vector)
            requires
                w < 13,
                vv < 32,
        ;
        assert(m < 0x2000 ==> (m | (1u32 << w)) < 0x2000) by (bit_vector)
            requires
                w < 13,
        ;
    } else {
        let vv = v as u32;
        assert((0u32 >> vv) & 1u32 == 0u32) by (bit_vector);
    }
}

/// A value's bit is in the count mask for `k` exactly when the value
/// appears `k` times.
pub(crate) proof fn lemma_count_mask_bits(cs: Seq<Card>, k: nat, m: nat, v: nat)
    requires
        v < 32,
        m <= 13,
    ensures
        bit32(count_mask_upto(cs, k, m), v) == (v < m && value_count(cs, v) == k),
        count_mask_upto(cs, k, m) < 0x2000,
    decreases m,
{
    let vv = v as u32;
    if m > 0 {
        lemma_count_mask_bits(cs, k, (m - 1) as nat, v);
        let p = count_mask_upto(cs, k, (m - 1) as nat);
        let j = (m - 1) as u32;
        assert(((p | (1u32 << j)) >> vv) & 1u32 == 1u32 <==> ((p >> vv) & 1u32 == 1u32 || j == vv))
            by (bit_vector)
            requires
                j < 13,
                vv < 32,
        ;
        assert((p | 0u32) == p) by (bit_vector);
        assert(p < 0x2000 ==> (p | (1u32 << j)) < 0x2000) by (bit_vector)
            requires
                j < 13,
        ;
    } else {
        assert((0u32 >> vv) & 1u32 == 0u32) by (bit_vector);
    }
}

/// A mask below bit 13 has all its set bits among the low 13.
pub(crate) proof fn lemma_pop_low13(x: u32, i: nat)
    requires
        x < 0x2000,
        13 <= i <= 32,
    ensures
        pop_low(x, i) == pop_low(x, 13),
    decreases i,
{
    if i > 13 {
        lemma_pop_low13(x, (i - 1) as nat);
        let j = (i - 1) as u32;
        assert((x >> j) & 1u32 == 0u32) by (bit_vector)
            requires
                x < 0x2000,
                13 <= j < 32,
        ;
    }
}

/// If each value below `m` appears between `lo` and `hi` times when its
/// bit is in `mask`, and never otherwise, then the cards below `m` number
/// between `lo` and `hi` times the bits of `mask` below `m`.
proof fn lemma_total_bounds(cs: Seq<Card>, mask: u32, m: nat, lo: nat, hi: nat)
    requires
        m <= 32,
        forall|v: nat|
            v < m ==> (#[trigger] bit32(mask, v) ==> lo <= value_count(cs, v) <= hi),
        forall|v: nat| v < m ==> (!#[trigger] bit32(mask, v) ==> value_count(cs, v) == 0),
    ensures
        lo * pop_low(mask, m) <= total_below(cs, m) <= hi * pop_low(mask, m),
    decreases m,
{
    if m > 0 {
        let j = (m - 1) as nat;
        lemma_total_bounds(cs, mask, j, lo, hi);
        assert(total_below(cs, m) == total_below(cs, j) + value_count(cs, j));
        if bit32(mask, j) {
            assert(pop_low(mask, m) == pop_low(mask, j) + 1);
            assert(lo <= value_count(cs, j) <= hi);
            assert(lo * pop_low(mask, m) == lo * pop_low(mask, j) + lo) by (nonlinear_arith)
                requires
                    pop_low(mask, m) == pop_low(mask, j) + 1,
            ;
            assert(hi * pop_low(mask, m) == hi * pop_low(mask, j) + hi) by (nonlinear_arith)
                requires
                    pop_low(mask, m) == pop_low(mask, j) + 1,
            ;
        } else {
            assert(pop_low(mask, m) == pop_low(mask, j));
            assert(value_count(cs, j) == 0);
        }
    } else {
        assert(lo * pop_low(mask, m) == 0) by (nonlinear_arith)
            requires
                pop_low(mask, m) == 0,
        ;
        assert(hi * pop_low(mask, m) == 0) by (nonlinear_arith)
            requires
                pop_low(mask, m) == 0,
        ;
    }
}

/// Keeping at most `n` bits leaves at most `n` bits.
pub(crate) proof fn lemma_keep_n_pop(m: u32, n: u32)
    ensures
        pop32(keep_n_spec(m, n)) <= n,
    decreases m,
{
    if m == 0 {
        lemma_pop_zero(32);
    } else if pop32(m) > n {
        lemma_clear_lowest_decreases(m);
        lemma_keep_n_pop(m & ((m - 1) as u32), n);
    }
}

/// Every value of five to seven distinct cards appears at most four
/// times, and their count masks and value mask relate to the counts.
pub(crate) proof fn lemma_count_facts(cs: Seq<Card>)
    requires
        cs.no_duplicates(),
    ensures
        forall|v: nat| v < 13 ==> #[trigger] value_count(cs, v) <= 4,
        forall|v: nat| 13 <= v ==> #[trigger] value_count(cs, v) == 0,
        forall|v: nat|
            v < 32 ==> #[trigger] bit32(value_mask(cs), v) == (v < 13 && value_count(cs, v) > 0),
        forall|v: nat, k: nat|
            v < 32 ==> #[trigger] bit32(count_mask(cs, k), v) == (v < 13 && value_count(cs, v)
                == k),
        value_mask(cs) < 0x2000,
        total_below(cs, 13) == cs.len(),
{
    assert forall|v: nat| v < 13 implies #[trigger] value_count(cs, v) <= 4 by {
        lemma_count_at_most_four(cs, v);
    }
    assert forall|v: nat| 13 <= v implies #[trigger] value_count(cs, v) == 0 by {
        lemma_count_high(cs, v);
    }
    assert forall|v: nat| v < 32 implies #[trigger] bit32(value_mask(cs), v) == (v < 13
        && value_count(cs, v) > 0) by {
        lemma_value_mask_bits(cs, v);
    }
    assert forall|v: nat, k: nat| v < 32 implies #[trigger] bit32(count_mask(cs, k), v) == (v < 13
        && value_count(cs, v) == k) by {
        lemma_count_mask_bits(cs, k, 13, v);
    }
    lemma_value_mask_bits(cs, 0);
    lemma_total_is_len(cs);
}

/// No card has a value index of 13 or more.
proof fn lemma_count_high(cs: Seq<Card>, v: nat)
    requires
        13 <= v,
    ensures
        value_count(cs, v) == 0,
    decreases cs.len(),
{
    if cs.len() > 0 {
        lemma_count_high(cs.drop_last(), v);
    }
}

/// Five to seven distinct cards can always be ranked as a seven-card
/// hand: no value appears more than four times, four of a kind always
/// leaves a kicker, and two pair always leaves a fifth card.
pub proof fn lemma_rank_seven_defined(cs: Seq<Card>)
    requires
        cs.no_duplicates(),
        5 <= cs.len() <= 7,
    ensures
        rank_seven_defined(cs),
{
    lemma_count_facts(cs);
    let vs = value_mask(cs);
    let c2 = count_mask(cs, 2);
    let c3 = count_mask(cs, 3);
    let c4 = count_mask(cs, 4);
    lemma_count_mask_bits(cs, 2, 13, 0);
    lemma_count_mask_bits(cs, 3, 13, 0);
    lemma_count_mask_bits(cs, 4, 13, 0);
    if c4 != 0 && (vs ^ c4) == 0 {
        assert(vs == c4) by (bit_vector)
            requires
                (vs ^ c4) == 0,
        ;
        assert forall|v: nat| v < 13 && #[trigger] bit32(vs, v) implies 4 <= value_count(cs, v)
            <= 4 by {
            assert(bit32(c4, v) == (value_count(cs, v) == 4));
        }
        lemma_total_bounds(cs, vs, 13, 4, 4);
        assert(false) by (nonlinear_arith)
            requires
                4 * pop_low(vs, 13) == cs.len(),
                5 <= cs.len() <= 7,
        ;
    }
    if c4 == 0 && c3 == 0 && pop32(c2) >= 2 && (vs ^ keep_n_spec(c2, 2)) == 0 {
        let kk = keep_n_spec(c2, 2);
        assert(vs == kk) by (bit_vector)
            requires
                (vs ^ kk) == 0,
        ;
        lemma_keep_n_pop(c2, 2);
        lemma_pop_low13(vs, 32);
        assert forall|v: nat| v < 13 && #[trigger] bit32(vs, v) implies 1 <= value_count(cs, v)
            <= 2 by {
            assert(bit32(c3, v) == (value_count(cs, v) == 3));
            assert(bit32(c4, v) == (value_count(cs, v) == 4));
            if value_count(cs, v) == 3 {
                assert(bit32(c3, v));
                let vv = v as u32;
                assert(((0u32 >> vv) & 1u32) == 0u32) by (bit_vector);
            }
            if value_count(cs, v) == 4 {
                assert(bit32(c4, v));
                let vv = v as u32;
                assert(((0u32 >> vv) & 1u32) == 0u32) by (bit_vector);
            }
        }
        lemma_total_bounds(cs, vs, 13, 1, 2);
    }
}

/// Five distinct cards can always be ranked as a five-card hand: no value
/// appears more than four times, and there are two to five values.
pub proof fn lemma_rank_five_defined(cs: Seq<Card>)
    requires
        cs.no_duplicates(),
        cs.len() == 5,
    ensures
        rank_five_defined(cs),
{
    lemma_count_facts(cs);
    let vs = value_mask(cs);
    lemma_pop_low13(vs, 32);
    assert forall|v: nat| v < 13 && #[trigger] bit32(vs, v) implies 1 <= value_count(cs, v)
        <= 4 by {}
    lemma_total_bounds(cs, vs, 13, 1, 4);
}

} // verus!
