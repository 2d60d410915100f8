//! The category of a five-card hand (pair, flush, ...), found by counting
//! values in `vec_map` maps.

use vstd::prelude::*;
use vec_map::VecMap;
use crate::cards::card::{suit_index, value_index, value_of_index, Card, Value};
use crate::cards::rank::{count_ones32, pop32, suit_mask, value_count, value_mask};
use crate::cards::rank_agree::{lemma_bit32_ops, lemma_pop_ge2, lemma_pop_single};
use crate::cards::rank_defined::bit32;
use crate::hand::Hand;

verus! {

/// The category of a hand, from the weakest to the strongest.
#[derive(Debug, Clone, Copy, PartialEq, Eq, Structural, PartialOrd, Ord, Hash)]
pub enum Rank {
    /// No pair, straight or flush.
    HighCard,
    /// Two cards of one value.
    OnePair,
    /// Two pairs.
    TwoPair,
    /// Three cards of one value.
    ThreeOfAKind,
    /// Five values in a row.
    Straight,
    /// Five cards of one suit.
    Flush,
    /// Three of one value and two of another.
    FullHouse,
    /// Four cards of one value.
    FourOfAKind,
    /// A straight in one suit.
    StraightFlush,
}

/// The value masks of the ten straights, one bit per value index: the
/// wheel (ace to five) first, then two to six up to ten to ace.
pub const STRAIGHTS: [usize; 10] = [
    0x100F,
    0x001F,
    0x003E,
    0x007C,
    0x00F8,
    0x01F0,
    0x03E0,
    0x07C0,
    0x0F80,
    0x1F00,
];

/// The straight masks as a sequence.
pub open spec fn straights_spec() -> Seq<usize> {
    seq![0x100Fusize, 0x001F, 0x003E, 0x007C, 0x00F8, 0x01F0, 0x03E0, 0x07C0, 0x0F80, 0x1F00]
}

/// The position of the first straight from `i` on whose mask is exactly
/// `m`.
pub open spec fn straight_index_from(m: usize, i: int) -> Option<usize>
    decreases 10 - i,
{
    if i < 0 || i >= 10 {
        None
    } else if straights_spec()[i] == m {
        Some(i as usize)
    } else {
        straight_index_from(m, i + 1)
    }
}

/// Whether some value appears exactly three times among the cards.
pub open spec fn has_triple(cs: Seq<Card>) -> bool {
    exists|v: nat| v < 13 && #[trigger] value_count(cs, v) == 3
}

/// The category of the cards: five distinct values make a straight
/// flush, a straight, a flush or a high card; two make a full house or
/// four of a kind; three make three of a kind or two pair; four make
/// one pair.
pub open spec fn category_spec(cs: Seq<Card>) -> Rank {
    let vs = value_mask(cs);
    let u = pop32(vs);
    if u == 5 {
        let flush = pop32(suit_mask(cs)) == 1;
        match (straight_index_from(vs as usize, 0), flush) {
            (Some(_), true) => Rank::StraightFlush,
            (Some(_), false) => Rank::Straight,
            (None, true) => Rank::Flush,
            (None, false) => Rank::HighCard,
        }
    } else if u == 2 {
        if has_triple(cs) {
            Rank::FullHouse
        } else {
            Rank::FourOfAKind
        }
    } else if u == 3 {
        if has_triple(cs) {
            Rank::ThreeOfAKind
        } else {
            Rank::TwoPair
        }
    } else {
        Rank::OnePair
    }
}

/// A suit's bit is set in the suit mask exactly when some card has it.
proof fn lemma_suit_mask_bits(cs: Seq<Card>, s: nat)
    requires
        s < 32,
    ensures
        bit32(suit_mask(cs), s) == exists|i: int| 0 <= i < cs.len() && #[trigger] suit_index(cs[i].suit) == s,
    decreases cs.len(),
{
    if cs.len() == 0 {
        lemma_bit32_ops(0u32, 0u32, 0, s as u32);
    } else {
        let d = cs.drop_last();
        lemma_suit_mask_bits(d, s);
        let w = suit_index(cs.last().suit) as u32;
        lemma_bit32_ops(suit_mask(d), 1u32 << w, w, s as u32);
        if exists|i: int| 0 <= i < d.len() && #[trigger] suit_index(d[i].suit) == s {
            let i = choose|i: int| 0 <= i < d.len() && #[trigger] suit_index(d[i].suit) == s;
            assert(cs[i] == d[i]);
        }
        if exists|i: int| 0 <= i < cs.len() && #[trigger] suit_index(cs[i].suit) == s {
            let i = choose|i: int| 0 <= i < cs.len() && #[trigger] suit_index(cs[i].suit) == s;
            if i < cs.len() - 1 {
                assert(d[i] == cs[i]);
            }
        }
    }
}

/// A hand is a flush or a straight flush exactly when it holds five
/// different values and all its cards share one suit.
pub proof fn lemma_flush_iff_one_suit(cs: Seq<Card>)
    requires
        cs.len() > 0,
    ensures
        (category_spec(cs) == Rank::Flush || category_spec(cs) == Rank::StraightFlush) <==> (pop32(
            value_mask(cs),
        ) == 5 && forall|i: int, j: int|
            0 <= i < cs.len() && 0 <= j < cs.len() ==> #[trigger] cs[i].suit == #[trigger] cs[j].suit),
{
    let m = suit_mask(cs);
    let s0 = suit_index(cs[0].suit);
    lemma_suit_mask_bits(cs, s0);
    if forall|i: int, j: int|
        0 <= i < cs.len() && 0 <= j < cs.len() ==> #[trigger] cs[i].suit == #[trigger] cs[j].suit {
        assert forall|v: nat| v < 32 implies #[trigger] bit32(m, v) == (v == s0) by {
            lemma_suit_mask_bits(cs, v);
            if bit32(m, v) {
                let i = choose|i: int| 0 <= i < cs.len() && #[trigger] suit_index(cs[i].suit) == v;
                assert(cs[i].suit == cs[0].suit);
            }
        }
        lemma_pop_single(m, s0, 32);
    }
    if pop32(m) == 1 {
        assert forall|i: int, j: int| 0 <= i < cs.len() && 0 <= j < cs.len() implies #[trigger] cs[i].suit
            == #[trigger] cs[j].suit by {
            let a = suit_index(cs[i].suit);
            let b = suit_index(cs[j].suit);
            lemma_suit_mask_bits(cs, a);
            lemma_suit_mask_bits(cs, b);
            if a != b {
                lemma_pop_ge2(m, a, b, 32);
            }
        }
    }
}

/// The category is defined when the cards hold two to five distinct
/// values; any other count has no category.
pub open spec fn category_defined(cs: Seq<Card>) -> bool {
    2 <= pop32(value_mask(cs)) <= 5
}

#[verifier::external_type_specification]
#[verifier::external_body]
#[verifier::reject_recursive_types(V)]
pub struct ExVecMap<V>(VecMap<V>);

/// What a `VecMap<usize>` holds: its keys and their values.
pub uninterp spec fn count_entries(m: VecMap<usize>) -> Map<usize, usize>;

/// What a `VecMap<Vec<Value>>` holds: its keys and their lists.
pub uninterp spec fn value_lists(m: VecMap<Vec<Value>>) -> Map<usize, Seq<Value>>;

/// `VecMap::with_capacity`: the new map holds nothing.
#[verifier::external_body]
fn counts_with_capacity(capacity: usize) -> (r: VecMap<usize>)
    ensures
        forall|k: usize| !count_entries(r).dom().contains(k),
{
    VecMap::with_capacity(capacity)
}

/// `VecMap::get`: the key's value, copied out.
#[verifier::external_body]
fn counts_get(m: &VecMap<usize>, key: usize) -> (r: Option<usize>)
    ensures
        r == (if count_entries(*m).dom().contains(key) {
            Some(count_entries(*m)[key])
        } else {
            None
        }),
{
    m.get(key).copied()
}

/// `VecMap::insert`: the key now has the value; the other keys keep
/// theirs. The key is below `usize::MAX`, where the map's growth would
/// overflow.
#[verifier::external_body]
fn counts_insert(m: &mut VecMap<usize>, key: usize, value: usize)
    requires
        key < usize::MAX,
    ensures
        count_entries(*final(m)) == count_entries(*old(m)).insert(key, value),
{
    m.insert(key, value);
}

/// `VecMap`'s `into_iter`, collected: every key with its value, in
/// increasing key order.
#[verifier::external_body]
fn counts_entries(m: VecMap<usize>) -> (r: Vec<(usize, usize)>)
    ensures
        forall|j: int|
            0 <= j < r.len() ==> count_entries(m).dom().contains(#[trigger] r@[j].0)
                && count_entries(m)[r@[j].0] == r@[j].1,
        forall|k: usize|
            count_entries(m).dom().contains(k) ==> exists|j: int|
                0 <= j < r.len() && #[trigger] r@[j].0 == k,
        forall|i: int, j: int| 0 <= i < j < r.len() ==> r@[i].0 < r@[j].0,
{
    m.into_iter().collect()
}

/// `VecMap::with_capacity`: the new map holds nothing.
#[verifier::external_body]
fn lists_with_capacity(capacity: usize) -> (r: VecMap<Vec<Value>>)
    ensures
        forall|k: usize| !value_lists(r).dom().contains(k),
{
    VecMap::with_capacity(capacity)
}

/// `VecMap::contains_key`: whether the key has a list.
#[verifier::external_body]
fn lists_contains_key(m: &VecMap<Vec<Value>>, key: usize) -> (r: bool)
    ensures
        r == value_lists(*m).dom().contains(key),
{
    m.contains_key(key)
}

/// `VecMap::remove`: takes the key's list out, if it has one.
#[verifier::external_body]
fn lists_remove(m: &mut VecMap<Vec<Value>>, key: usize) -> (r: Option<Vec<Value>>)
    ensures
        value_lists(*final(m)) == value_lists(*old(m)).remove(key),
        value_lists(*old(m)).dom().contains(key) ==> (r matches Some(v) && v@ == value_lists(
            *old(m),
        )[key]),
        !value_lists(*old(m)).dom().contains(key) ==> r is None,
{
    m.remove(key)
}

/// `VecMap::insert`: the key now has the list; the other keys keep
/// theirs. The key is below `usize::MAX`, where the map's growth would
/// overflow.
#[verifier::external_body]
fn lists_insert(m: &mut VecMap<Vec<Value>>, key: usize, value: Vec<Value>)
    requires
        key < usize::MAX,
    ensures
        value_lists(*final(m)) == value_lists(*old(m)).insert(key, value@),
{
    m.insert(key, value);
}

/// Ranking of hands by category.
pub trait Rankable {
    /// The cards being ranked.
    spec fn rank_cards(&self) -> Seq<Card>;

    /// The category of the cards; see `category_spec`. (No vector holds
    /// `usize::MAX` cards.)
    fn rank(&self) -> (r: Rank)
        requires
            category_defined(self.rank_cards()),
            self.rank_cards().len() < usize::MAX,
        ensures
            r == category_spec(self.rank_cards()),
    ;

    /// The position in `STRAIGHTS` of the straight whose mask is exactly
    /// `hand_rank`, if there is one.
    fn rank_straight(&self, hand_rank: usize) -> (r: Option<usize>)
        ensures
            r == straight_index_from(hand_rank, 0),
    {
        let mut i: usize = 0;
        while i < 10
            invariant
                i <= 10,
                straight_index_from(hand_rank, 0) == straight_index_from(hand_rank, i as int),
            decreases 10 - i,
        {
            if STRAIGHTS[i] == hand_rank {
                return Some(i);
            }
            i = i + 1;
        }
        None
    }
}

/// The cards' value mask grows by the next card's value bit, and its
/// suit mask by the next card's suit bit.
proof fn lemma_masks_step(cs: Seq<Card>, i: int)
    requires
        0 <= i < cs.len(),
    ensures
        value_mask(cs.take(i + 1)) == value_mask(cs.take(i)) | (1u32 << (value_index(
            cs[i].value,
        ) as u32)),
        suit_mask(cs.take(i + 1)) == suit_mask(cs.take(i)) | (1u32 << (suit_index(cs[i].suit) as u32)),
        forall|v: nat| #[trigger]
            value_count(cs.take(i + 1), v) == value_count(cs.take(i), v) + (if value_index(
                cs[i].value,
            ) == v {
                1nat
            } else {
                0nat
            }),
{
    assert(cs.take(i + 1).drop_last() =~= cs.take(i));
}

/// A value appears among the cards exactly when its bit is in the value
/// mask.
proof fn lemma_count_positive(cs: Seq<Card>, v: nat)
    requires
        v < 13,
    ensures
        (value_count(cs, v) > 0) == (value_mask(cs) & (1u32 << (v as u32)) != 0),
        value_mask(cs) < 0x2000,
    decreases cs.len(),
{
    if cs.len() > 0 {
        lemma_count_positive(cs.drop_last(), v);
        let m = value_mask(cs.drop_last());
        let w = value_index(cs.last().value) as u32;
        let vv = v as u32;
        assert(w < 13);
        assert((m | (1u32 << w)) & (1u32 << vv) != 0 <==> (m & (1u32 << vv) != 0 || w == vv))
            by (bit_vector)
            requires
                w < 13,
                vv < 13,
        ;
        assert(m < 0x2000 ==> (m | (1u32 << w)) < 0x2000) by (bit_vector)
            requires
                w < 13,
        ;
    } else {
        assert(0u32 & (1u32 << (v as u32)) == 0) by (bit_vector);
    }
}

impl Rankable for Hand {
    open spec fn rank_cards(&self) -> Seq<Card> {
        self@
    }

    fn rank(&self) -> (r: Rank) {
        let cards = self.cards();
        let ghost cs = cards@;
        let mut suit_set: u32 = 0;
        let mut value_set: u32 = 0;
        let mut value_to_count = counts_with_capacity(13);
        let mut i: usize = 0;
        while i < cards.len()
            invariant
                i <= cards.len(),
                cs == cards@,
                value_set == value_mask(cs.take(i as int)),
                suit_set == suit_mask(cs.take(i as int)),
                forall|v: usize|
                    #![trigger count_entries(value_to_count).dom().contains(v)]
                    count_entries(value_to_count).dom().contains(v) <==> (v < 13 && value_count(
                        cs.take(i as int),
                        v as nat,
                    ) > 0),
                forall|v: usize|
                    #![trigger count_entries(value_to_count)[v]]
                    count_entries(value_to_count).dom().contains(v) ==> count_entries(
                        value_to_count,
                    )[v] == value_count(cs.take(i as int), v as nat),
                forall|v: nat| value_count(cs.take(i as int), v) <= i,
            decreases cards.len() - i,
        {
            let c = cards[i];
            let v = c.value.to_u8();
            let s = c.suit.to_u8();
            proof {
                lemma_masks_step(cs, i as int);
            }
            suit_set = suit_set | (1u32 << s);
            value_set = value_set | (1u32 << v);
            let vk = v as usize;
            match counts_get(&value_to_count, vk) {
                Some(n) => {
                    counts_insert(&mut value_to_count, vk, n + 1);
                },
                None => {
                    counts_insert(&mut value_to_count, vk, 1);
                },
            }
            i = i + 1;
        }
        proof {
            assert(cs.take(cards.len() as int) =~= cs);
        }
        let ghost counts = count_entries(value_to_count);
        let entries = counts_entries(value_to_count);
        proof {
            assert forall|t: int| 0 <= t < entries.len() implies #[trigger] entries@[t].1
                <= cards.len() && entries@[t].0 < 13 by {
                let k = entries@[t].0;
                assert(counts.dom().contains(k));
                assert(counts[k] == value_count(cs, k as nat));
            }
        }
        let mut count_to_value = lists_with_capacity(13);
        let mut j: usize = 0;
        while j < entries.len()
            invariant
                j <= entries.len(),
                forall|c: usize|
                    #![trigger value_lists(count_to_value).dom().contains(c)]
                    value_lists(count_to_value).dom().contains(c) <==> exists|t: int|
                        0 <= t < j && #[trigger] entries@[t].1 == c,
                forall|t: int| 0 <= t < entries.len() ==> #[trigger] entries@[t].1
                    <= cards.len() && entries@[t].0 < 13,
                cards.len() < usize::MAX,
            decreases entries.len() - j,
        {
            let (value, count) = entries[j];
            let ghost before = value_lists(count_to_value);
            if lists_contains_key(&count_to_value, count) {
                match lists_remove(&mut count_to_value, count) {
                    Some(mut list) => {
                        list.push(Value::from_u8(value as u8));
                        lists_insert(&mut count_to_value, count, list);
                    },
                    None => {},
                }
            } else {
                lists_insert(&mut count_to_value, count, vec![Value::from_u8(value as u8)]);
            }
            proof {
                assert forall|c: usize|
                    value_lists(count_to_value).dom().contains(c) <==> exists|t: int|
                        0 <= t < j + 1 && #[trigger] entries@[t].1 == c by {
                    if c == count {
                        assert(entries@[j as int].1 == c);
                    }
                    if exists|t: int| 0 <= t < j + 1 && #[trigger] entries@[t].1 == c {
                        let t = choose|t: int| 0 <= t < j + 1 && #[trigger] entries@[t].1 == c;
                        if t < j {
                            assert(before.dom().contains(c));
                        }
                    }
                }
            }
            j = j + 1;
        }
        let unique_card_count = count_ones32(value_set);
        let has_three = lists_contains_key(&count_to_value, 3);
        proof {
            if has_three {
                let t = choose|t: int| 0 <= t < entries.len() && #[trigger] entries@[t].1 == 3;
                let v = entries@[t].0;
                assert(counts.dom().contains(v));
                assert(value_count(cs, v as nat) == 3);
                assert(has_triple(cs));
            }
            if has_triple(cs) {
                let v = choose|v: nat| v < 13 && #[trigger] value_count(cs, v) == 3;
                assert(counts.dom().contains(v as usize));
                let t = choose|t: int| 0 <= t < entries.len() && #[trigger] entries@[t].0 == v as usize;
                assert(entries@[t].1 == 3);
            }
        }
        if unique_card_count == 5 {
            let suit_count = count_ones32(suit_set);
            let is_flush = suit_count == 1;
            match (self.rank_straight(value_set as usize), is_flush) {
                (Some(_), true) => Rank::StraightFlush,
                (Some(_), false) => Rank::Straight,
                (None, true) => Rank::Flush,
                (None, false) => Rank::HighCard,
            }
        } else if unique_card_count == 2 {
            if has_three {
                Rank::FullHouse
            } else {
                Rank::FourOfAKind
            }
        } else if unique_card_count == 3 {
            if has_three {
                Rank::ThreeOfAKind
            } else {
                Rank::TwoPair
            }
        } else {
            Rank::OnePair
        }
    }
}

} // verus!
