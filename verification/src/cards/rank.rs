use vstd::prelude::*;
use vstd::std_specs::bits::{u32_leading_zeros, axiom_u32_leading_zeros};
use crate::cards::card::{suit_index, value_index, Card};
use crate::cards::hand::Hand;

verus! {

/// The rank of a poker hand: its category, and within the category a
/// number that orders hands of that category (higher is stronger).
/// Categories are declared from the weakest to the strongest.
#[derive(Debug, Clone, Copy, PartialEq, Eq, Structural, PartialOrd, Ord, Hash)]
pub enum Rank {
    /// No matching values.
    HighCard(u32),
    /// One pair of matching values.
    OnePair(u32),
    /// Two different pairs.
    TwoPair(u32),
    /// Three cards of one value.
    ThreeOfAKind(u32),
    /// Five values in a sequence.
    Straight(u32),
    /// Five cards of one suit.
    Flush(u32),
    /// Three of one value and two of another.
    FullHouse(u32),
    /// Four cards of one value.
    FourOfAKind(u32),
    /// Five cards in a sequence, all of one suit.
    StraightFlush(u32),
}

/// The wheel: Ace, Two, Three, Four, Five.
pub const STRAIGHT0: u32 = 0x100F;
/// Two to Six.
pub const STRAIGHT1: u32 = 0x001F;
/// Three to Seven.
pub const STRAIGHT2: u32 = 0x003E;
/// Four to Eight.
pub const STRAIGHT3: u32 = 0x007C;
/// Five to Nine.
pub const STRAIGHT4: u32 = 0x00F8;
/// Six to Ten.
pub const STRAIGHT5: u32 = 0x01F0;
/// Seven to Jack.
pub const STRAIGHT6: u32 = 0x03E0;
/// Eight to Queen.
pub const STRAIGHT7: u32 = 0x07C0;
/// Nine to King.
pub const STRAIGHT8: u32 = 0x0F80;
/// Ten to Ace.
pub const STRAIGHT9: u32 = 0x1F00;

/// The number of set bits among the low `i` bits of `x`.
pub open spec fn pop_low(x: u32, i: nat) -> nat
    decreases i,
{
    if i == 0 {
        0
    } else {
        pop_low(x, (i - 1) as nat) + (if (x >> ((i - 1) as u32)) & 1u32 == 1u32 {
            1nat
        } else {
            0nat
        })
    }
}

/// The number of set bits of `x`.
pub open spec fn pop32(x: u32) -> nat {
    pop_low(x, 32)
}

/// The number of set bits of `x`.
pub fn count_ones32(x: u32) -> (r: u32)
    ensures
        r == pop32(x),
        r <= 32,
{
    let mut c: u32 = 0;
    let mut i: u32 = 0;
    while i < 32
        invariant
            i <= 32,
            c == pop_low(x, i as nat),
            c <= i,
        decreases 32 - i,
    {
        if (x >> i) & 1u32 == 1u32 {
            c = c + 1;
        }
        i = i + 1;
    }
    c
}

/// The mask of the values of the cards, one bit per value index.
pub open spec fn value_mask(cs: Seq<Card>) -> u32
    decreases cs.len(),
{
    if cs.len() == 0 {
        0
    } else {
        value_mask(cs.drop_last()) | (1u32 << (value_index(cs.last().value) as u32))
    }
}

/// The mask of the suits of the cards, one bit per suit index.
pub open spec fn suit_mask(cs: Seq<Card>) -> u32
    decreases cs.len(),
{
    if cs.len() == 0 {
        0
    } else {
        suit_mask(cs.drop_last()) | (1u32 << (suit_index(cs.last().suit) as u32))
    }
}

/// The mask of the values of the cards of suit index `s`.
pub open spec fn suit_value_mask(cs: Seq<Card>, s: nat) -> u32
    decreases cs.len(),
{
    if cs.len() == 0 {
        0
    } else if suit_index(cs.last().suit) == s {
        suit_value_mask(cs.drop_last(), s) | (1u32 << (value_index(cs.last().value) as u32))
    } else {
        suit_value_mask(cs.drop_last(), s)
    }
}

/// How many of the cards have value index `v`.
pub open spec fn value_count(cs: Seq<Card>, v: nat) -> nat
    decreases cs.len(),
{
    if cs.len() == 0 {
        0
    } else {
        value_count(cs.drop_last(), v) + (if value_index(cs.last().value) == v {
            1nat
        } else {
            0nat
        })
    }
}

/// The mask of the value indexes below `m` that appear exactly `k` times.
pub open spec fn count_mask_upto(cs: Seq<Card>, k: nat, m: nat) -> u32
    decreases m,
{
    if m == 0 {
        0
    } else {
        count_mask_upto(cs, k, (m - 1) as nat) | (if value_count(cs, (m - 1) as nat) == k {
            1u32 << ((m - 1) as u32)
        } else {
            0u32
        })
    }
}

/// The mask of the values that appear exactly `k` times.
pub open spec fn count_mask(cs: Seq<Card>, k: nat) -> u32 {
    count_mask_upto(cs, k, 13)
}

/// The highest straight in a value mask: 9 for Ten to Ace down to 0 for
/// the wheel; `None` when the mask holds no straight.
pub open spec fn straight_rank(m: u32) -> Option<u32> {
    if m & STRAIGHT9 == STRAIGHT9 {
        Some(9)
    } else if m & STRAIGHT8 == STRAIGHT8 {
        Some(8)
    } else if m & STRAIGHT7 == STRAIGHT7 {
        Some(7)
    } else if m & STRAIGHT6 == STRAIGHT6 {
        Some(6)
    } else if m & STRAIGHT5 == STRAIGHT5 {
        Some(5)
    } else if m & STRAIGHT4 == STRAIGHT4 {
        Some(4)
    } else if m & STRAIGHT3 == STRAIGHT3 {
        Some(3)
    } else if m & STRAIGHT2 == STRAIGHT2 {
        Some(2)
    } else if m & STRAIGHT1 == STRAIGHT1 {
        Some(1)
    } else if m & STRAIGHT0 == STRAIGHT0 {
        Some(0)
    } else {
        None
    }
}

/// The most significant set bit of a non-zero mask.
pub open spec fn highest_bit(m: u32) -> u32 {
    1u32 << ((31 - u32_leading_zeros(m)) as u32)
}

/// The mask with its lowest set bits cleared until at most `n` remain.
pub open spec fn keep_n_spec(m: u32, n: u32) -> u32
    decreases m,
{
    if m == 0 || pop32(m) <= n {
        m
    } else {
        proof {
            lemma_clear_lowest_decreases(m);
        }
        keep_n_spec(m & ((m - 1) as u32), n)
    }
}

/// The first suit index whose value mask has at least five values.
pub open spec fn flush_suit(sv: Seq<u32>) -> Option<usize> {
    if pop32(sv[0]) >= 5 {
        Some(0)
    } else if pop32(sv[1]) >= 5 {
        Some(1)
    } else if pop32(sv[2]) >= 5 {
        Some(2)
    } else if pop32(sv[3]) >= 5 {
        Some(3)
    } else {
        None
    }
}

/// The rank of five cards. The category follows from the number of
/// distinct values: five distinct values make a straight flush, a
/// flush, a straight or a high card; four make one pair; three make
/// three of a kind or two pair; two make a full house or four of a
/// kind. Within a category the number puts the mask of the deciding
/// values above bit 13 and the mask of the remaining values below it.
pub open spec fn rank_five_spec(cs: Seq<Card>) -> Rank {
    let vs = value_mask(cs);
    let c2 = count_mask(cs, 2);
    let c3 = count_mask(cs, 3);
    let c4 = count_mask(cs, 4);
    let u = pop32(vs);
    if u == 5 {
        let flush = pop32(suit_mask(cs)) == 1;
        match straight_rank(vs) {
            None => if flush {
                Rank::Flush(vs)
            } else {
                Rank::HighCard(vs)
            },
            Some(r) => if flush {
                Rank::StraightFlush(r)
            } else {
                Rank::Straight(r)
            },
        }
    } else if u == 4 {
        Rank::OnePair(c2 << 13u32 | (vs ^ c2))
    } else if u == 3 {
        if c3 > 0 {
            Rank::ThreeOfAKind(c3 << 13u32 | (vs ^ c3))
        } else {
            Rank::TwoPair(c2 << 13u32 | (vs ^ c2))
        }
    } else if c3 > 0 {
        Rank::FullHouse(c3 << 13u32 | (vs ^ c3))
    } else {
        Rank::FourOfAKind(c4 << 13u32 | (vs ^ c4))
    }
}

/// The five-card evaluation does not fail when no value appears more
/// than four times and there are two to five distinct values.
pub open spec fn rank_five_defined(cs: Seq<Card>) -> bool {
    &&& forall|v: nat| v < 13 ==> #[trigger] value_count(cs, v) <= 4
    &&& 2 <= pop32(value_mask(cs)) <= 5
}

/// The suit value masks of the cards, by suit index.
pub open spec fn suit_value_masks(cs: Seq<Card>) -> Seq<u32> {
    seq![suit_value_mask(cs, 0), suit_value_mask(cs, 1), suit_value_mask(cs, 2), suit_value_mask(cs, 3)]
}

/// The best five-card rank among any number of cards, as the seven-card
/// evaluation computes it: a flush suit gives a straight flush or the
/// five highest cards of the suit; otherwise four of a kind with the
/// highest kicker; a full house from two sets or a set and the highest
/// pair; a straight; three of a kind with the two highest kickers; the
/// two highest pairs with the highest kicker; the five highest cards; or
/// one pair with the three highest kickers.
pub open spec fn rank_seven_spec(cs: Seq<Card>) -> Rank {
    let vs = value_mask(cs);
    let sv = suit_value_masks(cs);
    let c2 = count_mask(cs, 2);
    let c3 = count_mask(cs, 3);
    let c4 = count_mask(cs, 4);
    match flush_suit(sv) {
        Some(f) => match straight_rank(sv[f as int]) {
            Some(r) => Rank::StraightFlush(r),
            None => Rank::Flush(keep_n_spec(sv[f as int], 5)),
        },
        None => if c4 != 0 {
            Rank::FourOfAKind(c4 << 13u32 | highest_bit(vs ^ c4))
        } else if c3 != 0 && pop32(c3) == 2 {
            let set = highest_bit(c3);
            Rank::FullHouse(set << 13u32 | (c3 ^ set))
        } else if c3 != 0 && c2 != 0 {
            Rank::FullHouse(c3 << 13u32 | highest_bit(c2))
        } else if straight_rank(vs) is Some {
            Rank::Straight(straight_rank(vs)->Some_0)
        } else if c3 != 0 {
            Rank::ThreeOfAKind(c3 << 13u32 | keep_n_spec(vs ^ c3, 2))
        } else if pop32(c2) >= 2 {
            let pairs = keep_n_spec(c2, 2);
            Rank::TwoPair(pairs << 13u32 | highest_bit(vs ^ pairs))
        } else if c2 == 0 {
            Rank::HighCard(keep_n_spec(vs, 5))
        } else {
            Rank::OnePair(c2 << 13u32 | keep_n_spec(vs ^ c2, 3))
        },
    }
}

/// `rank_seven_spec` is defined (the evaluation does not fail) when no
/// value appears more than four times and every highest-bit it takes is
/// of a non-empty mask.
pub open spec fn rank_seven_defined(cs: Seq<Card>) -> bool {
    let vs = value_mask(cs);
    let c2 = count_mask(cs, 2);
    let c3 = count_mask(cs, 3);
    let c4 = count_mask(cs, 4);
    &&& forall|v: nat| v < 13 ==> #[trigger] value_count(cs, v) <= 4
    &&& flush_suit(suit_value_masks(cs)) is None ==> {
        &&& c4 != 0 ==> (vs ^ c4) != 0
        &&& (c4 == 0 && !(c3 != 0 && pop32(c3) == 2) && !(c3 != 0 && c2 != 0) && straight_rank(vs) is None
            && c3 == 0 && pop32(c2) >= 2) ==> (vs ^ keep_n_spec(c2, 2)) != 0
    }
}

pub proof fn lemma_clear_lowest_decreases(m: u32)
    requires
        m != 0,
    ensures
        m & ((m - 1) as u32) < m,
{
    assert(m & ((m - 1) as u32) < m) by (bit_vector)
        requires
            m != 0,
    ;
}

pub proof fn lemma_pop_zero(i: nat)
    requires
        i <= 32,
    ensures
        pop_low(0u32, i) == 0,
    decreases i,
{
    if i > 0 {
        lemma_pop_zero((i - 1) as nat);
        let j = (i - 1) as u32;
        assert((0u32 >> j) & 1u32 == 0u32) by (bit_vector);
    }
}

/// Keep only the most significant set bit of a non-zero mask.
pub fn keep_highest(rank: u32) -> (r: u32)
    requires
        rank != 0,
    ensures
        r == highest_bit(rank),
{
    proof {
        axiom_u32_leading_zeros(rank);
    }
    1u32 << (32 - rank.leading_zeros() - 1)
}

/// Clear the lowest set bits of the mask until at most `to_keep` remain.
pub fn keep_n(rank: u32, to_keep: u32) -> (r: u32)
    ensures
        r == keep_n_spec(rank, to_keep),
{
    let mut result = rank;
    while count_ones32(result) > to_keep
        invariant
            keep_n_spec(result, to_keep) == keep_n_spec(rank, to_keep),
        decreases result,
    {
        proof {
            if result == 0 {
                lemma_pop_zero(32);
            }
            lemma_clear_lowest_decreases(result);
        }
        result = result & (result - 1);
    }
    proof {
        if result == 0 {
            lemma_pop_zero(32);
        }
    }
    result
}

/// The highest straight in the value mask; see `straight_rank`.
pub fn rank_straight(hand_rank: u32) -> (r: Option<u32>)
    ensures
        r == straight_rank(hand_rank),
{
    if hand_rank & STRAIGHT9 == STRAIGHT9 {
        Some(9)
    } else if hand_rank & STRAIGHT8 == STRAIGHT8 {
        Some(8)
    } else if hand_rank & STRAIGHT7 == STRAIGHT7 {
        Some(7)
    } else if hand_rank & STRAIGHT6 == STRAIGHT6 {
        Some(6)
    } else if hand_rank & STRAIGHT5 == STRAIGHT5 {
        Some(5)
    } else if hand_rank & STRAIGHT4 == STRAIGHT4 {
        Some(4)
    } else if hand_rank & STRAIGHT3 == STRAIGHT3 {
        Some(3)
    } else if hand_rank & STRAIGHT2 == STRAIGHT2 {
        Some(2)
    } else if hand_rank & STRAIGHT1 == STRAIGHT1 {
        Some(1)
    } else if hand_rank & STRAIGHT0 == STRAIGHT0 {
        Some(0)
    } else {
        None
    }
}

/// The first suit whose value mask has at least five values.
pub fn find_flush(suit_value_sets: &[u32; 4]) -> (r: Option<usize>)
    ensures
        r == flush_suit(suit_value_sets@),
{
    let mut i: usize = 0;
    while i < 4
        invariant
            i <= 4,
            forall|k: int| 0 <= k < i ==> pop32(#[trigger] suit_value_sets@[k]) < 5,
        decreases 4 - i,
    {
        if count_ones32(suit_value_sets[i]) >= 5 {
            return Some(i);
        }
        i = i + 1;
    }
    None
}

/// The value mask, suit mask, suit value masks and value counts of the
/// cards, gathered in one pass.
fn tally(cards: &[Card]) -> (r: (u32, u32, [u32; 4], [u8; 13]))
    requires
        cards@.len() <= 255,
    ensures
        r.0 == value_mask(cards@),
        r.1 == suit_mask(cards@),
        r.2@ == suit_value_masks(cards@),
        forall|v: int| 0 <= v < 13 ==> #[trigger] r.3@[v] == value_count(cards@, v as nat),
{
    let mut value_set: u32 = 0;
    let mut suit_set: u32 = 0;
    let mut suit_value_sets: [u32; 4] = [0, 0, 0, 0];
    let mut value_to_count: [u8; 13] = [0, 0, 0, 0, 0, 0, 0, 0, 0, 0, 0, 0, 0];
    let mut i: usize = 0;
    while i < cards.len()
        invariant
            i <= cards@.len() <= 255,
            value_set == value_mask(cards@.take(i as int)),
            suit_set == suit_mask(cards@.take(i as int)),
            suit_value_sets@ == suit_value_masks(cards@.take(i as int)),
            forall|v: int| 0 <= v < 13 ==> #[trigger] value_to_count@[v] == value_count(cards@.take(i as int), v as nat),
            forall|v: int| 0 <= v < 13 ==> #[trigger] value_to_count@[v] <= i,
        decreases cards@.len() - i,
    {
        let c = cards[i];
        let v = c.value.to_u8();
        let s = c.suit.to_u8();
        proof {
            assert(cards@.take(i + 1).drop_last() =~= cards@.take(i as int));
            assert(cards@.take(i + 1).last() == c);
        }
        value_set = value_set | (1u32 << (v as u32));
        suit_set = suit_set | (1u32 << (s as u32));
        let sv = suit_value_sets[s as usize] | (1u32 << (v as u32));
        suit_value_sets[s as usize] = sv;
        let vc = value_to_count[v as usize] + 1;
        value_to_count[v as usize] = vc;
        i = i + 1;
        proof {
            assert(suit_value_sets@ =~= suit_value_masks(cards@.take(i as int)));
        }
    }
    proof {
        assert(cards@.take(cards@.len() as int) =~= cards@);
    }
    (value_set, suit_set, suit_value_sets, value_to_count)
}

/// The masks of the values that appear exactly 0, 1, 2, 3 and 4 times.
fn count_masks(Ghost(cards): Ghost<Seq<Card>>, value_to_count: &[u8; 13]) -> (r: [u32; 5])
    requires
        forall|v: int| 0 <= v < 13 ==> #[trigger] value_to_count@[v] == value_count(cards, v as nat),
        forall|v: nat| v < 13 ==> #[trigger] value_count(cards, v) <= 4,
    ensures
        forall|k: int| 0 <= k < 5 ==> #[trigger] r@[k] == count_mask(cards, k as nat),
{
    let mut count_to_value: [u32; 5] = [0, 0, 0, 0, 0];
    let mut j: usize = 0;
    while j < 13
        invariant
            j <= 13,
            forall|v: int| 0 <= v < 13 ==> #[trigger] value_to_count@[v] == value_count(cards, v as nat),
            forall|v: nat| v < 13 ==> #[trigger] value_count(cards, v) <= 4,
            forall|k: int| 0 <= k < 5 ==> #[trigger] count_to_value@[k] == count_mask_upto(cards, k as nat, j as nat),
        decreases 13 - j,
    {
        let count = value_to_count[j] as usize;
        proof {
            assert(value_count(cards, j as nat) <= 4);
        }
        let updated = count_to_value[count] | (1u32 << (j as u32));
        count_to_value[count] = updated;
        j = j + 1;
        proof {
            assert forall|k: int| 0 <= k < 5 implies #[trigger] count_to_value@[k] == count_mask_upto(cards, k as nat, j as nat) by {
                assert(count_mask_upto(cards, k as nat, j as nat) == count_mask_upto(cards, k as nat, (j - 1) as nat) | (if value_count(cards, (j - 1) as nat) == k {
                    1u32 << ((j - 1) as u32)
                } else {
                    0u32
                }));
                if k != count {
                    let x = count_mask_upto(cards, k as nat, (j - 1) as nat);
                    assert(x | 0u32 == x) by (bit_vector);
                }
            }
        }
    }
    count_to_value
}

/// The rank of five cards; see `rank_five_spec`.
pub fn rank_cards(cards: &[Card]) -> (r: Rank)
    requires
        cards@.len() <= 255,
        rank_five_defined(cards@),
    ensures
        r == rank_five_spec(cards@),
{
    let (value_set, suit_set, _suit_value_sets, value_to_count) = tally(cards);
    let count_to_value = count_masks(Ghost(cards@), &value_to_count);
    let unique_card_count = count_ones32(value_set);
    if unique_card_count == 5 {
        let suit_count = count_ones32(suit_set);
        let is_flush = suit_count == 1;
        match rank_straight(value_set) {
            None => if is_flush {
                Rank::Flush(value_set)
            } else {
                Rank::HighCard(value_set)
            },
            Some(rank) => if is_flush {
                Rank::StraightFlush(rank)
            } else {
                Rank::Straight(rank)
            },
        }
    } else if unique_card_count == 4 {
        let major_rank = count_to_value[2];
        let minor_rank = value_set ^ major_rank;
        Rank::OnePair(major_rank << 13u32 | minor_rank)
    } else if unique_card_count == 3 {
        let three_value = count_to_value[3];
        if three_value > 0 {
            let major_rank = three_value;
            let minor_rank = value_set ^ major_rank;
            Rank::ThreeOfAKind(major_rank << 13u32 | minor_rank)
        } else {
            let major_rank = count_to_value[2];
            let minor_rank = value_set ^ major_rank;
            Rank::TwoPair(major_rank << 13u32 | minor_rank)
        }
    } else {
        let three_value = count_to_value[3];
        if three_value > 0 {
            let major_rank = three_value;
            let minor_rank = value_set ^ major_rank;
            Rank::FullHouse(major_rank << 13u32 | minor_rank)
        } else {
            let major_rank = count_to_value[4];
            let minor_rank = value_set ^ major_rank;
            Rank::FourOfAKind(major_rank << 13u32 | minor_rank)
        }
    }
}

/// The best rank among the cards, as the seven-card evaluation computes
/// it; see `rank_seven_spec`.
pub fn rank_seven_cards(cards: &[Card]) -> (r: Rank)
    requires
        cards@.len() <= 255,
        rank_seven_defined(cards@),
    ensures
        r == rank_seven_spec(cards@),
{
    let (value_set, _suit_set, suit_value_sets, value_to_count) = tally(cards);
    let count_to_value = count_masks(Ghost(cards@), &value_to_count);
    let flush = find_flush(&suit_value_sets);
    if let Some(flush_idx) = flush {
        if let Some(rank) = rank_straight(suit_value_sets[flush_idx]) {
            Rank::StraightFlush(rank)
        } else {
            let rank = keep_n(suit_value_sets[flush_idx], 5);
            Rank::Flush(rank)
        }
    } else if count_to_value[4] != 0 {
        let high = keep_highest(value_set ^ count_to_value[4]);
        Rank::FourOfAKind(count_to_value[4] << 13u32 | high)
    } else if count_to_value[3] != 0 && count_ones32(count_to_value[3]) == 2 {
        let set = keep_highest(count_to_value[3]);
        let pair = count_to_value[3] ^ set;
        Rank::FullHouse(set << 13u32 | pair)
    } else if count_to_value[3] != 0 && count_to_value[2] != 0 {
        let set = count_to_value[3];
        let pair = keep_highest(count_to_value[2]);
        Rank::FullHouse(set << 13u32 | pair)
    } else if let Some(s_rank) = rank_straight(value_set) {
        Rank::Straight(s_rank)
    } else if count_to_value[3] != 0 {
        let low = keep_n(value_set ^ count_to_value[3], 2);
        Rank::ThreeOfAKind(count_to_value[3] << 13u32 | low)
    } else if count_ones32(count_to_value[2]) >= 2 {
        let pairs = keep_n(count_to_value[2], 2);
        let low = keep_highest(value_set ^ pairs);
        Rank::TwoPair(pairs << 13u32 | low)
    } else if count_to_value[2] == 0 {
        Rank::HighCard(keep_n(value_set, 5))
    } else {
        let pair = count_to_value[2];
        let low = keep_n(value_set ^ count_to_value[2], 3);
        Rank::OnePair(pair << 13u32 | low)
    }
}

/// Something that holds cards and can be ranked as a poker hand.
pub trait Rankable {
    /// The cards held, as a sequence.
    spec fn card_list(&self) -> Seq<Card>;

    /// The cards held.
    fn cards(&self) -> (r: Vec<Card>)
        ensures
            r@ == self.card_list(),
    ;

    /// Rank the cards as a five-card hand; see `rank_five_spec`.
    fn rank(&self) -> (r: Rank)
        requires
            self.card_list().len() <= 255,
            rank_five_defined(self.card_list()),
        ensures
            r == rank_five_spec(self.card_list()),
    {
        let cards = self.cards();
        rank_cards(cards.as_slice())
    }

    /// Rank the best five cards among up to seven; see `rank_seven_spec`.
    fn rank_seven(&self) -> (r: Rank)
        requires
            self.card_list().len() <= 255,
            rank_seven_defined(self.card_list()),
        ensures
            r == rank_seven_spec(self.card_list()),
    {
        let cards = self.cards();
        rank_seven_cards(cards.as_slice())
    }
}

impl Rankable for Hand {
    open spec fn card_list(&self) -> Seq<Card> {
        self.card_seq().reverse()
    }

    fn cards(&self) -> (r: Vec<Card>) {
        Hand::cards(self)
    }
}

impl Rankable for Vec<Card> {
    open spec fn card_list(&self) -> Seq<Card> {
        self@
    }

    fn cards(&self) -> (r: Vec<Card>) {
        self.clone()
    }
}

} // verus!
