use vstd::prelude::*;
use vstd::std_specs::bits::{u64_trailing_zeros, axiom_u64_trailing_zeros};
use crate::cards::bits::{
    full_mask, has_bit, lemma_bit_binops, lemma_bit_clear_single, lemma_bit_or_single,
    lemma_bit_test, lemma_bit_xor_single, lemma_bounded_high_bits, lemma_bounded_ops,
    lemma_full_mask_bits, lemma_zero_bits,
};
use crate::rng::random_below;
use crate::strings::string_push;
use crate::cards::card::{card_chars, card_index, card_of_index, lemma_card_index_roundtrip, Card};

verus! {

/// The cards whose index lies below `n` and whose bit is set in `x`, in
/// increasing index order.
pub open spec fn cards_below(x: u64, n: int) -> Seq<Card>
    decreases n,
{
    if n <= 0 {
        seq![]
    } else if has_bit(x, n - 1) {
        cards_below(x, n - 1).push(card_of_index(n - 1))
    } else {
        cards_below(x, n - 1)
    }
}

/// There are at most `n` cards below index `n`.
pub proof fn lemma_cards_below_len(x: u64, n: int)
    requires
        0 <= n,
    ensures
        cards_below(x, n).len() <= n,
    decreases n,
{
    if n > 0 {
        lemma_cards_below_len(x, n - 1);
    }
}

/// The cards whose bit is set in `x`.
pub open spec fn card_set_of(x: u64) -> Set<Card> {
    Set::new(|c: Card| has_bit(x, card_index(c)))
}

/// Every card.
pub open spec fn all_cards() -> Set<Card> {
    Set::new(|c: Card| true)
}

/// The cards of `cards_below` lie below `n`, in strictly increasing
/// index order, and they are exactly the set cards below `n`.
pub proof fn lemma_cards_below(x: u64, n: int)
    requires
        0 <= n <= 52,
    ensures
        forall|i: int|
            0 <= i < cards_below(x, n).len() ==> 0 <= #[trigger] card_index(cards_below(x, n)[i])
                < n && has_bit(x, card_index(cards_below(x, n)[i])),
        forall|i: int, j: int|
            0 <= i < j < cards_below(x, n).len() ==> card_index(#[trigger] cards_below(x, n)[i])
                < card_index(#[trigger] cards_below(x, n)[j]),
        forall|c: Card|
            cards_below(x, n).contains(c) <==> (card_index(c) < n && has_bit(x, card_index(c))),
        cards_below(x, n).no_duplicates(),
        cards_below(x, n).len() <= n,
    decreases n,
{
    if n > 0 {
        lemma_cards_below(x, n - 1);
        let prev = cards_below(x, n - 1);
        let cur = cards_below(x, n);
        assert forall|c: Card|
            cur.contains(c) <==> (card_index(c) < n && has_bit(x, card_index(c))) by {
            lemma_card_index_roundtrip(c, n - 1);
            if cur.contains(c) {
                let k = choose|k: int| 0 <= k < cur.len() && cur[k] == c;
                if k < prev.len() {
                    assert(prev[k] == c);
                    assert(prev.contains(c));
                }
            }
            if card_index(c) < n && has_bit(x, card_index(c)) {
                if card_index(c) < n - 1 {
                    assert(prev.contains(c));
                    let k = choose|k: int| 0 <= k < prev.len() && prev[k] == c;
                    assert(cur[k] == c);
                } else {
                    assert(cur[cur.len() - 1] == c);
                }
            }
        }
        assert forall|i: int, j: int| 0 <= i < j < cur.len() implies #[trigger] cur[i] != #[trigger] cur[j] by {
            lemma_card_index_roundtrip(cur[i], n - 1);
            if j < prev.len() {
                assert(card_index(prev[i]) < card_index(prev[j]));
            } else {
                assert(card_index(prev[i]) < n - 1);
                lemma_card_index_roundtrip(cur[j], n - 1);
            }
        }
        assert forall|i: int| 0 <= i < cur.len() implies 0 <= #[trigger] card_index(cur[i]) < n
            && has_bit(x, card_index(cur[i])) by {
            lemma_card_index_roundtrip(cur[i], n - 1);
            if i == prev.len() {
                lemma_card_index_roundtrip(cur[i], n - 1);
            } else {
                assert(cur[i] == prev[i]);
            }
        }
        assert forall|i: int, j: int| 0 <= i < j < cur.len() implies card_index(#[trigger] cur[i])
            < card_index(#[trigger] cur[j]) by {
            if j < prev.len() {
                assert(cur[i] == prev[i] && cur[j] == prev[j]);
            } else {
                assert(cur[i] == prev[i]);
                lemma_card_index_roundtrip(cur[j], n - 1);
            }
        }
    }
}

/// Enumerating fewer bits gives a prefix of enumerating more.
pub proof fn lemma_cards_below_prefix(x: u64, n: int, m: int)
    requires
        0 <= n <= m,
    ensures
        cards_below(x, n).len() <= cards_below(x, m).len(),
        forall|i: int| 0 <= i < cards_below(x, n).len() ==> #[trigger] cards_below(x, m)[i]
            == cards_below(x, n)[i],
    decreases m - n,
{
    if n < m {
        lemma_cards_below_prefix(x, n, m - 1);
    }
}

/// For a word within the 52 card bits, the enumeration lists exactly the
/// cards of the set, each once, so its length is the set's size.
pub proof fn lemma_card_seq_is_set(x: u64)
    requires
        x <= full_mask(),
    ensures
        cards_below(x, 52).to_set() == card_set_of(x),
        cards_below(x, 52).no_duplicates(),
        cards_below(x, 52).len() == card_set_of(x).len(),
        card_set_of(x).finite(),
{
    lemma_cards_below(x, 52);
    assert forall|c: Card| cards_below(x, 52).to_set().contains(c) <==> card_set_of(x).contains(c) by {
        lemma_card_index_roundtrip(c, 0);
    }
    assert(cards_below(x, 52).to_set() =~= card_set_of(x));
    cards_below(x, 52).unique_seq_to_set();
}

/// With every card bit set, the enumeration below `n` lists `n` cards.
proof fn lemma_full_word_lists(n: int)
    requires
        0 <= n <= 52,
    ensures
        cards_below(full_mask(), n).len() == n,
    decreases n,
{
    if n > 0 {
        lemma_full_word_lists(n - 1);
        lemma_full_mask_bits((n - 1) as u64);
    }
}

/// There are 52 cards: the set of every card is finite and has 52
/// elements, so a set that holds every card counts 52.
pub proof fn lemma_all_cards_len()
    ensures
        all_cards().finite(),
        all_cards().len() == 52,
{
    lemma_full_word_lists(52);
    lemma_card_seq_is_set(full_mask());
    assert forall|c: Card| #[trigger] card_set_of(full_mask()).contains(c) by {
        lemma_card_index_roundtrip(c, 0);
        lemma_full_mask_bits(card_index(c) as u64);
    }
    assert(card_set_of(full_mask()) =~= all_cards());
}

/// Two bounded words with the same bits are the same word.
pub proof fn lemma_same_bits_same_word(x: u64, y: u64)
    requires
        forall|j: int| 0 <= j < 64 ==> has_bit(x, j) == has_bit(y, j),
    ensures
        x == y,
{
    let z = x ^ y;
    axiom_u64_trailing_zeros(z);
    let t = u64_trailing_zeros(z);
    if t < 64 {
        lemma_bit_binops(x, y, t as u64);
        assert(false);
    }
    assert((x ^ y) == 0u64 ==> x == y) by (bit_vector);
}

/// Two bounded words that hold the same cards are the same word.
pub proof fn lemma_same_cards_same_word(x: u64, y: u64)
    requires
        x <= full_mask(),
        y <= full_mask(),
        card_set_of(x) == card_set_of(y),
    ensures
        x == y,
{
    assert forall|j: int| 0 <= j < 64 implies has_bit(x, j) == has_bit(y, j) by {
        if j < 52 {
            lemma_card_index_roundtrip(card_of_index(j), j);
            assert(card_set_of(x).contains(card_of_index(j)) == has_bit(x, j));
            assert(card_set_of(y).contains(card_of_index(j)) == has_bit(y, j));
            assert(card_set_of(x).contains(card_of_index(j)) == card_set_of(y).contains(
                card_of_index(j),
            ));
        } else {
            lemma_bounded_high_bits(x, j as u64);
            lemma_bounded_high_bits(y, j as u64);
        }
    }
    lemma_same_bits_same_word(x, y);
}

/// A set of cards held as one bit per card in a 64-bit word; bit
/// `card_index(c)` is set when card `c` is in the set.
#[derive(Debug, Clone, Copy, PartialEq, Eq, Structural, Hash)]
pub struct CardBitSet {
    cards: u64,
}

impl View for CardBitSet {
    type V = Set<Card>;

    open spec fn view(&self) -> Set<Card> {
        card_set_of(self.bits())
    }
}

impl CardBitSet {
    /// The underlying word.
    pub closed spec fn bits(self) -> u64 {
        self.cards
    }

    /// Only the 52 card bits are ever set.
    #[verifier::type_invariant]
    pub closed spec fn inv(self) -> bool {
        self.cards <= full_mask()
    }

    /// The cards of the set in increasing index order.
    pub open spec fn card_seq(self) -> Seq<Card> {
        cards_below(self.bits(), 52)
    }

    /// The set whose word is the bitwise or of the two words.
    pub closed spec fn union_spec(self, rhs: CardBitSet) -> CardBitSet {
        CardBitSet { cards: self.cards | rhs.cards }
    }

    /// The set whose word is the bitwise and of the two words.
    pub closed spec fn intersection_spec(self, rhs: CardBitSet) -> CardBitSet {
        CardBitSet { cards: self.cards & rhs.cards }
    }

    /// The set whose word is the bitwise exclusive or of the two words.
    pub closed spec fn symmetric_difference_spec(self, rhs: CardBitSet) -> CardBitSet {
        CardBitSet { cards: self.cards ^ rhs.cards }
    }

    /// The set with the card's bit flipped.
    pub closed spec fn toggle_card_spec(self, card: Card) -> CardBitSet {
        CardBitSet { cards: self.cards ^ (1u64 << (card_index(card) as u64)) }
    }

    /// The set with the card's bit set.
    pub closed spec fn with_card_spec(self, card: Card) -> CardBitSet {
        CardBitSet { cards: self.cards | (1u64 << (card_index(card) as u64)) }
    }

    /// The set of the 52 cards outside this one.
    pub closed spec fn complement_spec(self) -> CardBitSet {
        CardBitSet { cards: !self.cards & full_mask() }
    }

    /// A set's word never has a bit above the 52 card bits, so its
    /// enumeration lists each of its cards once.
    pub proof fn lemma_wf(self)
        requires
            self.bits() <= full_mask(),
        ensures
            self.card_seq().to_set() == self@,
            self.card_seq().no_duplicates(),
            self.card_seq().len() == self@.len(),
            self@.finite(),
    {
        lemma_card_seq_is_set(self.bits());
    }

    /// Two card sets are equal exactly when they hold the same cards.
    pub proof fn lemma_view_eq(self, other: CardBitSet)
        requires
            self.bits() <= full_mask(),
            other.bits() <= full_mask(),
        ensures
            (self@ == other@) == (self == other),
    {
        if self@ == other@ {
            lemma_same_cards_same_word(self.bits(), other.bits());
        }
    }

    /// Every card set satisfies its invariant.
    pub fn bounded(&self)
        ensures
            self.bits() <= full_mask(),
    {
        proof {
            use_type_invariant(self);
        }
    }

    /// A new empty set.
    pub fn new() -> (r: Self)
        ensures
            r@ == Set::<Card>::empty(),
    {
        let r = CardBitSet { cards: 0 };
        proof {
            assert forall|c: Card| !r@.contains(c) by {
                lemma_card_index_roundtrip(c, 0);
                lemma_zero_bits(card_index(c) as u64);
            }
            assert(r@ =~= Set::<Card>::empty());
        }
        r
    }

    /// Add a card to the set.
    pub fn insert(&mut self, card: Card)
        ensures
            final(self)@ == old(self)@.insert(card),
    {
        proof {
            use_type_invariant(&*self);
        }
        let i = card.index() as u64;
        let ghost old_cards = self.cards;
        proof {
            lemma_bounded_ops(old_cards, old_cards, i);
        }
        self.cards = self.cards | (1u64 << i);
        proof {
            assert forall|c: Card| self@.contains(c) == old(self)@.insert(card).contains(c) by {
                lemma_card_index_roundtrip(c, 0);
                lemma_bit_or_single(old_cards, i, card_index(c) as u64);
                if card_index(c) == i {
                    lemma_card_index_roundtrip(card, card_index(c));
                    lemma_card_index_roundtrip(c, card_index(c));
                }
            }
            assert(self@ =~= old(self)@.insert(card));
        }
    }

    /// Remove a card from the set.
    pub fn remove(&mut self, card: Card)
        ensures
            final(self)@ == old(self)@.remove(card),
    {
        proof {
            use_type_invariant(&*self);
        }
        let i = card.index() as u64;
        let ghost old_cards = self.cards;
        proof {
            lemma_bounded_ops(old_cards, old_cards, i);
        }
        self.cards = self.cards & !(1u64 << i);
        proof {
            assert forall|c: Card| self@.contains(c) == old(self)@.remove(card).contains(c) by {
                lemma_card_index_roundtrip(c, 0);
                lemma_bit_clear_single(old_cards, i, card_index(c) as u64);
                if card_index(c) == i {
                    lemma_card_index_roundtrip(card, card_index(c));
                    lemma_card_index_roundtrip(c, card_index(c));
                }
            }
            assert(self@ =~= old(self)@.remove(card));
        }
    }

    /// Is the card in the set?
    pub fn contains(&self, card: Card) -> (r: bool)
        ensures
            r == self@.contains(card),
    {
        let i = card.index() as u64;
        proof {
            lemma_bit_test(self.cards, i);
        }
        (self.cards & (1u64 << i)) != 0
    }

    /// Is the set empty?
    pub fn is_empty(&self) -> (r: bool)
        ensures
            r == (self@ == Set::<Card>::empty()),
    {
        proof {
            use_type_invariant(self);
            if self.cards == 0 {
                assert forall|c: Card| !self@.contains(c) by {
                    lemma_card_index_roundtrip(c, 0);
                    lemma_zero_bits(card_index(c) as u64);
                }
                assert(self@ =~= Set::<Card>::empty());
            } else {
                axiom_u64_trailing_zeros(self.cards);
                let t = u64_trailing_zeros(self.cards) as int;
                if t >= 52 {
                    lemma_bounded_high_bits(self.cards, t as u64);
                }
                lemma_card_index_roundtrip(card_of_index(t), t);
                assert(self@.contains(card_of_index(t)));
            }
        }
        self.cards == 0
    }

    /// How many cards are in the set?
    pub fn count(&self) -> (r: usize)
        ensures
            r == self@.len(),
            r == self.card_seq().len(),
            r <= 52,
            self@.finite(),
    {
        proof {
            use_type_invariant(self);
            self.lemma_wf();
            lemma_cards_below(self.cards, 52);
        }
        let mut n: usize = 0;
        let mut i: u64 = 0;
        while i < 52
            invariant
                i <= 52,
                n == cards_below(self.bits(), i as int).len(),
                n <= i,
            decreases 52 - i,
        {
            proof {
                lemma_cards_below(self.cards, i as int);
            }
            if (self.cards >> i) & 1u64 == 1u64 {
                n = n + 1;
            }
            i = i + 1;
        }
        n
    }

    /// Remove every card.
    pub fn clear(&mut self)
        ensures
            final(self)@ == Set::<Card>::empty(),
    {
        *self = CardBitSet::new();
    }

    /// The set of all 52 cards.
    pub fn full() -> (r: Self)
        ensures
            r@ == all_cards(),
            r@.len() == 52,
    {
        proof {
            lemma_all_cards_len();
        }
        let r = CardBitSet { cards: 0xF_FFFF_FFFF_FFFFu64 };
        proof {
            assert forall|c: Card| r@.contains(c) by {
                lemma_card_index_roundtrip(c, 0);
                lemma_full_mask_bits(card_index(c) as u64);
            }
            assert(r@ =~= all_cards());
        }
        r
    }

    /// The cards in either set.
    pub fn union(self, rhs: CardBitSet) -> (r: CardBitSet)
        ensures
            r@ == self@.union(rhs@),
            r == self.union_spec(rhs),
    {
        proof {
            use_type_invariant(self);
            use_type_invariant(rhs);
            lemma_bounded_ops(self.cards, rhs.cards, 0);
        }
        let r = CardBitSet { cards: self.cards | rhs.cards };
        proof {
            assert forall|c: Card| r@.contains(c) == self@.union(rhs@).contains(c) by {
                lemma_card_index_roundtrip(c, 0);
                lemma_bit_binops(self.cards, rhs.cards, card_index(c) as u64);
            }
            assert(r@ =~= self@.union(rhs@));
        }
        r
    }

    /// The cards in both sets.
    pub fn intersection(self, rhs: CardBitSet) -> (r: CardBitSet)
        ensures
            r@ == self@.intersect(rhs@),
            r == self.intersection_spec(rhs),
    {
        proof {
            use_type_invariant(self);
            use_type_invariant(rhs);
            lemma_bounded_ops(self.cards, rhs.cards, 0);
        }
        let r = CardBitSet { cards: self.cards & rhs.cards };
        proof {
            assert forall|c: Card| r@.contains(c) == self@.intersect(rhs@).contains(c) by {
                lemma_card_index_roundtrip(c, 0);
                lemma_bit_binops(self.cards, rhs.cards, card_index(c) as u64);
            }
            assert(r@ =~= self@.intersect(rhs@));
        }
        r
    }

    /// The cards in exactly one of the two sets.
    pub fn symmetric_difference(self, rhs: CardBitSet) -> (r: CardBitSet)
        ensures
            r@ == self@.difference(rhs@).union(rhs@.difference(self@)),
            r == self.symmetric_difference_spec(rhs),
    {
        proof {
            use_type_invariant(self);
            use_type_invariant(rhs);
            lemma_bounded_ops(self.cards, rhs.cards, 0);
        }
        let r = CardBitSet { cards: self.cards ^ rhs.cards };
        proof {
            assert forall|c: Card|
                r@.contains(c) == self@.difference(rhs@).union(rhs@.difference(self@)).contains(
                    c,
                ) by {
                lemma_card_index_roundtrip(c, 0);
                lemma_bit_binops(self.cards, rhs.cards, card_index(c) as u64);
            }
            assert(r@ =~= self@.difference(rhs@).union(rhs@.difference(self@)));
        }
        r
    }

    /// The set with the card added.
    pub fn with_card(self, card: Card) -> (r: CardBitSet)
        ensures
            r@ == self@.insert(card),
            r == self.with_card_spec(card),
    {
        proof {
            use_type_invariant(self);
        }
        let i = card.index() as u64;
        proof {
            lemma_bounded_ops(self.cards, self.cards, i);
        }
        let r = CardBitSet { cards: self.cards | (1u64 << i) };
        proof {
            assert forall|c: Card| r@.contains(c) == self@.insert(card).contains(c) by {
                lemma_card_index_roundtrip(c, 0);
                lemma_bit_or_single(self.cards, i, card_index(c) as u64);
                if card_index(c) == i {
                    lemma_card_index_roundtrip(card, card_index(c));
                    lemma_card_index_roundtrip(c, card_index(c));
                }
            }
            assert(r@ =~= self@.insert(card));
        }
        r
    }

    /// The set with the card's membership flipped: removed when present,
    /// added when absent.
    pub fn toggle_card(self, card: Card) -> (r: CardBitSet)
        ensures
            r@ == if self@.contains(card) {
                self@.remove(card)
            } else {
                self@.insert(card)
            },
            r == self.toggle_card_spec(card),
    {
        proof {
            use_type_invariant(self);
        }
        let i = card.index() as u64;
        proof {
            lemma_bounded_ops(self.cards, self.cards, i);
        }
        let r = CardBitSet { cards: self.cards ^ (1u64 << i) };
        proof {
            let want = if self@.contains(card) {
                self@.remove(card)
            } else {
                self@.insert(card)
            };
            assert forall|c: Card| r@.contains(c) == want.contains(c) by {
                lemma_card_index_roundtrip(c, 0);
                lemma_bit_xor_single(self.cards, i, card_index(c) as u64);
                if card_index(c) == i {
                    lemma_card_index_roundtrip(card, card_index(c));
                    lemma_card_index_roundtrip(c, card_index(c));
                }
            }
            assert(r@ =~= want);
        }
        r
    }

    /// The cards not in the set.
    pub fn complement(self) -> (r: CardBitSet)
        ensures
            r@ == all_cards().difference(self@),
            r == self.complement_spec(),
    {
        proof {
            use_type_invariant(self);
            lemma_bounded_ops(self.cards, self.cards, 0);
        }
        let r = CardBitSet { cards: !self.cards & 0xF_FFFF_FFFF_FFFFu64 };
        proof {
            assert forall|c: Card| r@.contains(c) == all_cards().difference(self@).contains(c) by {
                lemma_card_index_roundtrip(c, 0);
                lemma_bit_binops(self.cards, self.cards, card_index(c) as u64);
            }
            assert(r@ =~= all_cards().difference(self@));
        }
        r
    }

    /// Iterate over the cards in increasing index order.
    pub fn iter(&self) -> (r: CardBitSetIter)
        ensures
            r@ == self.card_seq(),
    {
        proof {
            use_type_invariant(self);
        }
        CardBitSetIter(self.cards)
    }

    /// The `k`-th card of the set in increasing index order.
    pub fn nth_card(&self, k: usize) -> (r: Card)
        requires
            k < self.card_seq().len(),
        ensures
            r == self.card_seq()[k as int],
    {
        let mut seen: usize = 0;
        let mut i: u8 = 0;
        while i < 52
            invariant
                i <= 52,
                seen == cards_below(self.bits(), i as int).len(),
                seen <= k,
                k < cards_below(self.bits(), 52).len(),
            decreases 52 - i,
        {
            proof {
                lemma_cards_below(self.cards, i as int);
                lemma_cards_below_prefix(self.cards, (i + 1) as int, 52);
            }
            if (self.cards >> (i as u64)) & 1u64 == 1u64 {
                if seen == k {
                    return Card::from_index(i);
                }
                seen = seen + 1;
            }
            i = i + 1;
        }
        proof {
            lemma_cards_below(self.cards, 52);
        }
        Card::from_index(0)
    }

    /// Draw one card of the set at random; `None` when the set is empty.
    /// Which card comes out depends on the generator; it is always one of
    /// the set's cards.
    pub fn sample_one(&self, rng: &mut rand::rngs::StdRng) -> (r: Option<Card>)
        ensures
            r is None <==> self@ == Set::<Card>::empty(),
            r matches Some(c) ==> self@.contains(c),
    {
        let n = self.count();
        if n == 0 {
            proof {
                use_type_invariant(self);
                self.lemma_wf();
                self@.lemma_len0_is_empty();
            }
            return None;
        }
        let k = random_below(rng, n);
        let c = self.nth_card(k);
        proof {
            use_type_invariant(self);
            self.lemma_wf();
            assert(self.card_seq().contains(c));
            assert(self@.contains(c));
        }
        Some(c)
    }

    /// The cards of the set in increasing index order.
    pub fn to_vec(&self) -> (r: Vec<Card>)
        ensures
            r@ == self.card_seq(),
    {
        let mut out: Vec<Card> = Vec::new();
        let mut i: u8 = 0;
        while i < 52
            invariant
                i <= 52,
                out@ == cards_below(self.bits(), i as int),
            decreases 52 - i,
        {
            if (self.cards >> (i as u64)) & 1u64 == 1u64 {
                out.push(Card::from_index(i));
            }
            i = i + 1;
        }
        out
    }
}

/// The text that lists the cards: "{Card(Ac), Card(3h)}", in increasing
/// index order, separated by ", ".
pub open spec fn card_list_text(cs: Seq<Card>) -> Seq<char>
    decreases cs.len(),
{
    if cs.len() == 0 {
        Seq::empty()
    } else if cs.len() == 1 {
        card_item_text(cs[0])
    } else {
        card_list_text(cs.drop_last()) + seq![',', ' '] + card_item_text(cs.last())
    }
}

/// The text of one card in a listing: "Card(Ac)".
pub open spec fn card_item_text(c: Card) -> Seq<char> {
    seq!['C', 'a', 'r', 'd', '('] + card_chars(c) + seq![')']
}

/// Append the characters of `t` to `s`.
fn push_all(s: &mut String, t: &[char])
    ensures
        final(s)@ == old(s)@ + t@,
{
    let mut i: usize = 0;
    while i < t.len()
        invariant
            i <= t@.len(),
            s@ == old(s)@ + t@.take(i as int),
        decreases t@.len() - i,
    {
        string_push(s, t[i]);
        proof {
            assert(t@.take(i + 1) =~= t@.take(i as int).push(t@[i as int]));
        }
        i = i + 1;
    }
    proof {
        assert(t@.take(t@.len() as int) =~= t@);
    }
}

impl CardBitSet {
    /// The set listed as text, such as "{Card(Ac), Card(3h), Card(Kd)}".
    pub fn to_debug_string(&self) -> (r: String)
        ensures
            r@ == seq!['{'] + card_list_text(self.card_seq()) + seq!['}'],
    {
        let cards = self.to_vec();
        let mut s = String::new();
        string_push(&mut s, '{');
        let mut i: usize = 0;
        while i < cards.len()
            invariant
                i <= cards@.len(),
                cards@ == self.card_seq(),
                s@ == seq!['{'] + card_list_text(cards@.take(i as int)),
            decreases cards@.len() - i,
        {
            let c = cards[i];
            if i > 0 {
                string_push(&mut s, ',');
                string_push(&mut s, ' ');
            }
            push_all(&mut s, &['C', 'a', 'r', 'd', '(']);
            string_push(&mut s, c.value.to_char());
            string_push(&mut s, c.suit.to_char());
            string_push(&mut s, ')');
            proof {
                let t = cards@.take(i + 1);
                assert(t.drop_last() =~= cards@.take(i as int));
                assert(t.last() == c);
                if i == 0 {
                    assert(t.len() == 1);
                    assert(t[0] == c);
                }
                assert(s@ =~= seq!['{'] + card_list_text(t));
            }
            i = i + 1;
        }
        string_push(&mut s, '}');
        proof {
            assert(cards@.take(cards@.len() as int) =~= cards@);
        }
        s
    }
}

impl Default for CardBitSet {
    /// The set of all 52 cards.
    fn default() -> (r: Self)
        ensures
            r@ == all_cards(),
            r@.len() == 52,
    {
        CardBitSet::full()
    }
}

impl std::ops::BitOr<CardBitSet> for CardBitSet {
    type Output = CardBitSet;

    /// The cards in either set.
    fn bitor(self, rhs: CardBitSet) -> (r: CardBitSet) {
        self.union(rhs)
    }
}

impl vstd::std_specs::ops::BitOrSpecImpl<CardBitSet> for CardBitSet {
    open spec fn obeys_bitor_spec() -> bool {
        true
    }

    open spec fn bitor_req(self, rhs: CardBitSet) -> bool {
        true
    }

    open spec fn bitor_spec(self, rhs: CardBitSet) -> CardBitSet {
        self.union_spec(rhs)
    }
}

impl std::ops::BitOr<Card> for CardBitSet {
    type Output = CardBitSet;

    /// The set with the card added.
    fn bitor(self, rhs: Card) -> (r: CardBitSet) {
        self.with_card(rhs)
    }
}

impl vstd::std_specs::ops::BitOrSpecImpl<Card> for CardBitSet {
    open spec fn obeys_bitor_spec() -> bool {
        true
    }

    open spec fn bitor_req(self, rhs: Card) -> bool {
        true
    }

    open spec fn bitor_spec(self, rhs: Card) -> CardBitSet {
        self.with_card_spec(rhs)
    }
}

impl std::ops::BitAnd<CardBitSet> for CardBitSet {
    type Output = CardBitSet;

    /// The cards in both sets.
    fn bitand(self, rhs: CardBitSet) -> (r: CardBitSet) {
        self.intersection(rhs)
    }
}

impl vstd::std_specs::ops::BitAndSpecImpl<CardBitSet> for CardBitSet {
    open spec fn obeys_bitand_spec() -> bool {
        true
    }

    open spec fn bitand_req(self, rhs: CardBitSet) -> bool {
        true
    }

    open spec fn bitand_spec(self, rhs: CardBitSet) -> CardBitSet {
        self.intersection_spec(rhs)
    }
}

impl std::ops::BitXor<CardBitSet> for CardBitSet {
    type Output = CardBitSet;

    /// The cards in exactly one of the two sets.
    fn bitxor(self, rhs: CardBitSet) -> (r: CardBitSet) {
        self.symmetric_difference(rhs)
    }
}

impl vstd::std_specs::ops::BitXorSpecImpl<CardBitSet> for CardBitSet {
    open spec fn obeys_bitxor_spec() -> bool {
        true
    }

    open spec fn bitxor_req(self, rhs: CardBitSet) -> bool {
        true
    }

    open spec fn bitxor_spec(self, rhs: CardBitSet) -> CardBitSet {
        self.symmetric_difference_spec(rhs)
    }
}

impl std::ops::BitXor<Card> for CardBitSet {
    type Output = CardBitSet;

    /// The set with the card's membership flipped.
    fn bitxor(self, rhs: Card) -> (r: CardBitSet) {
        self.toggle_card(rhs)
    }
}

impl vstd::std_specs::ops::BitXorSpecImpl<Card> for CardBitSet {
    open spec fn obeys_bitxor_spec() -> bool {
        true
    }

    open spec fn bitxor_req(self, rhs: Card) -> bool {
        true
    }

    open spec fn bitxor_spec(self, rhs: Card) -> CardBitSet {
        self.toggle_card_spec(rhs)
    }
}

impl std::ops::Not for CardBitSet {
    type Output = CardBitSet;

    /// The cards not in the set.
    fn not(self) -> (r: CardBitSet) {
        self.complement()
    }
}

impl vstd::std_specs::ops::NotSpecImpl for CardBitSet {
    open spec fn obeys_not_spec() -> bool {
        true
    }

    open spec fn not_req(self) -> bool {
        true
    }

    open spec fn not_spec(self) -> CardBitSet {
        self.complement_spec()
    }
}

impl std::ops::BitOrAssign<CardBitSet> for CardBitSet {
    /// Add the cards of `rhs`.
    fn bitor_assign(&mut self, rhs: CardBitSet)
        ensures
            final(self)@ == old(self)@.union(rhs@),
    {
        *self = self.union(rhs);
    }
}

impl std::ops::BitOrAssign<Card> for CardBitSet {
    /// Add the card.
    fn bitor_assign(&mut self, rhs: Card)
        ensures
            final(self)@ == old(self)@.insert(rhs),
    {
        self.insert(rhs);
    }
}

impl std::ops::BitAndAssign<CardBitSet> for CardBitSet {
    /// Keep only the cards also in `rhs`.
    fn bitand_assign(&mut self, rhs: CardBitSet)
        ensures
            final(self)@ == old(self)@.intersect(rhs@),
    {
        *self = self.intersection(rhs);
    }
}

impl std::ops::BitXorAssign<CardBitSet> for CardBitSet {
    /// Flip the membership of the cards of `rhs`.
    fn bitxor_assign(&mut self, rhs: CardBitSet)
        ensures
            final(self)@ == old(self)@.difference(rhs@).union(rhs@.difference(old(self)@)),
    {
        *self = self.symmetric_difference(rhs);
    }
}

impl std::ops::BitXorAssign<Card> for CardBitSet {
    /// Flip the membership of the card.
    fn bitxor_assign(&mut self, rhs: Card)
        ensures
            final(self)@ == if old(self)@.contains(rhs) {
                old(self)@.remove(rhs)
            } else {
                old(self)@.insert(rhs)
            },
    {
        *self = self.toggle_card(rhs);
    }
}

/// Iterates over the cards of a set in increasing index order.
pub struct CardBitSetIter(u64);

impl View for CardBitSetIter {
    type V = Seq<Card>;

    open spec fn view(&self) -> Seq<Card> {
        cards_below(self.bits(), 52)
    }
}

impl CardBitSetIter {
    /// The cards not yet produced, as a word.
    pub closed spec fn bits(self) -> u64 {
        self.0
    }

    #[verifier::type_invariant]
    closed spec fn inv(self) -> bool {
        self.0 <= full_mask()
    }

    /// The next card, the lowest not yet produced; `None` when none are
    /// left.
    pub fn next(&mut self) -> (r: Option<Card>)
        ensures
            old(self)@.len() == 0 ==> r == None::<Card> && final(self)@ == old(self)@,
            old(self)@.len() > 0 ==> r == Some(old(self)@[0]) && final(self)@ == old(
                self,
            )@.drop_first(),
    {
        proof {
            use_type_invariant(&*self);
        }
        if self.0 == 0 {
            proof {
                lemma_empty_word_cards(0, 52);
            }
            return None;
        }
        let t = self.0.trailing_zeros();
        let ghost x = self.0;
        proof {
            axiom_u64_trailing_zeros(x);
            if t >= 52 {
                lemma_bounded_high_bits(x, t as u64);
            }
            lemma_bounded_ops(x, x, t as u64);
        }
        self.0 = self.0 & !(1u64 << (t as u64));
        proof {
            lemma_pop_lowest(x, t as int, 52);
        }
        Some(Card::from_index(t as u8))
    }
}

/// A word without bits enumerates no cards.
pub proof fn lemma_empty_word_cards(x: u64, n: int)
    requires
        x == 0,
        n <= 64,
    ensures
        cards_below(x, n) == Seq::<Card>::empty(),
    decreases n,
{
    if n > 0 {
        lemma_zero_bits((n - 1) as u64);
        lemma_empty_word_cards(x, n - 1);
    }
}

/// Removing the lowest set bit `t` of `x` removes the first card of the
/// enumeration.
pub proof fn lemma_pop_lowest(x: u64, t: int, n: int)
    requires
        0 <= t < 52,
        t == u64_trailing_zeros(x),
        t < n <= 52,
    ensures
        cards_below(x, n).len() > 0,
        cards_below(x, n)[0] == card_of_index(t),
        cards_below(x & !(1u64 << (t as u64)), n) == cards_below(x, n).drop_first(),
    decreases n,
{
    axiom_u64_trailing_zeros(x);
    let y = x & !(1u64 << (t as u64));
    if n == t + 1 {
        lemma_below_lowest(x, t, t);
        assert forall|j: int| 0 <= j <= t implies !has_bit(y, j) by {
            lemma_bit_clear_single(x, t as u64, j as u64);
            if j < t {
                assert((x >> (j as u64)) & 1u64 == 0u64);
            }
        }
        lemma_below_lowest(y, t, t);
        lemma_bit_clear_single(x, t as u64, t as u64);
        assert(cards_below(x, n) =~= seq![card_of_index(t)]);
        assert(cards_below(y, n) =~= Seq::<Card>::empty());
    } else {
        lemma_pop_lowest(x, t, n - 1);
        lemma_bit_clear_single(x, t as u64, (n - 1) as u64);
        assert(cards_below(y, n) =~= cards_below(x, n).drop_first());
    }
}

/// Below the lowest set bit the enumeration is empty; this holds for the
/// word with that bit cleared as well.
pub proof fn lemma_below_lowest(x: u64, t: int, n: int)
    requires
        0 <= t < 64,
        t == u64_trailing_zeros(x) || (forall|j: int| 0 <= j <= t ==> !has_bit(x, j)),
        0 <= n <= t,
    ensures
        cards_below(x, n) == Seq::<Card>::empty(),
    decreases n,
{
    axiom_u64_trailing_zeros(x);
    if n > 0 {
        lemma_below_lowest(x, t, n - 1);
        assert(!has_bit(x, n - 1)) by {
            if t == u64_trailing_zeros(x) {
                assert((x >> ((n - 1) as u64)) & 1u64 == 0u64);
            }
        }
    }
}

} // verus!
