use vstd::prelude::*;
use crate::cards::card::{
    card_chars, lemma_char_roundtrip, suit_from_char_spec, value_from_char_spec, Card, Suit, Value,
};
use crate::cards::card_bit_set::{CardBitSet, CardBitSetIter};
use crate::cards::error::RSPokerError;
use crate::strings::chars_of;

verus! {

/// What parsing `s` as a run of two-character cards ("AdKh...") gives,
/// starting from the cards `acc`: each pair is a value then a suit, and
/// a card may not appear twice.
pub open spec fn parse_cards_spec(s: Seq<char>, acc: Set<Card>) -> Result<Set<Card>, RSPokerError>
    decreases s.len(),
{
    if s.len() == 0 {
        Ok(acc)
    } else if value_from_char_spec(s[0]) is None {
        Err(RSPokerError::UnexpectedValueChar)
    } else if s.len() < 2 || suit_from_char_spec(s[1]) is None {
        Err(RSPokerError::UnexpectedSuitChar)
    } else {
        let c = Card {
            value: value_from_char_spec(s[0])->Some_0,
            suit: suit_from_char_spec(s[1])->Some_0,
        };
        if acc.contains(c) {
            Err(RSPokerError::DuplicateCardInHand(c))
        } else {
            parse_cards_spec(s.skip(2), acc.insert(c))
        }
    }
}

/// Reading back the two characters that name a card gives the hand of
/// that one card.
pub proof fn lemma_card_string_roundtrip(c: Card)
    ensures
        parse_cards_spec(card_chars(c), Set::empty()) == Ok::<Set<Card>, RSPokerError>(
            Set::empty().insert(c),
        ),
{
    lemma_char_roundtrip(c.value, c.suit);
    let s = card_chars(c);
    assert(s.skip(2) =~= Seq::<char>::empty());
    assert(Card { value: c.value, suit: c.suit } == c);
    assert(parse_cards_spec(s.skip(2), Set::empty().insert(c)) == Ok::<Set<Card>, RSPokerError>(
        Set::empty().insert(c),
    ));
}

/// A set of cards held by a player or on the board.
#[derive(Debug, Clone, Copy, PartialEq, Eq, Structural, Hash)]
pub struct Hand(CardBitSet);

impl View for Hand {
    type V = Set<Card>;

    open spec fn view(&self) -> Set<Card> {
        self.card_set()@
    }
}

impl Hand {
    /// The underlying card set.
    pub closed spec fn card_set(self) -> CardBitSet {
        self.0
    }

    /// The cards of the hand in increasing index order.
    pub open spec fn card_seq(self) -> Seq<Card> {
        self.card_set().card_seq()
    }

    /// A new empty hand.
    pub fn new() -> (r: Self)
        ensures
            r@ == Set::<Card>::empty(),
    {
        Hand(CardBitSet::new())
    }

    /// The hand holding the given cards.
    pub fn new_with_cards(cards: Vec<Card>) -> (r: Self)
        ensures
            r@ == cards@.to_set(),
    {
        let mut bitset = CardBitSet::new();
        let mut i: usize = 0;
        while i < cards.len()
            invariant
                i <= cards.len(),
                bitset@ == cards@.take(i as int).to_set(),
            decreases cards.len() - i,
        {
            bitset.insert(cards[i]);
            proof {
                assert(cards@.take(i + 1) =~= cards@.take(i as int).push(cards@[i as int]));
                cards@.take(i as int).lemma_push_to_set_commute(cards@[i as int]);
            }
            i = i + 1;
        }
        proof {
            assert(cards@.take(cards.len() as int) =~= cards@);
        }
        Hand(bitset)
    }

    /// Is the card in the hand?
    pub fn contains(&self, c: &Card) -> (r: bool)
        ensures
            r == self@.contains(*c),
    {
        self.0.contains(*c)
    }

    /// Remove the card if present; true when it was present.
    pub fn remove(&mut self, c: &Card) -> (r: bool)
        ensures
            r == old(self)@.contains(*c),
            final(self)@ == old(self)@.remove(*c),
    {
        let contains = self.contains(c);
        self.0.remove(*c);
        contains
    }

    /// Add the card; true when it was not already present.
    pub fn insert(&mut self, c: Card) -> (r: bool)
        ensures
            r == !old(self)@.contains(c),
            final(self)@ == old(self)@.insert(c),
    {
        let contains = self.contains(&c);
        self.0.insert(c);
        !contains
    }

    /// How many cards are in the hand.
    pub fn count(&self) -> (r: usize)
        ensures
            r == self@.len(),
            r == self.card_seq().len(),
            r <= 52,
            self@.finite(),
    {
        self.0.count()
    }

    /// Is the hand empty?
    pub fn is_empty(&self) -> (r: bool)
        ensures
            r == (self@ == Set::<Card>::empty()),
    {
        self.0.is_empty()
    }

    /// Iterate over the cards in increasing index order.
    pub fn iter(&self) -> (r: CardBitSetIter)
        ensures
            r@ == self.card_seq(),
    {
        self.0.iter()
    }

    /// Remove every card.
    pub fn clear(&mut self)
        ensures
            final(self)@ == Set::<Card>::empty(),
    {
        self.0.clear();
    }

    /// The cards of the hand from the highest index to the lowest, each
    /// once.
    pub fn cards(&self) -> (r: Vec<Card>)
        ensures
            r@ == self.card_seq().reverse(),
            r@.no_duplicates(),
            r@.len() == self@.len(),
            r@.to_set() == self@,
    {
        self.0.bounded();
        proof {
            self.0.lemma_wf();
            assert(self.card_seq().reverse().to_set() =~= self@) by {
                assert forall|c: Card| self.card_seq().reverse().contains(c) <==> self.card_seq().contains(c) by {
                    let s = self.card_seq();
                    if s.contains(c) {
                        let i = choose|i: int| 0 <= i < s.len() && s[i] == c;
                        assert(s.reverse()[s.len() - 1 - i] == c);
                    }
                    if s.reverse().contains(c) {
                        let i = choose|i: int| 0 <= i < s.len() && s.reverse()[i] == c;
                        assert(s[s.len() - 1 - i] == c);
                    }
                }
            }
            assert(self.card_seq().reverse().no_duplicates()) by {
                let s = self.card_seq();
                assert forall|i: int, j: int| 0 <= i < j < s.len() implies s.reverse()[i] != s.reverse()[j] by {
                    assert(s.reverse()[i] == s[s.len() - 1 - i]);
                    assert(s.reverse()[j] == s[s.len() - 1 - j]);
                }
            }
        }
        let up = self.0.to_vec();
        let mut out: Vec<Card> = Vec::new();
        let mut i: usize = up.len();
        while i > 0
            invariant
                i <= up.len(),
                up@ == self.card_seq(),
                out@ == up@.subrange(i as int, up.len() as int).reverse(),
            decreases i,
        {
            i = i - 1;
            out.push(up[i]);
            proof {
                assert(up@.subrange(i as int, up.len() as int).reverse() =~= up@.subrange(
                    (i + 1) as int,
                    up.len() as int,
                ).reverse().push(up@[i as int]));
            }
        }
        proof {
            assert(up@.subrange(0, up.len() as int) =~= up@);
        }
        out
    }

    /// Whether the two hands hold the same cards.
    pub(crate) fn same_cards(&self, other: &Hand) -> (r: bool)
        ensures
            r == (self@ == other@),
    {
        self.0.bounded();
        other.0.bounded();
        proof {
            self.0.lemma_view_eq(other.0);
        }
        self.0 == other.0
    }

    /// The cards in both hands.
    pub fn intersection(self, rhs: Hand) -> (r: Hand)
        ensures
            r@ == self@.intersect(rhs@),
            r == Hand::from_card_set(self.card_set().intersection_spec(rhs.card_set())),
    {
        Hand(self.0.intersection(rhs.0))
    }

    /// Parse a run of two-character cards such as "AdKh9s"; values and
    /// suits ignore ASCII case. Fails on a bad value or suit character
    /// and on a repeated card.
    pub fn new_from_str(hand_string: &str) -> (r: Result<Self, RSPokerError>)
        ensures
            r matches Ok(h) ==> parse_cards_spec(hand_string@, Set::empty()) == Ok::<Set<Card>, RSPokerError>(h@),
            r matches Err(e) ==> parse_cards_spec(hand_string@, Set::empty()) == Err::<Set<Card>, RSPokerError>(e),
    {
        let chars = chars_of(hand_string);
        let mut bitset = CardBitSet::new();
        let mut i: usize = 0;
        proof {
            assert(chars@.skip(0) =~= chars@);
        }
        while i < chars.len()
            invariant
                i <= chars.len(),
                chars@ == hand_string@,
                parse_cards_spec(chars@, Set::empty()) == parse_cards_spec(
                    chars@.skip(i as int),
                    bitset@,
                ),
            decreases chars.len() - i,
        {
            let ghost rest = chars@.skip(i as int);
            assert(rest.len() > 0 && rest[0] == chars@[i as int]);
            assert(i + 1 < chars.len() ==> rest.len() >= 2 && rest[1] == chars@[i + 1]);
            let v = match Value::from_char(chars[i]) {
                Some(v) => v,
                None => {
                    return Err(RSPokerError::UnexpectedValueChar);
                },
            };
            if i + 1 >= chars.len() {
                return Err(RSPokerError::UnexpectedSuitChar);
            }
            let s = match Suit::from_char(chars[i + 1]) {
                Some(s) => s,
                None => {
                    return Err(RSPokerError::UnexpectedSuitChar);
                },
            };
            let c = Card { value: v, suit: s };
            if bitset.contains(c) {
                return Err(RSPokerError::DuplicateCardInHand(c));
            }
            bitset.insert(c);
            proof {
                assert(rest.skip(2) =~= chars@.skip(i + 2));
            }
            i = i + 2;
        }
        proof {
            assert(chars@.skip(i as int) =~= Seq::<char>::empty());
        }
        Ok(Hand(bitset))
    }
}

impl Default for Hand {
    /// The empty hand.
    fn default() -> (r: Self)
        ensures
            r@ == Set::<Card>::empty(),
    {
        Hand::new()
    }
}

impl std::ops::BitAnd<Hand> for Hand {
    type Output = Hand;

    /// The cards in both hands.
    fn bitand(self, rhs: Self) -> (r: Hand) {
        self.intersection(rhs)
    }
}

impl vstd::std_specs::ops::BitAndSpecImpl<Hand> for Hand {
    open spec fn obeys_bitand_spec() -> bool {
        true
    }

    open spec fn bitand_req(self, rhs: Hand) -> bool {
        true
    }

    open spec fn bitand_spec(self, rhs: Hand) -> Hand {
        Hand::from_card_set(self.card_set().intersection_spec(rhs.card_set()))
    }
}

impl std::ops::BitAndAssign<Hand> for Hand {
    /// Keep only the cards also in `rhs`.
    fn bitand_assign(&mut self, rhs: Self)
        ensures
            final(self)@ == old(self)@.intersect(rhs@),
    {
        *self = self.intersection(rhs);
    }
}

impl Hand {
    /// The hand over a card set.
    pub closed spec fn from_card_set(v: CardBitSet) -> Hand {
        Hand(v)
    }
}

impl From<Hand> for CardBitSet {
    /// The hand's card set.
    fn from(val: Hand) -> (r: CardBitSet) {
        val.0
    }
}

impl vstd::std_specs::convert::FromSpecImpl<Hand> for CardBitSet {
    open spec fn obeys_from_spec() -> bool {
        true
    }

    open spec fn from_spec(v: Hand) -> CardBitSet {
        v.card_set()
    }
}

} // verus!
