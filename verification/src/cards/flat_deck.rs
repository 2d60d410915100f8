use vstd::prelude::*;
use crate::cards::card::Card;
use crate::cards::card_bit_set::all_cards;
use crate::cards::deck::Deck;
use crate::rng::{sample_cards, shuffle_cards};

verus! {

/// A deck kept as a list, so it can be shuffled and dealt from the end.
#[derive(Debug, Clone)]
pub struct FlatDeck {
    cards: Vec<Card>,
}

impl View for FlatDeck {
    type V = Seq<Card>;

    closed spec fn view(&self) -> Seq<Card> {
        self.cards@
    }
}

impl FlatDeck {
    /// How many cards are left.
    pub fn len(&self) -> (r: usize)
        ensures
            r == self@.len(),
    {
        self.cards.len()
    }

    /// Whether no card is left.
    pub fn is_empty(&self) -> (r: bool)
        ensures
            r == (self@.len() == 0),
    {
        self.cards.len() == 0
    }

    /// `n` cards from distinct places of the deck, chosen at random (all
    /// of them when fewer are left). The deck is unchanged.
    pub fn sample(&self, n: usize) -> (r: Vec<Card>)
        ensures
            r@.len() == if n < self@.len() { n as int } else { self@.len() as int },
            r@.to_multiset().subset_of(self@.to_multiset()),
    {
        sample_cards(&self.cards, n)
    }

    /// Put the cards in a random order.
    pub fn shuffle(&mut self)
        ensures
            final(self)@.to_multiset() == old(self)@.to_multiset(),
            final(self)@.len() == old(self)@.len(),
    {
        shuffle_cards(&mut self.cards);
    }

    /// Take the last card off the deck; `None` when it is empty.
    pub fn deal(&mut self) -> (r: Option<Card>)
        ensures
            old(self)@.len() == 0 ==> r is None && final(self)@ == old(self)@,
            old(self)@.len() > 0 ==> r == Some(old(self)@.last()) && final(self)@ == old(
                self,
            )@.drop_last(),
    {
        self.cards.pop()
    }

    /// The card at position `index`.
    pub fn get(&self, index: usize) -> (r: Card)
        requires
            index < self@.len(),
        ensures
            r == self@[index as int],
    {
        self.cards[index]
    }

    /// The cards in order.
    pub fn cards(&self) -> (r: &[Card])
        ensures
            r@ == self@,
    {
        self.cards.as_slice()
    }

    /// The deck of the given cards, last one dealt first.
    pub fn from_vec(value: Vec<Card>) -> (r: FlatDeck)
        ensures
            r@ == value@,
    {
        FlatDeck { cards: value }
    }

    /// The cards of the deck, in increasing index order.
    pub fn from_deck(value: &Deck) -> (r: FlatDeck)
        ensures
            r@ == value.card_seq(),
            r@.to_set() == value@,
            r@.no_duplicates(),
            r@.len() <= 52,
    {
        FlatDeck { cards: value.to_vec() }
    }
}

impl Default for FlatDeck {
    /// All 52 cards, shuffled: every card exactly once.
    fn default() -> (r: FlatDeck)
        ensures
            forall|c: Card| r@.to_multiset().count(c) == 1,
    {
        let deck = Deck::full();
        let mut cards = deck.to_vec();
        proof {
            cards@.lemma_multiset_has_no_duplicates();
            assert forall|c: Card| cards@.to_multiset().count(c) == 1 by {
                assert(all_cards().contains(c));
                assert(cards@.to_set().contains(c));
                vstd::seq_lib::to_multiset_contains(cards@, c);
            }
        }
        shuffle_cards(&mut cards);
        FlatDeck { cards }
    }
}

} // verus!
