use vstd::prelude::*;
use crate::cards::card::Card;
use crate::cards::card_bit_set::{all_cards, CardBitSet, CardBitSetIter};

verus! {

/// A deck: a set of cards that can tell quickly whether a card is in it.
#[derive(Debug, Clone, Copy, PartialEq, Eq, Structural)]
pub struct Deck(CardBitSet);

impl View for Deck {
    type V = Set<Card>;

    open spec fn view(&self) -> Set<Card> {
        self.cards()@
    }
}

impl Deck {
    /// The underlying card set.
    pub closed spec fn cards(self) -> CardBitSet {
        self.0
    }

    /// The cards of the deck in increasing index order.
    pub open spec fn card_seq(self) -> Seq<Card> {
        self.cards().card_seq()
    }

    /// A new empty deck.
    pub fn new() -> (r: Self)
        ensures
            r@ == Set::<Card>::empty(),
    {
        Deck(CardBitSet::new())
    }

    /// Is the card in the deck?
    pub fn contains(&self, c: &Card) -> (r: bool)
        ensures
            r == self@.contains(*c),
    {
        self.0.contains(*c)
    }

    /// Remove the card if present; true when it was present.
    pub fn remove(&mut self, c: &Card) -> (r: bool)
        ensures
            r == old(self)@.contains(*c),
            final(self)@ == old(self)@.remove(*c),
    {
        let contains = self.contains(c);
        self.0.remove(*c);
        contains
    }

    /// Add the card; true when it was not already present.
    pub fn insert(&mut self, c: Card) -> (r: bool)
        ensures
            r == !old(self)@.contains(c),
            final(self)@ == old(self)@.insert(c),
    {
        let contains = self.contains(&c);
        self.0.insert(c);
        !contains
    }

    /// How many cards are in the deck.
    pub fn count(&self) -> (r: usize)
        ensures
            r == self@.len(),
    {
        self.0.count()
    }

    /// Have all the cards been dealt?
    pub fn is_empty(&self) -> (r: bool)
        ensures
            r == (self@ == Set::<Card>::empty()),
    {
        self.0.is_empty()
    }

    /// Iterate over the cards in increasing index order.
    pub fn iter(&self) -> (r: CardBitSetIter)
        ensures
            r@ == self.card_seq(),
    {
        self.0.iter()
    }

    /// How many cards are in the deck.
    pub fn len(&self) -> (r: usize)
        ensures
            r == self@.len(),
    {
        self.0.count()
    }

    /// The cards of the deck in increasing index order.
    pub fn to_vec(&self) -> (r: Vec<Card>)
        ensures
            r@ == self.card_seq(),
            r@.to_set() == self@,
            r@.no_duplicates(),
            r.len() == self@.len(),
            r.len() <= 52,
    {
        self.0.bounded();
        proof {
            self.0.lemma_wf();
            crate::cards::card_bit_set::lemma_cards_below_len(self.0.bits(), 52);
        }
        self.0.to_vec()
    }

    /// Deal a random card out of the deck; `None` when it is empty.
    /// The card dealt is one that was in the deck, and it is gone after.
    pub fn deal(&mut self, rng: &mut rand::rngs::StdRng) -> (r: Option<Card>)
        ensures
            r is None <==> old(self)@ == Set::<Card>::empty(),
            r is None ==> final(self)@ == old(self)@,
            r matches Some(c) ==> old(self)@.contains(c) && final(self)@ == old(self)@.remove(c),
    {
        let card = self.0.sample_one(rng);
        match card {
            Some(c) => {
                self.remove(&c);
                Some(c)
            },
            None => None,
        }
    }

    /// The full 52 card deck.
    pub fn full() -> (r: Self)
        ensures
            r@ == all_cards(),
    {
        Deck(CardBitSet::full())
    }
}

impl Default for Deck {
    /// The full 52 card deck.
    fn default() -> (r: Self)
        ensures
            r@ == all_cards(),
    {
        Deck::full()
    }
}

impl From<CardBitSet> for Deck {
    /// The deck holding the set's cards.
    fn from(val: CardBitSet) -> (r: Deck) {
        Deck(val)
    }
}

impl vstd::std_specs::convert::FromSpecImpl<CardBitSet> for Deck {
    open spec fn obeys_from_spec() -> bool {
        true
    }

    open spec fn from_spec(v: CardBitSet) -> Deck {
        Deck::from_card_set(v)
    }
}

impl Deck {
    /// The deck over a card set.
    pub closed spec fn from_card_set(v: CardBitSet) -> Deck {
        Deck(v)
    }

    /// The deck over a card set holds the set's cards.
    pub proof fn lemma_from_card_set(v: CardBitSet)
        ensures
            Deck::from_card_set(v)@ == v@,
    {
    }
}

} // verus!
