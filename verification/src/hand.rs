//! A hand kept as a plain list of cards, in the order they were added.

use vstd::prelude::*;
use crate::cards::card::Card;

verus! {

/// A list of cards. No check is made on what is added.
pub struct Hand {
    cards: Vec<Card>,
}

impl View for Hand {
    type V = Seq<Card>;

    closed spec fn view(&self) -> Seq<Card> {
        self.cards@
    }
}

impl Hand {
    /// A new empty hand.
    pub fn new() -> (r: Hand)
        ensures
            r@ == Seq::<Card>::empty(),
    {
        Hand { cards: Vec::new() }
    }

    /// The hand holding the given cards, in the given order.
    pub fn new_with_cards(cards: Vec<Card>) -> (r: Hand)
        ensures
            r@ == cards@,
    {
        Hand { cards }
    }

    /// Add a card at the end of the hand. No check is made at all.
    pub fn push(&mut self, c: Card)
        ensures
            final(self)@ == old(self)@.push(c),
    {
        self.cards.push(c);
    }

    /// How many cards the hand holds.
    pub fn len(&self) -> (r: usize)
        ensures
            r == self@.len(),
    {
        self.cards.len()
    }

    /// The cards of the hand, in order.
    pub fn cards(&self) -> (r: Vec<Card>)
        ensures
            r@ == self@,
    {
        let mut out: Vec<Card> = Vec::new();
        let mut i: usize = 0;
        while i < self.cards.len()
            invariant
                i <= self.cards.len(),
                out@ == self.cards@.take(i as int),
            decreases self.cards.len() - i,
        {
            out.push(self.cards[i]);
            proof {
                assert(out@ =~= self.cards@.take(i + 1));
            }
            i = i + 1;
        }
        proof {
            assert(self.cards@.take(i as int) =~= self.cards@);
        }
        out
    }
}

impl Default for Hand {
    fn default() -> (r: Hand)
        ensures
            r@ == Seq::<Card>::empty(),
    {
        Hand::new()
    }
}

} // verus!
