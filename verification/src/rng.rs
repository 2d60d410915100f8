//! The random number generator the library draws from, and the one draw
//! it makes.
use vstd::prelude::*;
use rand::seq::{IndexedRandom, IteratorRandom, SliceRandom};
use rand::Rng;
use crate::cards::card::Card;

verus! {

/// rand's standard generator, carried through the library unopened.
#[verifier::external_type_specification]
#[verifier::external_body]
pub struct ExStdRng(rand::rngs::StdRng);

/// `Rng::random_range` from rand on the range `0..n`: a number drawn
/// from `0..n`. The contract states only the range; which number comes
/// out depends on the generator's state, and how it moves that state is
/// left unsaid. rand panics on an empty range, so `n` must be positive.
#[verifier::external_body]
pub(crate) fn random_below(rng: &mut rand::rngs::StdRng, n: usize) -> (r: usize)
    requires
        n > 0,
    ensures
        r < n,
{
    rng.random_range(0..n)
}

/// `SliceRandom::shuffle` from rand, with the thread's generator
/// (`rand::rng`): the cards are put in a random order. The contract
/// states that the same cards remain, as often as before; which order
/// comes out is chance.
#[verifier::external_body]
pub(crate) fn shuffle_cards(cards: &mut Vec<Card>)
    ensures
        final(cards)@.to_multiset() == old(cards)@.to_multiset(),
        final(cards)@.len() == old(cards)@.len(),
{
    cards.shuffle(&mut rand::rng());
}

/// `IndexedRandom::choose_multiple` from rand, with the thread's
/// generator, collected: `amount` of the cards (all of them when there
/// are fewer), taken from distinct positions. The contract states the
/// number and that each card comes from the list no more often than it
/// is there; which cards, and their order, are chance.
#[verifier::external_body]
pub(crate) fn sample_cards(cards: &Vec<Card>, amount: usize) -> (r: Vec<Card>)
    ensures
        r@.len() == if amount < cards@.len() { amount as int } else { cards@.len() as int },
        r@.to_multiset().subset_of(cards@.to_multiset()),
{
    cards.choose_multiple(&mut rand::rng(), amount).cloned().collect()
}

/// `IteratorRandom::choose_multiple` from rand, with the thread's
/// generator: `amount` of the items (all of them when there are fewer),
/// taken from distinct positions. The contract states the number and
/// that each item comes from the list no more often than it is there;
/// which items, and their order, are chance.
#[verifier::external_body]
pub(crate) fn choose_indexes(items: Vec<usize>, amount: usize) -> (r: Vec<usize>)
    ensures
        r@.len() == if amount < items@.len() { amount as int } else { items@.len() as int },
        r@.to_multiset().subset_of(items@.to_multiset()),
{
    items.into_iter().choose_multiple(&mut rand::rng(), amount)
}

/// `Rng::random::<bool>` from rand, with the thread's generator: true or
/// false, each with probability one half. Which one comes out is chance,
/// so the contract states nothing.
#[verifier::external_body]
pub(crate) fn coin_flip() -> (r: bool) {
    rand::rng().random::<bool>()
}

} // verus!
