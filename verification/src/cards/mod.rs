//! The parts of the library that do not depend on a poker variant.

pub mod bits;
pub mod card;
pub mod card_bit_set;

pub use self::card::{Card, Suit, Value};
pub use self::card_bit_set::{CardBitSet, CardBitSetIter};
pub mod deck;
pub mod error;
pub mod flat_deck;

pub use self::deck::Deck;
pub use self::error::RSPokerError;
pub use self::flat_deck::FlatDeck;
pub mod hand;

pub use self::hand::Hand;
pub mod rank;
pub mod rank_agree;
pub mod rank_best;
pub mod rank_reach;
pub mod rank_defined;

pub use self::rank::{Rank, Rankable};
