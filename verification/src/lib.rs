//! Poker primitives: cards, card sets, hands, decks, hand ranking,
//! starting hands and range parsing, with their behaviour stated in
//! contracts and proved.

pub mod cards;
pub mod strings;
pub mod rng;
pub mod utils;
pub mod arena;
pub mod holdem;
pub mod hand;
pub mod rank;
pub mod card_iter;
pub mod simulated_icm;
