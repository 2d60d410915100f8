//! Holdem specifics: starting hands and hand range parsing.

pub mod monte_carlo_game;
pub mod parse;
pub mod starting_hand;

pub use self::monte_carlo_game::MonteCarloGame;
pub use self::parse::{InclusiveValueRange, RangeIter, RangeParser};
pub use self::starting_hand::{StartingHand, Suitedness};
