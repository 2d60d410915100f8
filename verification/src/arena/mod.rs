//! The state of a holdem hand as it is played: chips, bets, who is still
//! in, and whose turn it is, with every bet validated.

pub mod errors;
pub mod game_state;

pub use self::errors::{GameStateError, HoldemSimulationError};
pub use self::game_state::{GameState, Round, RoundData};
pub mod gamestate_iterator_gen;

pub use self::gamestate_iterator_gen::{
    FixedGameStateIteratorGen, GameStateIteratorGen, PerRoundFixedGameStateIteratorGen,
};
