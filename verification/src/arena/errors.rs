use vstd::prelude::*;

verus! {

/// Why the game state refused a bet.
#[derive(Debug, PartialEq, Eq, Structural, Clone, Copy, Hash)]
pub enum GameStateError {
    /// The number is not a valid bet.
    BetInvalidSize,
    /// The amount bet doesn't call the previous bet.
    BetSizeDoesntCall,
    /// The amount bet doesn't call our own previous bet.
    BetSizeDoesntCallSelf,
    /// The raise is below the minimum raise size.
    RaiseSizeTooSmall,
    /// The round cannot advance after showdown.
    CantAdvanceRound,
}

/// Why a simulation could not be built.
#[derive(Debug, PartialEq, Eq, Structural, Clone, Copy, Hash)]
pub enum HoldemSimulationError {
    /// The builder needs a game state.
    NeedGameState,
    /// The builder needs agents.
    NeedAgents,
    /// The game state was expected to hold a winner.
    NoWinner,
}

impl GameStateError {
    /// The message that describes the error.
    pub fn message(&self) -> (r: &'static str)
        ensures
            r@ == (match *self {
                GameStateError::BetInvalidSize => "Invalid number for a bet"@,
                GameStateError::BetSizeDoesntCall => "The amount bet doesn't call the previous bet"@,
                GameStateError::BetSizeDoesntCallSelf => "The amount bet doesn't call our own previous bet"@,
                GameStateError::RaiseSizeTooSmall => "The raise is below the minimum raise size"@,
                GameStateError::CantAdvanceRound => "Can't advance after showdown"@,
            }),
    {
        match self {
            GameStateError::BetInvalidSize => "Invalid number for a bet",
            GameStateError::BetSizeDoesntCall => "The amount bet doesn't call the previous bet",
            GameStateError::BetSizeDoesntCallSelf => "The amount bet doesn't call our own previous bet",
            GameStateError::RaiseSizeTooSmall => "The raise is below the minimum raise size",
            GameStateError::CantAdvanceRound => "Can't advance after showdown",
        }
    }
}

impl HoldemSimulationError {
    /// The message that describes the error.
    pub fn message(&self) -> (r: &'static str)
        ensures
            r@ == (match *self {
                HoldemSimulationError::NeedGameState => "Builder needs a game state"@,
                HoldemSimulationError::NeedAgents => "Builder needs agents"@,
                HoldemSimulationError::NoWinner => "Expected GameState to contain a winner (agent with all the money)"@,
            }),
    {
        match self {
            HoldemSimulationError::NeedGameState => "Builder needs a game state",
            HoldemSimulationError::NeedAgents => "Builder needs agents",
            HoldemSimulationError::NoWinner => "Expected GameState to contain a winner (agent with all the money)",
        }
    }
}

} // verus!
