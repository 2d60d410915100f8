use vstd::prelude::*;
use crate::cards::card::{card_chars, Card};
use crate::strings::string_push;

verus! {

/// The errors of the card-level parsers.
#[derive(Debug, Clone, Copy, PartialEq, Eq, Structural, Hash)]
pub enum RSPokerError {
    /// A character that should name a value does not.
    UnexpectedValueChar,
    /// A character that should name a suit does not.
    UnexpectedSuitChar,
    /// The input ended before a required character.
    TooFewChars,
    /// Holdem hands never have more than 7 cards.
    HoldemHandSize,
    /// The card was already in the hand.
    DuplicateCardInHand(Card),
    /// Characters are left over after parsing.
    UnparsedCharsRemaining,
    /// A range is offsuit while its cards share a suit.
    OffSuitWithMatchingSuit,
    /// A range is suited while its cards have different suits.
    SuitedWithNoMatchingSuit,
    /// The plus modifier is used where it has no meaning.
    InvalidPlusModifier,
    /// The gap between the cards of a dashed range is not constant.
    InvalidGap,
    /// Pairs cannot be suited.
    InvalidSuitedPairs,
}

impl RSPokerError {
    /// The message that describes the error; a repeated card is named by
    /// its two characters.
    pub fn message(&self) -> (r: String)
        ensures
            r@ == error_message(*self),
    {
        match *self {
            RSPokerError::UnexpectedValueChar => String::from_str("Unable to parse value"),
            RSPokerError::UnexpectedSuitChar => String::from_str("Unable to parse suit"),
            RSPokerError::TooFewChars => String::from_str("Error reading characters while parsing"),
            RSPokerError::HoldemHandSize => String::from_str("Holdem hands should never have more than 7 cards in them."),
            RSPokerError::UnparsedCharsRemaining => String::from_str("Extra un-used characters found after parsing"),
            RSPokerError::OffSuitWithMatchingSuit => String::from_str("Hand range can't be offsuit while cards are suiterd"),
            RSPokerError::SuitedWithNoMatchingSuit => String::from_str("Hand range is suited while cards are not."),
            RSPokerError::InvalidPlusModifier => String::from_str("Invalid use of the plus modifier"),
            RSPokerError::InvalidGap => String::from_str("The gap between cards must be constant when defining a hand range."),
            RSPokerError::InvalidSuitedPairs => String::from_str("Pairs can't be suited."),
            RSPokerError::DuplicateCardInHand(c) => {
                let mut s = String::from_str("Card already added to hand ");
                string_push(&mut s, c.value.to_char());
                string_push(&mut s, c.suit.to_char());
                proof {
                    assert(s@ =~= "Card already added to hand "@ + card_chars(c));
                }
                s
            },
        }
    }
}

/// The message of each error.
pub open spec fn error_message(e: RSPokerError) -> Seq<char> {
    match e {
            RSPokerError::UnexpectedValueChar => "Unable to parse value"@,
            RSPokerError::UnexpectedSuitChar => "Unable to parse suit"@,
            RSPokerError::TooFewChars => "Error reading characters while parsing"@,
            RSPokerError::HoldemHandSize => "Holdem hands should never have more than 7 cards in them."@,
            RSPokerError::UnparsedCharsRemaining => "Extra un-used characters found after parsing"@,
            RSPokerError::OffSuitWithMatchingSuit => "Hand range can't be offsuit while cards are suiterd"@,
            RSPokerError::SuitedWithNoMatchingSuit => "Hand range is suited while cards are not."@,
            RSPokerError::InvalidPlusModifier => "Invalid use of the plus modifier"@,
            RSPokerError::InvalidGap => "The gap between cards must be constant when defining a hand range."@,
            RSPokerError::InvalidSuitedPairs => "Pairs can't be suited."@,
            RSPokerError::DuplicateCardInHand(c) => "Card already added to hand "@ + card_chars(c),
    }
}

} // verus!
