use vstd::prelude::*;
use crate::strings::string_push;

verus! {

/// Card rank or value. The declaration order is the strength order,
/// from `Two` (index 0) to `Ace` (index 12).
#[derive(Debug, Clone, Copy, PartialEq, Eq, Structural, PartialOrd, Ord, Hash)]
pub enum Value {
    /// 2
    Two,
    /// 3
    Three,
    /// 4
    Four,
    /// 5
    Five,
    /// 6
    Six,
    /// 7
    Seven,
    /// 8
    Eight,
    /// 9
    Nine,
    /// T
    Ten,
    /// J
    Jack,
    /// Q
    Queen,
    /// K
    King,
    /// A
    Ace,
}

/// The index of a value: its face value minus two.
pub open spec fn value_index(v: Value) -> nat {
    match v {
        Value::Two => 0,
        Value::Three => 1,
        Value::Four => 2,
        Value::Five => 3,
        Value::Six => 4,
        Value::Seven => 5,
        Value::Eight => 6,
        Value::Nine => 7,
        Value::Ten => 8,
        Value::Jack => 9,
        Value::Queen => 10,
        Value::King => 11,
        Value::Ace => 12,
    }
}

/// The value with a given index; indexes above 12 give `Ace`.
pub open spec fn value_of_index(i: int) -> Value {
    if i <= 0 {
        Value::Two
    } else if i == 1 {
        Value::Three
    } else if i == 2 {
        Value::Four
    } else if i == 3 {
        Value::Five
    } else if i == 4 {
        Value::Six
    } else if i == 5 {
        Value::Seven
    } else if i == 6 {
        Value::Eight
    } else if i == 7 {
        Value::Nine
    } else if i == 8 {
        Value::Ten
    } else if i == 9 {
        Value::Jack
    } else if i == 10 {
        Value::Queen
    } else if i == 11 {
        Value::King
    } else {
        Value::Ace
    }
}

/// The character that names a value.
pub open spec fn value_char(v: Value) -> char {
    match v {
        Value::Ace => 'A',
        Value::King => 'K',
        Value::Queen => 'Q',
        Value::Jack => 'J',
        Value::Ten => 'T',
        Value::Nine => '9',
        Value::Eight => '8',
        Value::Seven => '7',
        Value::Six => '6',
        Value::Five => '5',
        Value::Four => '4',
        Value::Three => '3',
        Value::Two => '2',
    }
}

/// The value a character names, ignoring ASCII case.
pub open spec fn value_from_char_spec(c: char) -> Option<Value> {
    if c == 'A' || c == 'a' {
        Some(Value::Ace)
    } else if c == 'K' || c == 'k' {
        Some(Value::King)
    } else if c == 'Q' || c == 'q' {
        Some(Value::Queen)
    } else if c == 'J' || c == 'j' {
        Some(Value::Jack)
    } else if c == 'T' || c == 't' {
        Some(Value::Ten)
    } else if c == '9' {
        Some(Value::Nine)
    } else if c == '8' {
        Some(Value::Eight)
    } else if c == '7' {
        Some(Value::Seven)
    } else if c == '6' {
        Some(Value::Six)
    } else if c == '5' {
        Some(Value::Five)
    } else if c == '4' {
        Some(Value::Four)
    } else if c == '3' {
        Some(Value::Three)
    } else if c == '2' {
        Some(Value::Two)
    } else {
        None
    }
}

/// All thirteen values in increasing order.
pub open spec fn all_values() -> Seq<Value> {
    Seq::new(13, |i: int| value_of_index(i))
}

impl Value {
    /// The index of this value, `Two` being 0 and `Ace` 12.
    pub fn to_u8(&self) -> (r: u8)
        ensures
            r == value_index(*self),
    {
        match *self {
            Value::Two => 0,
            Value::Three => 1,
            Value::Four => 2,
            Value::Five => 3,
            Value::Six => 4,
            Value::Seven => 5,
            Value::Eight => 6,
            Value::Nine => 7,
            Value::Ten => 8,
            Value::Jack => 9,
            Value::Queen => 10,
            Value::King => 11,
            Value::Ace => 12,
        }
    }

    /// The value with index `v`; anything above 12 is clamped to `Ace`.
    pub fn from_u8(v: u8) -> (r: Value)
        ensures
            r == value_of_index(v as int),
            v <= 12 ==> value_index(r) == v,
            v > 12 ==> r == Value::Ace,
    {
        match v {
            0 => Value::Two,
            1 => Value::Three,
            2 => Value::Four,
            3 => Value::Five,
            4 => Value::Six,
            5 => Value::Seven,
            6 => Value::Eight,
            7 => Value::Nine,
            8 => Value::Ten,
            9 => Value::Jack,
            10 => Value::Queen,
            11 => Value::King,
            _ => Value::Ace,
        }
    }

    /// All of the values, in increasing order.
    pub fn values() -> (r: [Value; 13])
        ensures
            r@ == all_values(),
    {
        let r = [
            Value::Two,
            Value::Three,
            Value::Four,
            Value::Five,
            Value::Six,
            Value::Seven,
            Value::Eight,
            Value::Nine,
            Value::Ten,
            Value::Jack,
            Value::Queen,
            Value::King,
            Value::Ace,
        ];
        assert(r@ =~= all_values());
        r
    }

    /// Parse a value from a character, ignoring ASCII case.
    /// `None` when the character names no value.
    pub fn from_char(c: char) -> (r: Option<Value>)
        ensures
            r == value_from_char_spec(c),
    {
        match c {
            'A' | 'a' => Some(Value::Ace),
            'K' | 'k' => Some(Value::King),
            'Q' | 'q' => Some(Value::Queen),
            'J' | 'j' => Some(Value::Jack),
            'T' | 't' => Some(Value::Ten),
            '9' => Some(Value::Nine),
            '8' => Some(Value::Eight),
            '7' => Some(Value::Seven),
            '6' => Some(Value::Six),
            '5' => Some(Value::Five),
            '4' => Some(Value::Four),
            '3' => Some(Value::Three),
            '2' => Some(Value::Two),
            _ => None,
        }
    }

    /// The character that names this value.
    pub fn to_char(&self) -> (r: char)
        ensures
            r == value_char(*self),
    {
        match *self {
            Value::Ace => 'A',
            Value::King => 'K',
            Value::Queen => 'Q',
            Value::Jack => 'J',
            Value::Ten => 'T',
            Value::Nine => '9',
            Value::Eight => '8',
            Value::Seven => '7',
            Value::Six => '6',
            Value::Five => '5',
            Value::Four => '4',
            Value::Three => '3',
            Value::Two => '2',
        }
    }

    /// How many ranks separate the two values.
    pub fn gap(&self, other: &Value) -> (r: u8)
        ensures
            r as int == if value_index(*self) >= value_index(*other) {
                value_index(*self) - value_index(*other)
            } else {
                value_index(*other) - value_index(*self)
            },
    {
        let a = self.to_u8();
        let b = other.to_u8();
        if a >= b {
            a - b
        } else {
            b - a
        }
    }
}


/// The four suits. Their order only serves to sort cards.
#[derive(Debug, Clone, Copy, PartialEq, Eq, Structural, PartialOrd, Ord, Hash)]
pub enum Suit {
    /// Spades
    Spade,
    /// Clubs
    Club,
    /// Hearts
    Heart,
    /// Diamonds
    Diamond,
}

/// The index of a suit: Spade 0, Club 1, Heart 2, Diamond 3.
pub open spec fn suit_index(s: Suit) -> nat {
    match s {
        Suit::Spade => 0,
        Suit::Club => 1,
        Suit::Heart => 2,
        Suit::Diamond => 3,
    }
}

/// The suit with a given index; indexes above 3 give `Diamond`.
pub open spec fn suit_of_index(i: int) -> Suit {
    if i <= 0 {
        Suit::Spade
    } else if i == 1 {
        Suit::Club
    } else if i == 2 {
        Suit::Heart
    } else {
        Suit::Diamond
    }
}

/// The character that names a suit.
pub open spec fn suit_char(s: Suit) -> char {
    match s {
        Suit::Diamond => 'd',
        Suit::Spade => 's',
        Suit::Heart => 'h',
        Suit::Club => 'c',
    }
}

/// The suit a character names, ignoring ASCII case.
pub open spec fn suit_from_char_spec(c: char) -> Option<Suit> {
    if c == 'd' || c == 'D' {
        Some(Suit::Diamond)
    } else if c == 's' || c == 'S' {
        Some(Suit::Spade)
    } else if c == 'h' || c == 'H' {
        Some(Suit::Heart)
    } else if c == 'c' || c == 'C' {
        Some(Suit::Club)
    } else {
        None
    }
}

/// All four suits in index order.
pub open spec fn all_suits() -> Seq<Suit> {
    Seq::new(4, |i: int| suit_of_index(i))
}

impl Suit {
    /// All of the suits, in index order.
    pub fn suits() -> (r: [Suit; 4])
        ensures
            r@ == all_suits(),
    {
        let r = [Suit::Spade, Suit::Club, Suit::Heart, Suit::Diamond];
        assert(r@ =~= all_suits());
        r
    }

    /// The index of this suit.
    pub fn to_u8(&self) -> (r: u8)
        ensures
            r == suit_index(*self),
    {
        match *self {
            Suit::Spade => 0,
            Suit::Club => 1,
            Suit::Heart => 2,
            Suit::Diamond => 3,
        }
    }

    /// The suit with index `s`; anything above 3 is clamped to `Diamond`.
    pub fn from_u8(s: u8) -> (r: Suit)
        ensures
            r == suit_of_index(s as int),
            s <= 3 ==> suit_index(r) == s,
            s > 3 ==> r == Suit::Diamond,
    {
        match s {
            0 => Suit::Spade,
            1 => Suit::Club,
            2 => Suit::Heart,
            _ => Suit::Diamond,
        }
    }

    /// Parse a suit from a character, ignoring ASCII case.
    /// `None` when the character names no suit.
    pub fn from_char(s: char) -> (r: Option<Suit>)
        ensures
            r == suit_from_char_spec(s),
    {
        match s {
            'd' | 'D' => Some(Suit::Diamond),
            's' | 'S' => Some(Suit::Spade),
            'h' | 'H' => Some(Suit::Heart),
            'c' | 'C' => Some(Suit::Club),
            _ => None,
        }
    }

    /// The character that names this suit.
    pub fn to_char(&self) -> (r: char)
        ensures
            r == suit_char(*self),
    {
        match *self {
            Suit::Diamond => 'd',
            Suit::Spade => 's',
            Suit::Heart => 'h',
            Suit::Club => 'c',
        }
    }
}

/// A card: a value and a suit. Cards are ordered by value, then suit.
#[derive(Debug, Clone, Copy, PartialEq, Eq, Structural, PartialOrd, Ord, Hash)]
pub struct Card {
    /// The face value of this card.
    pub value: Value,
    /// The suit of this card.
    pub suit: Suit,
}

/// The index of a card among the 52: thirteen times its suit index plus
/// its value index, so the cards of one suit are thirteen in a row.
pub open spec fn card_index(c: Card) -> int {
    (suit_index(c.suit) * 13 + value_index(c.value)) as int
}

/// The card with index `i` (suit index `i / 13`, value index `i % 13`);
/// suit indexes above 3 clamp to `Diamond`.
pub open spec fn card_of_index(i: int) -> Card {
    Card { value: value_of_index(i % 13), suit: suit_of_index(i / 13) }
}

/// The two characters that name a card, value first.
pub open spec fn card_chars(c: Card) -> Seq<char> {
    seq![value_char(c.value), suit_char(c.suit)]
}

impl Card {
    /// A card of the given value and suit.
    pub fn new(value: Value, suit: Suit) -> (r: Card)
        ensures
            r == (Card { value, suit }),
    {
        Card { value, suit }
    }

    /// The index of this card among the 52.
    pub fn index(&self) -> (r: u8)
        ensures
            r as int == card_index(*self),
            r < 52,
    {
        self.suit.to_u8() * 13 + self.value.to_u8()
    }

    /// The card with index `i`; see `card_of_index`.
    pub fn from_index(i: u8) -> (r: Card)
        ensures
            r == card_of_index(i as int),
    {
        Card { value: Value::from_u8(i % 13), suit: Suit::from_u8(i / 13) }
    }

    /// The two characters that name this card, such as "Ac".
    pub fn to_string(&self) -> (r: String)
        ensures
            r@ == card_chars(*self),
    {
        let mut s = String::new();
        string_push(&mut s, self.value.to_char());
        string_push(&mut s, self.suit.to_char());
        s
    }
}

impl From<u8> for Card {
    /// The card with index `value`; see `card_of_index`.
    fn from(value: u8) -> (r: Card) {
        Card::from_index(value)
    }
}

impl vstd::std_specs::convert::FromSpecImpl<u8> for Card {
    open spec fn obeys_from_spec() -> bool {
        true
    }

    open spec fn from_spec(v: u8) -> Card {
        card_of_index(v as int)
    }
}

impl From<Card> for u8 {
    /// The index of the card.
    fn from(card: Card) -> (r: u8) {
        card.index()
    }
}

impl vstd::std_specs::convert::FromSpecImpl<Card> for u8 {
    open spec fn obeys_from_spec() -> bool {
        true
    }

    open spec fn from_spec(v: Card) -> u8 {
        card_index(v) as u8
    }
}

/// Index and card determine each other: every card's index lies below
/// 52 and names that card again, and every index below 52 names a card
/// whose index it is.
pub proof fn lemma_card_index_roundtrip(c: Card, i: int)
    ensures
        0 <= card_index(c) < 52,
        card_of_index(card_index(c)) == c,
        0 <= i < 52 ==> card_index(card_of_index(i)) == i,
{
}

/// Reading a value or suit back from the character it prints as gives
/// the same value or suit.
pub proof fn lemma_char_roundtrip(v: Value, s: Suit)
    ensures
        value_from_char_spec(value_char(v)) == Some(v),
        suit_from_char_spec(suit_char(s)) == Some(s),
{
}

/// `from_u8` undoes `to_u8` for values and suits.
pub proof fn lemma_u8_roundtrip(v: Value, s: Suit)
    ensures
        value_of_index(value_index(v) as int) == v,
        suit_of_index(suit_index(s) as int) == s,
{
}

} // verus!
