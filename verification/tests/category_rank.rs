use rs_poker::cards::{Card, Suit, Value};
use rs_poker::hand::Hand;
use rs_poker::rank::{Rank, Rankable, STRAIGHTS};

#[test]
fn test_cmp() {
    assert!(Rank::HighCard < Rank::StraightFlush);
    assert!(Rank::HighCard < Rank::FourOfAKind);
    assert!(Rank::HighCard < Rank::ThreeOfAKind);
}

fn hand(cards: &[(Value, Suit)]) -> Hand {
    Hand::new_with_cards(cards.iter().map(|(v, s)| Card { value: *v, suit: *s }).collect())
}

#[test]
fn test_high_card_hand() {
    let h = hand(&[
        (Value::Ace, Suit::Diamond),
        (Value::Eight, Suit::Heart),
        (Value::Nine, Suit::Club),
        (Value::Ten, Suit::Club),
        (Value::Five, Suit::Club),
    ]);
    assert!(Rank::HighCard == h.rank());
}

#[test]
fn test_flush() {
    let h = hand(&[
        (Value::Ace, Suit::Diamond),
        (Value::Eight, Suit::Diamond),
        (Value::Nine, Suit::Diamond),
        (Value::Ten, Suit::Diamond),
        (Value::Five, Suit::Diamond),
    ]);
    assert!(Rank::Flush == h.rank());
}

#[test]
fn test_full_house() {
    let h = hand(&[
        (Value::Ace, Suit::Diamond),
        (Value::Ace, Suit::Club),
        (Value::Nine, Suit::Diamond),
        (Value::Nine, Suit::Club),
        (Value::Nine, Suit::Spade),
    ]);
    assert!(Rank::FullHouse == h.rank());
}

#[test]
fn test_two_pair() {
    let h = hand(&[
        (Value::Ace, Suit::Diamond),
        (Value::Ace, Suit::Club),
        (Value::Nine, Suit::Diamond),
        (Value::Nine, Suit::Club),
        (Value::Ten, Suit::Spade),
    ]);
    assert!(Rank::TwoPair == h.rank());
}

#[test]
fn test_one_pair() {
    let h = hand(&[
        (Value::Ace, Suit::Diamond),
        (Value::Ace, Suit::Club),
        (Value::Nine, Suit::Diamond),
        (Value::Eight, Suit::Club),
        (Value::Ten, Suit::Spade),
    ]);
    assert!(Rank::OnePair == h.rank());
}

#[test]
fn test_four_of_a_kind() {
    let h = hand(&[
        (Value::Ace, Suit::Diamond),
        (Value::Ace, Suit::Club),
        (Value::Ace, Suit::Spade),
        (Value::Ace, Suit::Heart),
        (Value::Ten, Suit::Spade),
    ]);
    assert!(Rank::FourOfAKind == h.rank());
}

#[test]
fn test_wheel() {
    let h = hand(&[
        (Value::Ace, Suit::Diamond),
        (Value::Two, Suit::Club),
        (Value::Three, Suit::Spade),
        (Value::Four, Suit::Heart),
        (Value::Five, Suit::Spade),
    ]);
    assert!(Rank::Straight == h.rank());
}

#[test]
fn test_straight() {
    let h = hand(&[
        (Value::Two, Suit::Club),
        (Value::Three, Suit::Spade),
        (Value::Four, Suit::Heart),
        (Value::Five, Suit::Spade),
        (Value::Six, Suit::Diamond),
    ]);
    assert!(Rank::Straight == h.rank());
}

#[test]
fn test_three_of_a_kind() {
    let h = hand(&[
        (Value::Two, Suit::Club),
        (Value::Two, Suit::Spade),
        (Value::Two, Suit::Heart),
        (Value::Five, Suit::Spade),
        (Value::Six, Suit::Diamond),
    ]);
    assert!(Rank::ThreeOfAKind == h.rank());
}

#[test]
fn test_straight_constants() {
    for c in STRAIGHTS.iter() {
        assert!(5 == c.count_ones());
    }
}

#[test]
fn category_straight_flush_and_index() {
    let h = hand(&[
        (Value::Ten, Suit::Heart),
        (Value::Jack, Suit::Heart),
        (Value::Queen, Suit::Heart),
        (Value::King, Suit::Heart),
        (Value::Ace, Suit::Heart),
    ]);
    assert!(Rank::StraightFlush == h.rank());
    assert_eq!(Some(9), h.rank_straight(0x1F00));
    assert_eq!(Some(0), h.rank_straight(0x100F));
    assert_eq!(None, h.rank_straight(0x1F01));
}
