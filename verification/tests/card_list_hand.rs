use rs_poker::cards::{Card, Suit, Value};
use rs_poker::hand::Hand;

#[test]
fn test_add_card() {
    let mut h = Hand::new();
    let c = Card {
        value: Value::Three,
        suit: Suit::Spade,
    };
    h.push(c);
    assert_eq!(1, h.len());
}

#[test]
fn card_list_hand_keeps_order_and_duplicates() {
    let c = Card::new(Value::Ace, Suit::Heart);
    let d = Card::new(Value::Two, Suit::Club);
    let mut h = Hand::new_with_cards(vec![c]);
    h.push(d);
    h.push(c);
    assert_eq!(vec![c, d, c], h.cards());
    assert_eq!(0, Hand::default().len());
}
