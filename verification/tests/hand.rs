use rs_poker::cards::{Card, CardBitSet, Hand, RSPokerError, Suit, Value};

#[test]
fn test_insert() {
    let mut hand = Hand::new();
    for i in 1..7 {
        let c = Card::from(i);
        assert!(hand.insert(c));
        assert!(hand.contains(&c));
        assert_eq!(hand.count(), usize::from(i));
    }
}

#[test]
fn hand_test_is_empty() {
    let mut hand = Hand::new();
    assert!(hand.is_empty());

    hand.insert(Card::from(1));
    assert!(!hand.is_empty());
    hand.clear();

    assert!(hand.is_empty());
    hand.insert(Card::from(2));
    assert!(!hand.is_empty());
}

#[test]
fn hand_test_bit_and() {
    let mut hand1 = Hand::new();
    let mut hand2 = Hand::new();

    for i in 1..7 {
        let c = Card::from(i);
        hand1.insert(c);
    }

    for i in 4..10 {
        let c = Card::from(i);
        hand2.insert(c);
    }
    let hand3 = hand1 & hand2;
    assert_eq!(hand3.count(), 3);
    for i in 4..7 {
        let c = Card::from(i);
        assert!(hand3.contains(&c));
    }
    for i in 1..4 {
        let c = Card::from(i);
        assert!(!hand3.contains(&c));
    }
}

#[test]
fn parse_hand_strings() {
    let h = Hand::new_from_str("AdKh").unwrap();
    assert_eq!(2, h.count());
    assert!(h.contains(&Card::new(Value::Ace, Suit::Diamond)));
    assert!(h.contains(&Card::new(Value::King, Suit::Heart)));
    assert_eq!(h.cards(), vec![Card::new(Value::Ace, Suit::Diamond), Card::new(Value::King, Suit::Heart)]);
    assert_eq!(Hand::new_from_str("adkh").unwrap(), h);
    assert!(Hand::new_from_str("").unwrap().is_empty());
    assert_eq!(Err(RSPokerError::UnexpectedValueChar), Hand::new_from_str("Xd"));
    assert_eq!(Err(RSPokerError::UnexpectedSuitChar), Hand::new_from_str("Ax"));
    assert_eq!(Err(RSPokerError::UnexpectedSuitChar), Hand::new_from_str("AdK"));
    assert_eq!(
        Err(RSPokerError::DuplicateCardInHand(Card::new(Value::Ace, Suit::Diamond))),
        Hand::new_from_str("AdAd")
    );
}

#[test]
fn hand_card_set_and_removal() {
    let mut hand = Hand::new_with_cards(vec![Card::from(3), Card::from(9), Card::from(3)]);
    assert_eq!(2, hand.count());
    assert!(hand.remove(&Card::from(3)));
    assert!(!hand.remove(&Card::from(3)));
    let set: CardBitSet = hand.into();
    assert_eq!(1, set.count());
    let mut a = Hand::new_from_str("2s3s4s").unwrap();
    a &= Hand::new_from_str("3s4s5s").unwrap();
    assert_eq!(2, a.count());
    assert_eq!(Hand::default(), Hand::new());
}

#[test]
fn error_messages_name_the_card() {
    let err = Hand::new_from_str("AdAd").unwrap_err();
    assert_eq!(RSPokerError::DuplicateCardInHand(Card::new(Value::Ace, Suit::Diamond)), err);
    assert_eq!("Card already added to hand Ad", err.message());
    assert_eq!("Pairs can't be suited.", RSPokerError::InvalidSuitedPairs.message());
}

#[test]
fn card_names_read_back() {
    for i in 0..52u8 {
        let c = Card::from(i);
        let h = Hand::new_from_str(&c.to_string()).unwrap();
        assert_eq!(1, h.count());
        assert!(h.contains(&c));
    }
}
