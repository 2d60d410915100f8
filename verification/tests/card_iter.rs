use rs_poker::card_iter::CardIter;
use rs_poker::cards::{Card, Deck, Suit, Value};
use rs_poker::hand::Hand;
use rs_poker::rank::Rankable;

fn count(mut it: CardIter) -> usize {
    let mut n = 0;
    while it.next().is_some() {
        n += 1;
    }
    n
}

#[test]
fn test_iter_one() {
    let mut h = Hand::default();
    h.push(Card {
        value: Value::Two,
        suit: Suit::Spade,
    });

    let mut it = CardIter::new(h.cards(), 1);
    while let Some(cards) = it.next() {
        assert_eq!(1, cards.len());
    }

    assert_eq!(1, count(CardIter::new(h.cards(), 1)));
}

#[test]
fn test_iter_two() {
    let mut h = Hand::default();
    h.push(Card {
        value: Value::Two,
        suit: Suit::Spade,
    });
    h.push(Card {
        value: Value::Three,
        suit: Suit::Spade,
    });
    h.push(Card {
        value: Value::Four,
        suit: Suit::Spade,
    });

    assert_eq!(3, count(CardIter::new(h.cards(), 2)));

    let mut it = CardIter::new(h.cards(), 2);
    while let Some(cards) = it.next() {
        assert_eq!(2, cards.len());
        assert!(cards[0] != cards[1]);
    }
}

#[test]
fn test_iter_deck() {
    let d = Deck::default();
    assert_eq!(2598960, count(CardIter::from_deck(&d)));
}

#[test]
fn test_iter_rank() {
    let d = Deck::default();
    let mut it = CardIter::from_deck(&d);
    while let Some(cards) = it.next() {
        let h = Hand::new_with_cards(cards);
        h.rank();
    }
}

#[test]
fn card_iter_lexicographic_order() {
    let cards: Vec<Card> = (0..4u8).map(Card::from).collect();
    let mut it = CardIter::new(cards.clone(), 2);
    let mut seen = Vec::new();
    while let Some(c) = it.next() {
        seen.push(c);
    }
    let expected: Vec<Vec<Card>> = vec![
        vec![cards[0], cards[1]],
        vec![cards[0], cards[2]],
        vec![cards[0], cards[3]],
        vec![cards[1], cards[2]],
        vec![cards[1], cards[3]],
        vec![cards[2], cards[3]],
    ];
    assert_eq!(expected, seen);
    assert!(it.next().is_none());
    assert!(it.next().is_none());
}

#[test]
fn card_iter_from_hand_takes_fives() {
    let mut h = Hand::new();
    for i in 0..7u8 {
        h.push(Card::from(i));
    }
    assert_eq!(7, h.len());
    assert_eq!(21, count(CardIter::from_hand(h)));
}

#[test]
fn card_iter_every_choice_exactly_once() {
    let cards: Vec<Card> = Deck::default().to_vec()[..6].to_vec();
    let mut it = CardIter::new(cards.clone(), 3);
    let mut seen: Vec<Vec<Card>> = Vec::new();
    while let Some(v) = it.next() {
        assert_eq!(3, v.len());
        assert!(!seen.contains(&v));
        seen.push(v);
    }
    // 6 choose 3
    assert_eq!(20, seen.len());
}

#[test]
fn card_iter_one_more_than_there_are_gives_nothing() {
    let cards: Vec<Card> = Deck::default().to_vec()[..3].to_vec();
    let mut it = CardIter::new(cards, 4);
    assert!(it.next().is_none());
    assert!(it.next().is_none());

    let mut none = CardIter::new(Vec::new(), 1);
    assert!(none.next().is_none());
    assert!(none.next().is_none());

    let mut h = Hand::new();
    for i in 0..4u8 {
        h.push(Card::from(i));
    }
    assert_eq!(0, count(CardIter::from_hand(h)));
}

#[test]
fn card_iter_as_many_as_there_are_gives_one() {
    let cards: Vec<Card> = Deck::default().to_vec()[..4].to_vec();
    let mut it = CardIter::new(cards.clone(), 4);
    assert_eq!(Some(cards), it.next());
    assert!(it.next().is_none());
}
