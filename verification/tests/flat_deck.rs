use std::collections::HashSet;

use rs_poker::cards::{Card, CardBitSet, Deck, FlatDeck, Suit, Value};

#[test]
fn test_deck_from() {
    let fd = FlatDeck::from_deck(&Deck::default());
    assert_eq!(52, fd.len());
}

#[test]
fn test_from_vec() {
    let c = Card {
        value: Value::Nine,
        suit: Suit::Heart,
    };
    let v = vec![c];

    let mut flat_deck = FlatDeck::from_vec(v);

    assert_eq!(1, flat_deck.len());
    assert_eq!(c, flat_deck.deal().unwrap());
}

#[test]
fn test_add_cards_iter() {
    let mut hash_set: HashSet<Card> = HashSet::new();
    let mut bit_set = CardBitSet::new();

    let deck = FlatDeck::from_deck(&Deck::default());

    for card in deck.sample(13) {
        hash_set.insert(card);
        bit_set.insert(card);
    }

    assert_eq!(hash_set.len(), bit_set.count());
    for card in hash_set.clone() {
        assert!(bit_set.contains(card));
    }

    let mut it = bit_set.iter();
    while let Some(card) = it.next() {
        assert!(hash_set.contains(&card));
    }
}

#[test]
fn flat_deck_default_is_a_shuffled_full_deck() {
    let mut fd = FlatDeck::default();
    assert_eq!(52, fd.len());
    let mut seen = HashSet::new();
    while let Some(c) = fd.deal() {
        assert!(seen.insert(c));
    }
    assert_eq!(52, seen.len());
    assert!(fd.is_empty());
    assert_eq!(None, fd.deal());
}

#[test]
fn flat_deck_shuffle_keeps_cards() {
    let mut fd = FlatDeck::from_deck(&Deck::default());
    let before: HashSet<Card> = fd.cards().iter().copied().collect();
    fd.shuffle();
    let after: HashSet<Card> = fd.cards().iter().copied().collect();
    assert_eq!(before, after);
    assert_eq!(52, fd.len());
    let sample = fd.sample(60);
    assert_eq!(52, sample.len());
    assert_eq!(Card::new(Value::Two, Suit::Spade), FlatDeck::from_deck(&Deck::default()).get(0));
}
