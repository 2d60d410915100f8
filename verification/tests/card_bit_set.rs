use rand::rngs::StdRng;
use rand::SeedableRng;
use rs_poker::cards::{Card, CardBitSet, Deck, Suit, Value};
use std::collections::HashSet;

#[test]
fn test_empty() {
    let cards = CardBitSet::new();
    assert!(cards.is_empty());
}

#[test]
fn test_insert_all() {
    let mut all_cards = CardBitSet::new();
    for card in Deck::default().to_vec() {
        let mut single_card = CardBitSet::new();

        single_card.insert(card);
        all_cards |= single_card;

        assert!(single_card.contains(card));
    }

    assert_eq!(all_cards.count(), 52);

    for card in Deck::default().to_vec() {
        assert!(all_cards.contains(card));
    }
}

#[test]
fn test_xor_is_remove() {
    let mut all_cards = CardBitSet::new();
    for card in Deck::default().to_vec() {
        all_cards |= card;
    }

    for card in Deck::default().to_vec() {
        let xor_masked_set: CardBitSet = all_cards ^ card;
        assert!(!xor_masked_set.contains(card));

        let mut removed_set = all_cards;
        removed_set.remove(card);

        assert_eq!(removed_set, xor_masked_set);
    }
    assert_eq!(52, all_cards.count());
}

#[test]
fn card_bit_set_test_is_empty() {
    let empty = CardBitSet::new();
    assert!(empty.is_empty());
}

#[test]
fn test_not_empty() {
    let mut cards = CardBitSet::new();

    cards.insert(Card::from(17));
    assert!(!cards.is_empty());
}

#[test]
fn test_default_contains() {
    let mut bitset_cards = CardBitSet::default();
    assert_eq!(52, bitset_cards.count());

    for card in Deck::default().to_vec() {
        assert!(bitset_cards.contains(card));
        bitset_cards.remove(card);
    }

    assert_eq!(0, bitset_cards.count());
    assert!(bitset_cards.is_empty());
}

#[test]
fn test_formatting_cards() {
    let mut cards = CardBitSet::new();
    cards.insert(Card::new(Value::Ace, Suit::Club));
    cards.insert(Card::new(Value::King, Suit::Diamond));
    cards.insert(Card::new(Value::Three, Suit::Heart));

    assert_eq!(cards.to_debug_string(), "{Card(Ac), Card(3h), Card(Kd)}");
}

#[test]
fn card_bit_set_test_bit_and() {
    let mut cards = CardBitSet::new();
    cards.insert(Card::new(Value::Ace, Suit::Club));
    cards.insert(Card::new(Value::King, Suit::Diamond));

    let mut cards2 = CardBitSet::new();
    cards2.insert(Card::new(Value::Three, Suit::Heart));
    cards2.insert(Card::new(Value::King, Suit::Diamond));

    let and = cards & cards2;
    assert_eq!(and.count(), 1);

    assert!(and.contains(Card::new(Value::King, Suit::Diamond)));
    assert!(!and.contains(Card::new(Value::Ace, Suit::Club)));
}

#[test]
fn test_bit_and_assign() {
    let mut cards = CardBitSet::new();
    cards.insert(Card::new(Value::Ace, Suit::Club));
    cards.insert(Card::new(Value::King, Suit::Diamond));

    let mut cards2 = CardBitSet::new();
    cards2.insert(Card::new(Value::Three, Suit::Heart));
    cards2.insert(Card::new(Value::King, Suit::Diamond));

    cards &= cards2;

    assert_eq!(cards.count(), 1);

    // The shared card
    assert!(cards.contains(Card::new(Value::King, Suit::Diamond)));

    // None of the non-shared are there.
    assert!(!cards.contains(Card::new(Value::Ace, Suit::Club)));
    assert!(!cards.contains(Card::new(Value::Three, Suit::Heart)));
}

#[test]
fn test_pick_one() {
    let mut rng = StdRng::from_os_rng();
    let mut cards = CardBitSet::new();

    cards.insert(Card::new(Value::Ace, Suit::Club));

    let card = cards.sample_one(&mut rng);
    assert!(card.is_some(), "Card should be present");
    assert_eq!(card.unwrap(), Card::new(Value::Ace, Suit::Club));
}

#[test]
fn test_pick_one_all() {
    let mut rng = StdRng::from_os_rng();
    let mut cards = CardBitSet::default();

    let mut picked: HashSet<Card> = HashSet::new();

    for _i in 0..10 {
        let card = cards.sample_one(&mut rng);
        if let Some(c) = card {
            cards.remove(c);

            assert!(
                !picked.contains(&c),
                "Card already picked: {:?} picked = {:?}",
                c,
                picked
            );
            picked.insert(c);
        } else {
            panic!("No more cards to pick");
        }
    }
    assert_eq!(cards.count(), 42); // 52 - 10 = 42
}

#[test]
fn test_can_pick_one_for_all() {
    let mut rng = StdRng::from_os_rng();
    let mut cards_one = CardBitSet::default();
    let mut cards_two = CardBitSet::default();

    let mut picked_one = Vec::new();
    let mut picked_two = Vec::new();

    while cards_one.count() > 0 && cards_two.count() > 0 {
        if let Some(card_one) = cards_one.sample_one(&mut rng) {
            picked_one.push(card_one);
            cards_one.remove(card_one);
        }

        if let Some(card_two) = cards_two.sample_one(&mut rng) {
            picked_two.push(card_two);
            cards_two.remove(card_two);
        }
    }

    assert!(cards_one.is_empty(), "Cards one should be empty");
    assert!(cards_two.is_empty(), "Cards two should be empty");

    assert_eq!(picked_one.len(), 52);
    assert_eq!(picked_two.len(), 52);

    assert_ne!(picked_one, picked_two, "Picked cards should be different");

    // Check that all picked cards are unique
    let unique_one: HashSet<_> = picked_one.iter().cloned().collect();
    let unique_two: HashSet<_> = picked_two.iter().cloned().collect();

    assert_eq!(unique_one.len(), picked_one.len(), "Picked cards one should be unique");
    assert_eq!(unique_two.len(), picked_two.len(), "Picked cards two should be unique");
}

#[test]
fn sample_from_empty_is_none() {
    let mut rng = StdRng::seed_from_u64(7);
    assert!(CardBitSet::new().sample_one(&mut rng).is_none());
}

#[test]
fn iterator_yields_increasing_cards() {
    let mut cards = CardBitSet::new();
    cards.insert(Card::new(Value::King, Suit::Diamond));
    cards.insert(Card::new(Value::Two, Suit::Spade));
    cards.insert(Card::new(Value::Ace, Suit::Heart));
    let mut it = cards.iter();
    // cards are indexed suit by suit: spades, clubs, hearts, diamonds
    assert_eq!(Some(Card::new(Value::Two, Suit::Spade)), it.next());
    assert_eq!(Some(Card::new(Value::Ace, Suit::Heart)), it.next());
    assert_eq!(Some(Card::new(Value::King, Suit::Diamond)), it.next());
    assert_eq!(None, it.next());
    assert_eq!(Card::new(Value::Ace, Suit::Heart), cards.nth_card(1));
}

#[test]
fn complement_and_union() {
    let mut cards = CardBitSet::new();
    cards.insert(Card::from(0));
    cards.insert(Card::from(51));
    let not_cards = !cards;
    assert_eq!(50, not_cards.count());
    assert!(!not_cards.contains(Card::from(0)));
    assert!(not_cards.contains(Card::from(1)));
    assert_eq!(52, (not_cards | cards).count());
    assert_eq!(CardBitSet::default(), not_cards | cards);
    assert!((cards ^ cards).is_empty());
    let mut x = cards;
    x ^= cards;
    assert!(x.is_empty());
    let mut y = CardBitSet::new();
    y |= Card::from(3);
    assert_eq!(1, y.count());
    assert_eq!(2, (y | Card::from(4)).count());
}
