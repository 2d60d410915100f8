use rand::rngs::StdRng;
use rand::SeedableRng;
use rs_poker::cards::{Card, CardBitSet, Deck, Suit, Value};

#[test]
fn test_contains_in() {
    let d = Deck::default();
    assert!(d.contains(&Card {
        value: Value::Eight,
        suit: Suit::Heart,
    }));
}

#[test]
fn test_remove() {
    let mut d = Deck::default();
    let c = Card {
        value: Value::Ace,
        suit: Suit::Heart,
    };
    assert!(d.contains(&c));
    assert!(d.remove(&c));
    assert!(!d.contains(&c));
    assert!(!d.remove(&c));
}

#[test]
fn test_deal() {
    let mut d = Deck::default();
    let mut rng = StdRng::from_os_rng();
    let c = d.deal(&mut rng);
    assert!(c.is_some());
    assert!(!d.contains(&c.unwrap()));

    let other = d.deal(&mut rng);
    assert!(other.is_some());

    assert_ne!(c, other);
    assert_eq!(d.len(), 50);
}

#[test]
fn test_deal_all() {
    let mut cards_dealt = 0;
    let mut d = Deck::default();

    let mut rng = StdRng::from_os_rng();

    while let Some(_c) = d.deal(&mut rng) {
        cards_dealt += 1;
    }
    assert_eq!(cards_dealt, 52);
    assert!(d.is_empty());
}

#[test]
fn test_stable_deal_order_with_seed_rng() {
    let mut rng_one = StdRng::seed_from_u64(420);
    let mut rng_two = StdRng::seed_from_u64(420);

    let mut d_one = Deck::default();
    let mut d_two = Deck::default();

    let mut cards_dealt_one = Vec::with_capacity(52);
    let mut cards_dealt_two = Vec::with_capacity(52);

    while let Some(c) = d_one.deal(&mut rng_one) {
        cards_dealt_one.push(c);
    }
    while let Some(c) = d_two.deal(&mut rng_two) {
        cards_dealt_two.push(c);
    }
    assert_eq!(cards_dealt_one, cards_dealt_two);
    assert!(d_one.is_empty());
    assert!(d_two.is_empty());
}

#[test]
fn deck_basics() {
    let mut deck = Deck::new();
    assert!(deck.is_empty());
    assert_eq!(0, deck.len());
    assert!(deck.insert(Card::new(Value::Ace, Suit::Club)));
    assert!(!deck.insert(Card::new(Value::Ace, Suit::Club)));
    deck.insert(Card::new(Value::King, Suit::Diamond));
    deck.insert(Card::new(Value::Queen, Suit::Heart));
    let card = Card::new(Value::Ace, Suit::Club);
    assert!(deck.contains(&card));
    assert!(deck.remove(&card));
    assert!(!deck.contains(&card));
    assert_eq!(deck.len(), 2);
    assert_eq!(deck.count(), 2);
    assert!(!deck.is_empty());
    let mut it = deck.iter();
    assert_eq!(Some(Card::new(Value::Queen, Suit::Heart)), it.next());
    assert_eq!(Some(Card::new(Value::King, Suit::Diamond)), it.next());
    assert_eq!(None, it.next());
    assert_eq!(52, Deck::default().len());
}

#[test]
fn deck_from_card_set() {
    let mut card_bit_set = CardBitSet::new();
    card_bit_set.insert(Card::new(Value::Ace, Suit::Club));
    card_bit_set.insert(Card::new(Value::King, Suit::Diamond));
    let deck: Deck = card_bit_set.into();
    assert_eq!(2, deck.len());
    assert!(deck.contains(&Card::new(Value::Ace, Suit::Club)));
    assert!(deck.contains(&Card::new(Value::King, Suit::Diamond)));
}
