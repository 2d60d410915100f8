use rs_poker::cards::{Card, Suit, Value};
use rs_poker::holdem::{StartingHand, Suitedness};

#[test]
fn test_aces() {
    let sh = StartingHand {
        value_one: Value::Ace,
        value_two: Value::Ace,
        suited: Suitedness::OffSuit,
    };
    println!("{:?}", sh.possible_hands());
    assert!(6 == sh.possible_hands().len());
}

#[test]
fn test_suited_connector() {
    let sh = StartingHand {
        value_one: Value::Ace,
        value_two: Value::King,
        suited: Suitedness::Suited,
    };
    assert!(4 == sh.possible_hands().len());
}

#[test]
fn test_unsuited_connector() {
    let sh = StartingHand {
        value_one: Value::Ace,
        value_two: Value::King,
        suited: Suitedness::OffSuit,
    };
    assert!(12 == sh.possible_hands().len());
}

#[test]
fn test_starting_hand_count() {
    let num_to_test: usize = StartingHand::all()
        .iter()
        .map(|h| h.possible_hands().len())
        .sum();
    assert!(1326 == num_to_test);
}

#[test]
fn starting_hand_all_has_91_entries() {
    let all = StartingHand::all();
    assert_eq!(91, all.len());
    assert_eq!(Value::Two, all[0].value_one);
    assert_eq!(Value::Two, all[0].value_two);
    assert_eq!(Value::Ace, all[90].value_one);
    assert_eq!(Value::Ace, all[90].value_two);
}

#[test]
fn starting_hand_suited_pair_is_empty() {
    let sh = StartingHand {
        value_one: Value::Eight,
        value_two: Value::Eight,
        suited: Suitedness::Suited,
    };
    assert!(sh.possible_hands().is_empty());
}

#[test]
fn starting_hand_suited_cards_share_suit() {
    let sh = StartingHand {
        value_one: Value::Ace,
        value_two: Value::King,
        suited: Suitedness::Suited,
    };
    for h in sh.possible_hands() {
        let cards = h.cards();
        assert_eq!(2, cards.len());
        assert_eq!(cards[0].suit, cards[1].suit);
    }
    let first = &sh.possible_hands()[0];
    assert!(first.contains(&Card::new(Value::Ace, Suit::Spade)));
}

#[test]
fn starting_hand_any_counts_both() {
    let sh = StartingHand {
        value_one: Value::Ace,
        value_two: Value::King,
        suited: Suitedness::Any,
    };
    assert_eq!(16, sh.possible_hands().len());
}
