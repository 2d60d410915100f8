use rs_poker::cards::{Card, Hand, RSPokerError, Suit, Value};
use rs_poker::holdem::{InclusiveValueRange, RangeIter, RangeParser};

/// The two cards of a hand, the higher card first.
fn two(h: &Hand) -> (Card, Card) {
    let cards = h.cards();
    assert_eq!(2, cards.len());
    if cards[0] > cards[1] {
        (cards[0], cards[1])
    } else {
        (cards[1], cards[0])
    }
}

#[test]
fn test_range_iter_static() {
    let mut c = RangeIter::stat(
        Value::Ace,
        InclusiveValueRange {
            start: Value::Two,
            end: Value::King,
        },
    );

    let mut count = 0;
    while let Some(hand) = c.next() {
        count += 1;
        let (a, b) = two(&hand);
        assert!(a > b);
    }
    assert_eq!(12 * 4 * 4, count);
}

#[test]
fn test_easy_parse() {
    let c = RangeParser::parse_one("AK").unwrap();
    assert_eq!(16, c.len());
}

#[test]
fn test_single_pair() {
    let c = RangeParser::parse_one("22").unwrap();
    assert_eq!(6, c.len());
}

#[test]
fn test_easy_parse_sorted() {
    assert_eq!(
        RangeParser::parse_one("AK").unwrap(),
        RangeParser::parse_one("KA").unwrap()
    );
}

#[test]
fn test_easy_parse_offsuit() {
    let c = RangeParser::parse_one("AKo").unwrap();
    let mut count = 0;
    for h in c {
        count += 1;
        let (a, b) = two(&h);
        assert!(a.suit != b.suit);
        assert_eq!(Value::Ace, a.value);
        assert_eq!(Value::King, b.value);
    }
    assert_eq!(4 * 3, count);
}

#[test]
fn test_easy_parse_suited() {
    let c = RangeParser::parse_one("AKs").unwrap();
    let mut count = 0;
    for h in c {
        count += 1;
        let (a, b) = two(&h);
        assert!(a.suit == b.suit);
        assert_eq!(Value::Ace, a.value);
        assert_eq!(Value::King, b.value);
    }
    assert_eq!(4, count);
}

#[test]
fn test_plus_top_gap() {
    let c = RangeParser::parse_one("KQ+").unwrap();
    assert_eq!(4 * 4 * 2, c.len());
}

#[test]
fn test_plus_low_gap() {
    let c = RangeParser::parse_one("32+").unwrap();
    assert_eq!(12 * 16, c.len());
}

#[test]
fn test_plus_ungapped() {
    let c = RangeParser::parse_one("A9+").unwrap();
    assert_eq!(4 * 4 * 5, c.len());
}

#[test]
fn test_plus_pair() {
    let c = RangeParser::parse_one("KK+").unwrap();
    let mut count = 0;
    for h in c {
        count += 1;
        let (a, b) = two(&h);
        assert_eq!(a.value, b.value);
        assert!(a != b);
    }
    assert_eq!(6 * 2, count);
}

#[test]
fn test_parse_static() {
    let c = RangeParser::parse_one(&String::from("A9s-A5s")).unwrap();

    assert_eq!(c.len(), 20);

    assert!(c.iter().all(|h| {
        let (a, b) = two(h);
        a.value == Value::Ace
            && b.value >= Value::Five
            && b.value <= Value::Nine
            && a.suit == b.suit
    }));
}

#[test]
fn test_fail_parse_static_flipped() {
    assert!(RangeParser::parse_one(&String::from("9As-5As")).is_err());
}

#[test]
fn test_range_parse_suited() {
    let c = RangeParser::parse_one("87-JTs").unwrap();
    assert_eq!(4 * 4, c.len());
}

#[test]
fn test_range_parse_flipped() {
    let c = RangeParser::parse_one("JT-87").unwrap();
    let mut count = 0;
    for h in c {
        count += 1;
        let (a, b) = two(&h);
        assert!(a > b);
    }
    assert_eq!(4 * 4 * 4, count);
}

#[test]
fn test_range_parse_flipped_flipped() {
    let c = RangeParser::parse_one("TJ-78").unwrap();
    let mut count = 0;
    for h in c {
        count += 1;
        let (a, b) = two(&h);
        assert!(a > b);
    }
    assert_eq!(4 * 4 * 4, count);
}

#[test]
fn test_range_parse() {
    let c = RangeParser::parse_one("87-JT").unwrap();
    assert_eq!(4 * 4 * 4, c.len());
}

#[test]
fn test_cant_suit_pairs() {
    let shs = RangeParser::parse_one(&String::from("88s"));
    assert!(shs.is_err());
}

#[test]
fn test_cant_suit_pairs_explicit() {
    let shs = RangeParser::parse_one(&String::from("8s8s"));
    assert!(shs.is_err());
}

#[test]
fn test_explicit_pair_good() {
    assert!(!RangeParser::parse_one(&String::from("2c2s"))
        .unwrap()
        .is_empty());
}

#[test]
fn test_explicit_suit_good() {
    assert!(!RangeParser::parse_one(&String::from("6c2c"))
        .unwrap()
        .is_empty());
}

#[test]
fn test_explicit_suited_no_good() {
    assert!(RangeParser::parse_one(&String::from("6c2co")).is_err());
    assert!(RangeParser::parse_one(&String::from("6h2cs")).is_err());
}

#[test]
fn test_bad_input() {
    assert!(RangeParser::parse_one(&String::from("4f7")).is_err());
}

#[test]
fn test_explicit_suit_plus() {
    assert!(!RangeParser::parse_one(&String::from("2s2+"))
        .unwrap()
        .is_empty());
}

#[test]
fn test_explicit_suit_pair() {
    assert!(!RangeParser::parse_one(&String::from("8D8"))
        .unwrap()
        .is_empty());
}

#[test]
fn test_ok_with_trailing_plus() {
    assert!(RangeParser::parse_one(&String::from("8Q-62+")).is_err());
}

#[test]
fn test_ok_with_multiple() {
    assert!(RangeParser::parse_many(&String::from("KK+, AJs+")).is_ok());
}

#[test]
fn test_ok_with_single() {
    assert!(RangeParser::parse_many(&String::from("KK+")).is_ok());
}

#[test]
fn test_parse_multiple() {
    assert_eq!(
        RangeParser::parse_many(&String::from("KK+, A2s+"))
            .unwrap()
            .len(),
        60
    );
}

#[test]
fn test_filters_duplicates() {
    assert_eq!(
        RangeParser::parse_many(&String::from("AK-87s,A2s+"))
            .unwrap()
            .len(),
        72
    );
}

#[test]
fn parse_one_explicit_hand() {
    let hand = RangeParser::parse_one("AhKh").unwrap();
    assert_eq!(1, hand.len());
    assert!(hand[0].contains(&Card::new(Value::Ace, Suit::Heart)));
    assert!(hand[0].contains(&Card::new(Value::King, Suit::Heart)));
}

#[test]
fn parse_one_pairs_plus_doc() {
    let hands = RangeParser::parse_one("TT+").unwrap();
    assert_eq!(5 * 6, hands.len());
    for hand in hands {
        let (a, b) = two(&hand);
        assert!(a.value == b.value);
        assert!(a.value >= Value::Ten);
    }
}

#[test]
fn parse_one_connectors_plus_doc() {
    let hands = RangeParser::parse_one("T9o+").unwrap();
    assert_eq!(5 * 12, hands.len());
    for hand in hands {
        let (a, b) = two(&hand);
        assert_eq!(a.value.to_u8(), b.value.to_u8() + 1);
        assert!(a.suit != b.suit);
    }
}

#[test]
fn parse_one_suited_plus_doc() {
    let hands = RangeParser::parse_one("A9s+").unwrap();
    assert_eq!(5 * 4, hands.len());
    for hand in hands {
        let (a, b) = two(&hand);
        assert!(a.value > b.value);
        assert!(b.value >= Value::Nine);
        assert!(a.suit == b.suit);
    }
}

#[test]
fn parse_one_dashed_connectors_doc() {
    let hands = RangeParser::parse_one("JT-67s").unwrap();
    assert!(!hands.is_empty());
    for hand in hands {
        let (a, b) = two(&hand);
        assert!(a.value > b.value);
        assert!(a.value >= Value::Seven);
        assert!(b.value >= Value::Six);
        assert!(a.value <= Value::Jack);
        assert!(b.value <= Value::Ten);
        assert_eq!(1, a.value.gap(&b.value));
    }
}

#[test]
fn parse_one_gappers_doc() {
    let hands = RangeParser::parse_one("AQ-J9").unwrap();
    assert_eq!(4 * 16, hands.len());
}

#[test]
fn parse_one_uneven_gap_is_error() {
    assert_eq!(Err(RSPokerError::InvalidGap), RangeParser::parse_one("AK-J9"));
}

#[test]
fn parse_one_errors_by_kind() {
    assert_eq!(Err(RSPokerError::TooFewChars), RangeParser::parse_one(""));
    assert_eq!(Err(RSPokerError::TooFewChars), RangeParser::parse_one("A"));
    assert_eq!(Err(RSPokerError::TooFewChars), RangeParser::parse_one("AK-Q"));
    assert_eq!(
        Err(RSPokerError::UnexpectedValueChar),
        RangeParser::parse_one("AK-QX")
    );
    assert_eq!(
        Err(RSPokerError::OffSuitWithMatchingSuit),
        RangeParser::parse_one("AhKho")
    );
    assert_eq!(
        Err(RSPokerError::SuitedWithNoMatchingSuit),
        RangeParser::parse_one("AhKds")
    );
    assert_eq!(
        Err(RSPokerError::InvalidPlusModifier),
        RangeParser::parse_one("KK++")
    );
    assert_eq!(
        Err(RSPokerError::InvalidSuitedPairs),
        RangeParser::parse_one("QQs")
    );
}

#[test]
fn parse_many_first_error_wins() {
    assert_eq!(
        Err(RSPokerError::InvalidSuitedPairs),
        RangeParser::parse_many("AK, 88s, 4f7")
    );
    assert_eq!(Err(RSPokerError::TooFewChars), RangeParser::parse_many("AK,"));
}

#[test]
fn parse_many_trims_and_has_no_duplicates() {
    let hands = RangeParser::parse_many("  AKs ,AKs,\tAKs\n").unwrap();
    assert_eq!(4, hands.len());
    for i in 0..hands.len() {
        for j in 0..i {
            assert!(hands[i] != hands[j]);
        }
    }
}

#[test]
fn parse_one_honours_suitedness_and_given_suits() {
    for h in RangeParser::parse_one("AKs").unwrap() {
        let (a, b) = two(&h);
        assert_eq!(a.suit, b.suit);
    }
    for h in RangeParser::parse_one("AKo").unwrap() {
        let (a, b) = two(&h);
        assert_ne!(a.suit, b.suit);
    }
    let hs = RangeParser::parse_one("AhK").unwrap();
    assert_eq!(4, hs.len());
    for h in hs {
        let (a, _) = two(&h);
        assert_eq!(Suit::Heart, a.suit);
    }
}

#[test]
fn parse_one_static_range_reaching_its_own_value() {
    // The second value runs up to the first, so the iterator also makes
    // an ace with itself: such a "hand" holds a single card.
    let hs = RangeParser::parse_one("A2-AA").unwrap();
    assert!(hs.iter().any(|h| h.cards().len() == 1));
}

#[test]
fn parse_one_hands_hold_two_cards_each_once() {
    for range in ["AKs", "AKo", "AK", "TT+", "JT-67s", "K9s+", "AhKh", "22-55", "76o+"] {
        let hs = RangeParser::parse_one(range).unwrap();
        assert!(!hs.is_empty());
        let mut seen: Vec<(Card, Card)> = Vec::new();
        for h in hs.iter() {
            let (a, b) = two(h);
            assert!(a != b);
            assert!(!seen.contains(&(a, b)));
            seen.push((a, b));
        }
    }
}
