use rs_poker::cards::{Hand, Rank, Rankable, Value};

#[test]
fn rank_test_cmp() {
    assert!(Rank::HighCard(0) < Rank::StraightFlush(0));
    assert!(Rank::HighCard(0) < Rank::FourOfAKind(0));
    assert!(Rank::HighCard(0) < Rank::ThreeOfAKind(0));
}

#[test]
fn test_cmp_high() {
    assert!(Rank::HighCard(0) < Rank::HighCard(100));
}

#[test]
fn rank_test_high_card_hand() {
    let hand = Hand::new_from_str("Ad8h9cTc5c").unwrap();
    let rank = 1 << Value::Ace as u32
        | 1 << Value::Eight as u32
        | 1 << Value::Nine as u32
        | 1 << Value::Ten as u32
        | 1 << Value::Five as u32;

    assert!(Rank::HighCard(rank) == hand.rank());
}

#[test]
fn rank_test_flush() {
    let hand = Hand::new_from_str("Ad8d9dTd5d").unwrap();
    let rank = 1 << Value::Ace as u32
        | 1 << Value::Eight as u32
        | 1 << Value::Nine as u32
        | 1 << Value::Ten as u32
        | 1 << Value::Five as u32;

    assert!(Rank::Flush(rank) == hand.rank());
}

#[test]
fn rank_test_full_house() {
    let hand = Hand::new_from_str("AdAc9d9c9s").unwrap();
    let rank = (1 << (Value::Nine as u32)) << 13 | 1 << (Value::Ace as u32);
    assert!(Rank::FullHouse(rank) == hand.rank());
}

#[test]
fn rank_test_two_pair() {
    // Make a two pair hand.
    let hand = Hand::new_from_str("AdAc9D9cTs").unwrap();
    let rank = (1 << Value::Ace as u32 | 1 << Value::Nine as u32) << 13 | 1 << Value::Ten as u32;
    assert!(Rank::TwoPair(rank) == hand.rank());
}

#[test]
fn rank_test_one_pair() {
    let hand = Hand::new_from_str("AdAc9d8cTs").unwrap();
    let rank = (1 << Value::Ace as u32) << 13
        | 1 << Value::Nine as u32
        | 1 << Value::Eight as u32
        | 1 << Value::Ten as u32;

    assert!(Rank::OnePair(rank) == hand.rank());
}

#[test]
fn rank_test_four_of_a_kind() {
    let hand = Hand::new_from_str("AdAcAsAhTs").unwrap();
    assert!(
        Rank::FourOfAKind((1 << (Value::Ace as u32) << 13) | 1 << (Value::Ten as u32))
            == hand.rank()
    );
}

#[test]
fn rank_test_wheel() {
    let hand = Hand::new_from_str("Ad2c3s4h5s").unwrap();
    assert!(Rank::Straight(0) == hand.rank());
}

#[test]
fn rank_test_straight() {
    let hand = Hand::new_from_str("2c3s4h5s6d").unwrap();
    assert!(Rank::Straight(1) == hand.rank());
}

#[test]
fn rank_test_three_of_a_kind() {
    let hand = Hand::new_from_str("2c2s2h5s6d").unwrap();
    let rank = (1 << (Value::Two as u32)) << 13 | 1 << (Value::Five as u32) | 1 << (Value::Six as u32);
    assert!(Rank::ThreeOfAKind(rank) == hand.rank());
}

#[test]
fn test_rank_seven_straight_flush() {
    let h = Hand::new_from_str("AdKdQdJdTd9d8d").unwrap();
    assert_eq!(Rank::StraightFlush(9), h.rank_seven());
}

#[test]
fn test_rank_seven_four_kind() {
    let h = Hand::new_from_str("2s2h2d2cKd9h4s").unwrap();
    let four_rank = (1 << Value::Two as u32) << 13;
    let low_rank = 1 << Value::King as u32;
    assert_eq!(Rank::FourOfAKind(four_rank | low_rank), h.rank_seven());
}

#[test]
fn test_rank_seven_four_plus_set() {
    // Four of a kind plus a set.
    let h = Hand::new_from_str("2s2h2d2c8d8s8c").unwrap();
    let four_rank = (1 << Value::Two as u32) << 13;
    let low_rank = 1 << Value::Eight as u32;
    assert_eq!(Rank::FourOfAKind(four_rank | low_rank), h.rank_seven());
}

#[test]
fn test_rank_seven_full_house_two_sets() {
    // We have two sets use the highest set.
    let h = Hand::new_from_str("As2h2d2c8d8s8c").unwrap();
    let set_rank = (1 << Value::Eight as u32) << 13;
    let low_rank = 1 << Value::Two as u32;
    assert_eq!(Rank::FullHouse(set_rank | low_rank), h.rank_seven());
}

#[test]
fn test_rank_seven_full_house_two_pair() {
    // Test to make sure that we pick the best pair.
    let h = Hand::new_from_str("2h2d2c8d8sKdKs").unwrap();
    let set_rank = (1 << Value::Two as u32) << 13;
    let low_rank = 1 << Value::King as u32;
    assert_eq!(Rank::FullHouse(set_rank | low_rank), h.rank_seven());
}

#[test]
fn test_two_pair_from_three_pair() {
    let h = Hand::new_from_str("2h2d8d8sKdKsTh").unwrap();
    let pair_rank = ((1 << Value::King as u32) | (1 << Value::Eight as u32)) << 13;
    let low_rank = 1 << Value::Ten as u32;
    assert_eq!(Rank::TwoPair(pair_rank | low_rank), h.rank_seven());
}

#[test]
fn test_rank_seven_two_pair() {
    let h = Hand::new_from_str("2h2d8d8sKd6sTh").unwrap();
    let pair_rank = ((1 << Value::Two as u32) | (1 << Value::Eight as u32)) << 13;
    let low_rank = 1 << Value::King as u32;
    assert_eq!(Rank::TwoPair(pair_rank | low_rank), h.rank_seven());
}

#[test]
fn rank_seven_agrees_with_rank_on_five_cards() {
    for s in ["Ad8h9cTc5c", "Ad8d9dTd5d", "AdAc9d9c9s", "AdAc9D9cTs", "AdAc9d8cTs", "AdAcAsAhTs", "Ad2c3s4h5s", "2c2s2h5s6d", "9sTsJsQsKs"] {
        let h = Hand::new_from_str(s).unwrap();
        assert_eq!(h.rank(), h.rank_seven(), "{}", s);
    }
}

#[test]
fn rank_of_card_vectors() {
    let cards = Hand::new_from_str("KsKh2c2d9s").unwrap().cards();
    assert_eq!(Hand::new_from_str("KsKh2c2d9s").unwrap().rank(), cards.rank());
    let seven = Hand::new_from_str("AhKhQhJh2c3c9s").unwrap().cards();
    assert_eq!(Rank::HighCard((1 << 12) | (1 << 11) | (1 << 10) | (1 << 9) | (1 << 7)), seven.rank_seven());
}

#[test]
fn rank_helpers() {
    assert_eq!(1 << 12, rs_poker::cards::rank::keep_highest(0x1F00));
    assert_eq!(0b1100, rs_poker::cards::rank::keep_n(0b1111, 2));
    assert_eq!(Some(9), rs_poker::cards::rank::rank_straight(0x1F00));
    assert_eq!(None, rs_poker::cards::rank::rank_straight(0x1E00));
    assert_eq!(Some(2), rs_poker::cards::rank::find_flush(&[1, 3, 0x1F, 0x1F]));
    assert_eq!(13, rs_poker::cards::rank::count_ones32(0x1FFF));
}

#[test]
fn rank_seven_is_the_best_five_card_rank() {
    for s in [
        "AdKdQdJdTd9s2c",
        "AsAhAdAc2s3h4d",
        "KsKhKd2s2h2dAc",
        "9s8s7s6s2s9h9d",
        "2c3d4h5s6cKdKh",
        "AcKd7h5s3c2d9h",
        "QsQhJdJc9s9h2d",
        "Ah2h3h4h5hKhQh",
        "TsJdQhKcAs2s3s",
        "7c7d7h8s8d2c3c",
    ] {
        let h = Hand::new_from_str(s).unwrap();
        let cards = h.cards();
        let mut best: Option<Rank> = None;
        for a in 0..7 {
            for b in (a + 1)..7 {
                for c in (b + 1)..7 {
                    for d in (c + 1)..7 {
                        for e in (d + 1)..7 {
                            let five = vec![cards[a], cards[b], cards[c], cards[d], cards[e]];
                            let r = five.rank();
                            if best.map_or(true, |x| r > x) {
                                best = Some(r);
                            }
                        }
                    }
                }
            }
        }
        assert_eq!(Some(h.rank_seven()), best, "{}", s);
    }
}
