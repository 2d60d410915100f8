use rs_poker::cards::{Card, Hand, RSPokerError, Rank, Suit, Value};
use rs_poker::holdem::MonteCarloGame;

#[test]
fn monte_carlo_game_test_simulate_pocket_pair() {
    let hands = ["AdAh", "2c2s"]
        .iter()
        .map(|s| Hand::new_from_str(s).unwrap())
        .collect();
    let mut g = MonteCarloGame::new(hands).unwrap();
    assert!(g.is_playable());
    let result = g.simulate();
    assert!(result.1 >= Rank::OnePair(0));
}

#[test]
fn test_simulate_pocket_pair_with_board() {
    let board = vec![
        Card {
            suit: Suit::Spade,
            value: Value::Ace,
        },
        Card {
            suit: Suit::Diamond,
            value: Value::Three,
        },
        Card {
            suit: Suit::Diamond,
            value: Value::Four,
        },
    ];
    let mut hands: Vec<Hand> = ["AdAh", "2c2s"]
        .iter()
        .map(|s| Hand::new_from_str(s).unwrap())
        .collect();

    for h in hands.iter_mut() {
        for c in &board {
            h.insert(*c);
        }
    }

    let mut g = MonteCarloGame::new(hands).unwrap();
    let result = g.simulate();
    assert!(result.1 >= Rank::ThreeOfAKind(0));
}

#[test]
fn test_unseen_hole_cards() {
    let hands = vec![Hand::new_from_str("KsKd").unwrap(), Hand::default()];
    let mut g = MonteCarloGame::new(hands).unwrap();
    for _i in 0..10_000 {
        let result = g.simulate();
        assert!(result.1 >= Rank::OnePair(11 << 13));
        g.reset();
    }
}

#[test]
fn test_simulate_set() {
    let mut hands: Vec<Hand> = ["6d6h", "3d3h"]
        .iter()
        .map(|s| Hand::new_from_str(s).unwrap())
        .collect();
    let board: Vec<Card> = vec![
        Card {
            value: Value::Six,
            suit: Suit::Spade,
        },
        Card {
            value: Value::King,
            suit: Suit::Diamond,
        },
        Card {
            value: Value::Queen,
            suit: Suit::Heart,
        },
    ];

    for h in hands.iter_mut() {
        for c in &board {
            h.insert(*c);
        }
    }

    let mut g = MonteCarloGame::new(hands).unwrap();
    let result = g.simulate();
    assert!(result.1 >= Rank::ThreeOfAKind(4));
}

#[test]
fn monte_carlo_rejects_big_hands() {
    let big = Hand::new_from_str("AsKsQsJsTs9s8s7s").unwrap();
    assert_eq!(
        Err(RSPokerError::HoldemHandSize),
        MonteCarloGame::new(vec![Hand::default(), big]).map(|_| ())
    );
}

#[test]
fn monte_carlo_winner_holds_best_hand() {
    // the first hand holds a royal flush already; nobody can beat it
    let royal = Hand::new_from_str("AsKsQsJsTs").unwrap();
    let other = Hand::new_from_str("2c7d").unwrap();
    let mut g = MonteCarloGame::new(vec![royal, other]).unwrap();
    for _ in 0..100 {
        let (winners, rank) = g.simulate();
        assert_eq!(Rank::StraightFlush(9), rank);
        assert!(winners.get(0));
        assert!(!winners.get(1));
        assert_eq!(1, winners.count());
        g.reset();
    }
}
