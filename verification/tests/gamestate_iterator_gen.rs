use rs_poker::arena::{
    FixedGameStateIteratorGen, GameState, GameStateIteratorGen, PerRoundFixedGameStateIteratorGen,
    Round,
};

#[test]
fn test_simple() {
    let game_state = GameState::new(vec![100; 3], 10, 5, 0);
    let generator = FixedGameStateIteratorGen::new(3);
    let mut iter = generator.generate(&game_state).into_iter();

    assert_eq!(iter.next().unwrap(), game_state);
    assert_eq!(iter.next().unwrap(), game_state);
    assert_eq!(iter.next().unwrap(), game_state);
    assert!(iter.next().is_none());
}

#[test]
fn test_per_round() {
    let mut game_state = GameState::new(vec![100; 3], 10, 5, 0);
    let generator = PerRoundFixedGameStateIteratorGen::new(2, 3, 4, 1);

    game_state.advance_round();
    assert_eq!(game_state.round, Round::Preflop);
    {
        let mut iter = generator.generate(&game_state).into_iter();
        assert_eq!(iter.next().unwrap(), game_state);
        assert_eq!(iter.next().unwrap(), game_state);
        assert!(iter.next().is_none());
    }

    game_state.advance_round();
    assert_eq!(game_state.round, Round::Flop);
    {
        let mut iter_flop = generator.generate(&game_state).into_iter();
        assert_eq!(iter_flop.next().unwrap(), game_state);
        assert_eq!(iter_flop.next().unwrap(), game_state);
        assert_eq!(iter_flop.next().unwrap(), game_state);
        assert!(iter_flop.next().is_none());
    }

    game_state.advance_round();
    assert_eq!(game_state.round, Round::Turn);
    {
        let mut iter_turn = generator.generate(&game_state).into_iter();
        assert_eq!(iter_turn.next().unwrap(), game_state);
        assert_eq!(iter_turn.next().unwrap(), game_state);
        assert_eq!(iter_turn.next().unwrap(), game_state);
        assert_eq!(iter_turn.next().unwrap(), game_state);
        assert!(iter_turn.next().is_none());
    }

    game_state.advance_round();
    assert_eq!(game_state.round, Round::River);
    {
        let mut iter_river = generator.generate(&game_state).into_iter();
        assert_eq!(iter_river.next().unwrap(), game_state);
        assert!(iter_river.next().is_none());
    }
}

#[test]
fn generators_default_counts() {
    let game_state = GameState::new(vec![100; 2], 10, 5, 0);
    assert_eq!(10, FixedGameStateIteratorGen::default().generate(&game_state).len());
    let per_round = PerRoundFixedGameStateIteratorGen::default();
    // the starting round is no betting round: one copy
    assert_eq!(1, per_round.generate(&game_state).len());
}
