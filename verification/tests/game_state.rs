use rs_poker::arena::{GameState, GameStateError, Round, RoundData};
use rs_poker::utils::PlayerBitSet;

#[test]
fn test_fold_around_call() {
    let stacks = vec![100; 4];
    let mut game_state = GameState::new(stacks, 10, 5, 1);
    game_state.advance_round();

    // 0 player, 1 dealer, 2 small blind, 3 big blind
    assert_eq!(0, game_state.current_round_data().to_act_idx);
    game_state.fold();
    game_state.fold();
    game_state.do_bet(10, false).unwrap();
    game_state.do_bet(10, false).unwrap();
    assert_eq!(0, game_state.current_round_data().num_active_players());
    assert_eq!(2, game_state.num_active_players());

    // Flop
    game_state.advance_round();
    assert_eq!(2, game_state.current_round_data().to_act_idx);
    game_state.do_bet(0, false).unwrap();
    assert_eq!(3, game_state.current_round_data().to_act_idx);
    game_state.do_bet(0, false).unwrap();
    assert_eq!(0, game_state.current_round_data().num_active_players());
    assert_eq!(2, game_state.num_active_players());

    // Turn
    game_state.advance_round();
    assert_eq!(2, game_state.current_round_data().to_act_idx);
    assert_eq!(2, game_state.current_round_data().num_active_players());
    game_state.do_bet(0, false).unwrap();
    game_state.do_bet(0, false).unwrap();
    assert_eq!(0, game_state.current_round_data().num_active_players());
    assert_eq!(2, game_state.num_active_players());

    // River
    game_state.advance_round();
    game_state.do_bet(0, false).unwrap();
    game_state.do_bet(0, false).unwrap();
    assert_eq!(0, game_state.current_round_data().num_active_players());
    assert_eq!(2, game_state.num_active_players());

    game_state.advance_round();
    assert_eq!(Round::Showdown, game_state.round);
}

#[test]
fn test_cant_bet_less_0() {
    let stacks = vec![100; 5];
    let mut game_state = GameState::new(stacks, 2, 1, 0);
    game_state.advance_round();

    game_state.do_bet(33, false).unwrap();
    game_state.fold();
    let res = game_state.do_bet(20, false);

    assert_eq!(res.err(), Some(GameStateError::BetSizeDoesntCall));
}

#[test]
fn test_cant_bet_less_with_all_in() {
    let stacks = vec![100, 50, 50, 100, 10];
    let mut game_state = GameState::new(stacks, 2, 1, 0);
    // Post blinds and setup next to act
    game_state.advance_round();

    // UTG raises to 10
    game_state.do_bet(10, false).unwrap();

    // UTG+1 has 10 remaining so betting 100 is overbetting
    // into an all in.
    game_state.do_bet(100, false).unwrap();

    // Dealer gets out of the way
    game_state.fold();

    // Small Blind raises to 20
    game_state.do_bet(20, false).unwrap();

    // Big Blind can't call the previous value.
    let res = game_state.do_bet(10, false);
    assert_eq!(res.err(), Some(GameStateError::BetSizeDoesntCall));
}

#[test]
fn test_cant_under_minraise_bb() {
    let stacks = vec![500; 5];
    let mut game_state = GameState::new(stacks, 20, 10, 0);
    // Post blinds and setup next to act
    game_state.advance_round();

    // UTG raises to 33
    //
    // However the min raise is the big blind
    // so since the bb has already posted
    // we're not able to raise 13
    assert_eq!(Err(GameStateError::RaiseSizeTooSmall), game_state.do_bet(33, false));
}

#[test]
fn blinds_and_chips_are_conserved() {
    let mut gs = GameState::new(vec![100, 100, 3], 10, 5, 0);
    gs.advance_round();
    assert_eq!(Round::Preflop, gs.round);
    // small blind at seat 1, big blind at seat 2 (capped at its stack)
    assert_eq!(vec![100, 95, 0], gs.stacks);
    assert_eq!(8, gs.total_pot);
    assert_eq!(1, gs.num_all_in_players());
    assert_eq!(2, gs.num_active_players());
    assert!(!gs.is_complete());
    // a raise from 5 to 10 is below the minimum raise of one big blind
    assert_eq!(Err(GameStateError::RaiseSizeTooSmall), gs.do_bet(10, false));
    assert_eq!(Err(GameStateError::BetSizeDoesntCallSelf), {
        gs.do_bet(15, false).unwrap();
        gs.do_bet(4, false)
    });
    let total: i32 = gs.stacks.iter().sum::<i32>() + gs.total_pot;
    assert_eq!(203, total);
    gs.award(0, 18);
    assert_eq!(vec![103, 95, 0], gs.stacks);
    assert_eq!(18, gs.player_winnings[0]);
    gs.complete();
    assert!(gs.is_complete());
    assert_eq!(Round::Complete, gs.round);
    gs.advance_round();
    assert_eq!(Round::Complete, gs.round);
}

#[test]
fn round_advance_sequence() {
    let mut r = Round::Starting;
    let expected = [Round::Preflop, Round::Flop, Round::Turn, Round::River, Round::Showdown, Round::Complete, Round::Complete];
    for e in expected {
        r = r.advance();
        assert_eq!(e, r);
    }
    assert_eq!(GameStateError::RaiseSizeTooSmall.message(), "The raise is below the minimum raise size");
}

#[test]
fn game_state_negative_forced_bet_returns_chips() {
    let mut game_state = GameState::new(vec![100, 100, 100], 10, 5, 0);
    // seat 1 acts first after the dealer
    assert_eq!(1, game_state.current_round_data().to_act_idx);
    assert_eq!(Ok(-5), game_state.do_bet(-5, true));
    assert_eq!(105, game_state.stacks[1]);
    assert_eq!(-5, game_state.total_pot);
}

#[test]
fn game_state_empty_stack_can_fold() {
    let mut game_state = GameState::new(vec![0, 100, 100], 10, 5, 2);
    assert_eq!(0, game_state.current_round_data().to_act_idx);
    game_state.fold();
    assert_eq!(2, game_state.num_active_players());
}

fn round_at_table(seats: usize, active: PlayerBitSet, to_act_idx: usize) -> RoundData {
    RoundData {
        player_active: active,
        min_raise: 0,
        bet: 0,
        player_bet: vec![0; seats],
        bet_count: vec![0; seats],
        raise_count: vec![0; seats],
        to_act_idx,
    }
}

#[test]
fn advance_skips_seats_not_to_act() {
    let mut active = PlayerBitSet::new(6);
    active.disable(3);
    let mut rd = round_at_table(6, active, 2);
    rd.advance();
    assert_eq!(4, rd.to_act_idx);
    rd.to_act_idx = 5;
    rd.advance();
    assert_eq!(0, rd.to_act_idx);
}

#[test]
fn advance_with_nobody_to_act_takes_next_seat() {
    let mut rd = round_at_table(3, PlayerBitSet::default(), 2);
    rd.advance();
    assert_eq!(0, rd.to_act_idx);
    rd.advance();
    assert_eq!(1, rd.to_act_idx);
}

#[test]
fn advance_at_a_table_of_more_than_sixteen() {
    let mut active = PlayerBitSet::default();
    active.enable(1);
    active.enable(9);
    let mut rd = round_at_table(20, active, 3);
    rd.advance();
    assert_eq!(9, rd.to_act_idx);
    rd.to_act_idx = 19;
    rd.advance();
    assert_eq!(1, rd.to_act_idx);

    let mut idle = round_at_table(20, PlayerBitSet::default(), 18);
    idle.advance();
    assert_eq!(19, idle.to_act_idx);
    idle.advance();
    assert_eq!(0, idle.to_act_idx);
}
