use rs_poker::simulated_icm::IcmSimulation;

fn run(stacks: &[i32], payments: &[i32]) -> Vec<i32> {
    let mut sim = IcmSimulation::new(stacks, payments);
    while !sim.is_done() {
        assert!(sim.step());
    }
    sim.winnings()
}

#[test]
fn icm_every_place_paid_once() {
    let payments = vec![100, 30, 10];
    for _ in 0..200 {
        let mut w = run(&[1000, 2, 1], &payments);
        w.sort();
        assert_eq!(vec![10, 30, 100], w);
    }
}

#[test]
fn icm_places_beyond_payments_get_nothing() {
    let payments = vec![50];
    for _ in 0..100 {
        let mut w = run(&[5, 5, 5, 5], &payments);
        w.sort();
        assert_eq!(vec![0, 0, 0, 50], w);
    }
}

#[test]
fn icm_single_player_gets_nothing() {
    assert_eq!(vec![0], run(&[10], &[100, 50]));
}

#[test]
fn icm_play_round_moves_the_smaller_stack() {
    let mut sim = IcmSimulation::new(&[10, 4, 6], &[3, 2, 1]);
    // player 1 goes all in against player 0 and loses: busts into third
    sim.play_round(0, 1, true);
    assert_eq!(vec![0, 1, 0], sim.winnings());
    assert!(!sim.is_done());
    // player 2 beats player 0 for 6 chips; nobody busts
    sim.play_round(2, 0, true);
    assert_eq!(vec![0, 1, 0], sim.winnings());
    // player 0 (8 chips) loses everything to player 2 (12): second place
    sim.play_round(0, 2, false);
    assert!(sim.is_done());
    assert_eq!(vec![2, 1, 3], sim.winnings());
}

#[test]
fn test_huge_lead_wins() {
    let stacks = vec![1000, 2, 1];
    let payments = vec![100, 30, 10];

    let mut total_winnings = vec![0; 3];
    let num_trials = 1000;

    for _i in 0..num_trials {
        let single_wins = run(&stacks, &payments);
        total_winnings = total_winnings
            .iter()
            .zip(single_wins.iter())
            .map(|(a, b)| a + b)
            .collect()
    }

    let final_share: Vec<f64> = total_winnings
        .iter()
        .map(|v| (*v as f64) / (num_trials as f64))
        .collect();

    assert!(
        final_share[0] > final_share[1],
        "The total winnings of a player with most of the chips should be above the rest."
    );
}

#[test]
fn about_same() {
    let stacks = vec![1000, 1000, 999];
    let payments = vec![100, 30, 10];

    let mut total_winnings = vec![0; 3];
    let num_trials = 1000;

    for _i in 0..num_trials {
        let single_wins = run(&stacks, &payments);
        total_winnings = total_winnings
            .iter()
            .zip(single_wins.iter())
            .map(|(a, b)| a + b)
            .collect()
    }

    let final_share: Vec<f64> = total_winnings
        .iter()
        .map(|v| (*v as f64) / (num_trials as f64))
        .collect();

    let sum: f64 = final_share.iter().sum();
    let avg = sum / (final_share.len() as f64);

    for &share in final_share.iter() {
        assert!(share < 1.1 * avg);
        assert!(1.1 * share > avg);
    }
}

#[test]
fn icm_empty_stack_busts_when_drawn() {
    for _ in 0..200 {
        let mut w = run(&[0, 5, 5], &[100, 30, 10]);
        // the empty-stacked player busts third, or second when the two
        // others meet first; it never wins
        assert!(w[0] == 10 || w[0] == 30);
        w.sort();
        assert_eq!(vec![10, 30, 100], w);
    }
}

#[test]
fn icm_two_empty_stacks_as_last_two_cannot_play() {
    let mut sim = IcmSimulation::new(&[0, 0], &[100, 30]);
    assert!(!sim.step());
    assert!(!sim.is_done());
    assert_eq!(vec![0, 0], sim.winnings());
}

#[test]
fn icm_two_empty_stacks_meeting_for_the_last_places() {
    // Player 0 and player 1 meet with no chips for the last two places:
    // player 0 busts third, player 1 second, and player 0 is then paid
    // the first place's payment as well.
    let mut sim = IcmSimulation::new(&[0, 0, 5], &[100, 30, 10]);
    sim.play_round(0, 1, true);
    assert!(sim.is_done());
    assert_eq!(vec![110, 30, 0], sim.winnings());
}
