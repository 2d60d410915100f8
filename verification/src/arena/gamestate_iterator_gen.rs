//! Generators of the game states a tree search explores from a state:
//! here, a fixed number of copies of the state.

use vstd::prelude::*;
use crate::arena::game_state::{GameState, Round, RoundData};

verus! {

/// A copy of a vector of copyable items.
fn copy_vec<T: Copy>(v: &Vec<T>) -> (r: Vec<T>)
    ensures
        r@ == v@,
{
    let mut out: Vec<T> = Vec::new();
    let mut i: usize = 0;
    while i < v.len()
        invariant
            i <= v.len(),
            out@ == v@.take(i as int),
        decreases v.len() - i,
    {
        out.push(v[i]);
        proof {
            assert(out@ =~= v@.take(i + 1));
        }
        i = i + 1;
    }
    proof {
        assert(v@.take(i as int) =~= v@);
    }
    out
}

/// Two rounds hold the same values: equal fields, and vectors with the
/// same contents.
pub open spec fn same_round(a: RoundData, b: RoundData) -> bool {
    &&& a.player_active == b.player_active
    &&& a.min_raise == b.min_raise
    &&& a.bet == b.bet
    &&& a.player_bet@ == b.player_bet@
    &&& a.bet_count@ == b.bet_count@
    &&& a.raise_count@ == b.raise_count@
    &&& a.to_act_idx == b.to_act_idx
}

/// Two game states hold the same values: equal fields, vectors with the
/// same contents, and rounds that are the same one by one.
pub open spec fn same_state(a: GameState, b: GameState) -> bool {
    &&& a.num_players == b.num_players
    &&& a.player_active == b.player_active
    &&& a.player_all_in == b.player_all_in
    &&& a.total_pot == b.total_pot
    &&& a.stacks@ == b.stacks@
    &&& a.player_bet@ == b.player_bet@
    &&& a.player_winnings@ == b.player_winnings@
    &&& a.big_blind == b.big_blind
    &&& a.small_blind == b.small_blind
    &&& a.hands@ == b.hands@
    &&& a.dealer_idx == b.dealer_idx
    &&& a.round == b.round
    &&& a.round_data.len() == b.round_data.len()
    &&& forall|i: int|
        0 <= i < a.round_data.len() ==> same_round(#[trigger] a.round_data@[i], b.round_data@[i])
    &&& a.board@ == b.board@
}

/// A copy of a round.
fn copy_round(r: &RoundData) -> (c: RoundData)
    ensures
        same_round(c, *r),
{
    RoundData {
        player_active: r.player_active,
        min_raise: r.min_raise,
        bet: r.bet,
        player_bet: copy_vec(&r.player_bet),
        bet_count: copy_vec(&r.bet_count),
        raise_count: copy_vec(&r.raise_count),
        to_act_idx: r.to_act_idx,
    }
}

/// A copy of a game state.
pub fn copy_state(gs: &GameState) -> (c: GameState)
    ensures
        same_state(c, *gs),
{
    let mut rounds: Vec<RoundData> = Vec::new();
    let mut i: usize = 0;
    while i < gs.round_data.len()
        invariant
            i <= gs.round_data.len(),
            rounds.len() == i,
            forall|j: int| 0 <= j < i ==> same_round(#[trigger] rounds@[j], gs.round_data@[j]),
        decreases gs.round_data.len() - i,
    {
        rounds.push(copy_round(&gs.round_data[i]));
        i = i + 1;
    }
    GameState {
        num_players: gs.num_players,
        player_active: gs.player_active,
        player_all_in: gs.player_all_in,
        total_pot: gs.total_pot,
        stacks: copy_vec(&gs.stacks),
        player_bet: copy_vec(&gs.player_bet),
        player_winnings: copy_vec(&gs.player_winnings),
        big_blind: gs.big_blind,
        small_blind: gs.small_blind,
        hands: copy_vec(&gs.hands),
        dealer_idx: gs.dealer_idx,
        round: gs.round,
        round_data: rounds,
        board: copy_vec(&gs.board),
    }
}

/// `n` copies of a game state.
fn copies(game_state: &GameState, n: usize) -> (r: Vec<GameState>)
    ensures
        r.len() == n,
        forall|i: int| 0 <= i < n ==> same_state(#[trigger] r@[i], *game_state),
{
    let mut out: Vec<GameState> = Vec::new();
    let mut i: usize = 0;
    while i < n
        invariant
            i <= n,
            out.len() == i,
            forall|j: int| 0 <= j < i ==> same_state(#[trigger] out@[j], *game_state),
        decreases n - i,
    {
        out.push(copy_state(game_state));
        i = i + 1;
    }
    out
}

/// Makes the game states to explore from a given one.
pub trait GameStateIteratorGen {
    /// How many states `generate` gives for this state.
    spec fn count_for(&self, game_state: GameState) -> nat;

    /// The states to explore from `game_state`: copies of it.
    fn generate(&self, game_state: &GameState) -> (r: Vec<GameState>)
        ensures
            r.len() == self.count_for(*game_state),
            forall|i: int| 0 <= i < r.len() ==> same_state(#[trigger] r@[i], *game_state),
    ;
}

/// Gives the same number of copies of every state.
#[derive(Clone, Debug)]
pub struct FixedGameStateIteratorGen {
    /// How many copies to give.
    pub num_hands: usize,
}

impl FixedGameStateIteratorGen {
    /// A generator giving `num_hands` copies.
    pub fn new(num_hands: usize) -> (r: Self)
        ensures
            r.num_hands == num_hands,
    {
        FixedGameStateIteratorGen { num_hands }
    }
}

impl Default for FixedGameStateIteratorGen {
    /// Ten copies.
    fn default() -> (r: Self)
        ensures
            r.num_hands == 10,
    {
        FixedGameStateIteratorGen { num_hands: 10 }
    }
}

impl GameStateIteratorGen for FixedGameStateIteratorGen {
    open spec fn count_for(&self, game_state: GameState) -> nat {
        self.num_hands as nat
    }

    fn generate(&self, game_state: &GameState) -> (r: Vec<GameState>) {
        copies(game_state, self.num_hands)
    }
}

/// Gives a number of copies that depends on the betting round.
#[derive(Clone, Debug)]
pub struct PerRoundFixedGameStateIteratorGen {
    /// Copies before the flop.
    pub pre_flop_num_hands: usize,
    /// Copies on the flop.
    pub flop_num_hands: usize,
    /// Copies on the turn.
    pub turn_num_hands: usize,
    /// Copies on the river.
    pub river_num_hands: usize,
}

/// The number of copies for a round; one outside the betting rounds.
pub open spec fn per_round_count(g: PerRoundFixedGameStateIteratorGen, round: Round) -> nat {
    match round {
        Round::Preflop => g.pre_flop_num_hands as nat,
        Round::Flop => g.flop_num_hands as nat,
        Round::Turn => g.turn_num_hands as nat,
        Round::River => g.river_num_hands as nat,
        _ => 1,
    }
}

impl PerRoundFixedGameStateIteratorGen {
    /// A generator with the given number of copies for each round.
    pub fn new(
        pre_flop_num_hands: usize,
        flop_num_hands: usize,
        turn_num_hands: usize,
        river_num_hands: usize,
    ) -> (r: Self)
        ensures
            r.pre_flop_num_hands == pre_flop_num_hands,
            r.flop_num_hands == flop_num_hands,
            r.turn_num_hands == turn_num_hands,
            r.river_num_hands == river_num_hands,
    {
        PerRoundFixedGameStateIteratorGen {
            pre_flop_num_hands,
            flop_num_hands,
            turn_num_hands,
            river_num_hands,
        }
    }

    /// The number of copies for the state's round.
    fn num_hands(&self, game_state: &GameState) -> (r: usize)
        ensures
            r == per_round_count(*self, game_state.round),
    {
        match game_state.round {
            Round::Preflop => self.pre_flop_num_hands,
            Round::Flop => self.flop_num_hands,
            Round::Turn => self.turn_num_hands,
            Round::River => self.river_num_hands,
            _ => 1,
        }
    }
}

impl Default for PerRoundFixedGameStateIteratorGen {
    /// Ten copies before the river, one on it.
    fn default() -> (r: Self)
        ensures
            r.pre_flop_num_hands == 10,
            r.flop_num_hands == 10,
            r.turn_num_hands == 10,
            r.river_num_hands == 1,
    {
        PerRoundFixedGameStateIteratorGen {
            pre_flop_num_hands: 10,
            flop_num_hands: 10,
            turn_num_hands: 10,
            river_num_hands: 1,
        }
    }
}

impl GameStateIteratorGen for PerRoundFixedGameStateIteratorGen {
    open spec fn count_for(&self, game_state: GameState) -> nat {
        per_round_count(*self, game_state.round)
    }

    fn generate(&self, game_state: &GameState) -> (r: Vec<GameState>) {
        let n = self.num_hands(game_state);
        copies(game_state, n)
    }
}

} // verus!
