use vstd::prelude::*;
use crate::arena::errors::GameStateError;
use crate::cards::card::Card;
use crate::cards::hand::Hand;
use crate::utils::player_bit_set::PlayerBitSet;

verus! {

/// The stages of a hand.
#[derive(Copy, Clone, Debug, PartialEq, Eq, Structural)]
pub enum Round {
    Starting,
    Preflop,
    Flop,
    Turn,
    River,
    Showdown,
    Complete,
}

/// The stage after `r`; `Complete` stays `Complete`.
pub open spec fn next_round(r: Round) -> Round {
    match r {
        Round::Starting => Round::Preflop,
        Round::Preflop => Round::Flop,
        Round::Flop => Round::Turn,
        Round::Turn => Round::River,
        Round::River => Round::Showdown,
        Round::Showdown => Round::Complete,
        Round::Complete => Round::Complete,
    }
}

impl Round {
    /// The stage after this one.
    pub fn advance(&self) -> (r: Self)
        ensures
            r == next_round(*self),
    {
        match *self {
            Round::Starting => Round::Preflop,
            Round::Preflop => Round::Flop,
            Round::Flop => Round::Turn,
            Round::Turn => Round::River,
            Round::River => Round::Showdown,
            Round::Showdown => Round::Complete,
            Round::Complete => Round::Complete,
        }
    }
}

/// The seat after `i` at a table of `n` seats.
pub open spec fn seat_step(i: int, n: int) -> int {
    (i + 1) % n
}

/// The first seat after `i`, going round the table of `n` seats, that is
/// in `active`, looking at most `fuel + 1` seats ahead; the last seat
/// looked at when none is found.
pub open spec fn first_active_after(active: Set<int>, n: int, i: int, fuel: nat) -> int
    decreases fuel,
{
    let j = seat_step(i, n);
    if fuel == 0 || active.contains(j) {
        j
    } else {
        first_active_after(active, n, j, (fuel - 1) as nat)
    }
}

/// How many steps round the table lead from seat `i` to seat `a`
/// (a full turn when they are the same seat).
pub open spec fn seat_distance(i: int, a: int, n: int) -> int {
    if a > i {
        a - i
    } else {
        a + n - i
    }
}

/// Moving the turn on from seat `t` of an `n`-seat table asks only about
/// seats below 16, the seats a `PlayerBitSet` holds: nobody is left to
/// act, the table has at most 16 seats, the turn wraps round to seat 0
/// at once, or someone still to act sits after seat `t`.
pub open spec fn turn_stays_in_bits(active: Set<int>, n: int, t: int) -> bool {
    ||| active.is_empty()
    ||| n <= 16
    ||| t + 1 == n
    ||| exists|a: int| #[trigger] active.contains(a) && t < a
}

/// The seat to act after `i`: the next seat in `active`, or simply the
/// next seat when nobody is active.
pub open spec fn next_to_act(active: Set<int>, n: int, i: int) -> int {
    if active.is_empty() {
        seat_step(i, n)
    } else {
        first_active_after(active, n, i, n as nat)
    }
}

proof fn lemma_seat_step(i: int, n: int)
    requires
        0 <= i,
        0 < n,
    ensures
        0 <= seat_step(i, n) < n,
        i < n ==> seat_step(i, n) == if i + 1 == n {
            0
        } else {
            i + 1
        },
{
    if i < n {
        if i + 1 == n {
            vstd::arithmetic::div_mod::lemma_mod_self_0(n);
        } else {
            vstd::arithmetic::div_mod::lemma_small_mod((i + 1) as nat, n as nat);
        }
    }
    vstd::arithmetic::div_mod::lemma_mod_bound(i + 1, n);
}

/// The betting state of one round.
#[derive(Clone, Debug, PartialEq)]
pub struct RoundData {
    /// The players who still have to act this round.
    pub player_active: PlayerBitSet,
    /// The minimum allowed raise.
    pub min_raise: i32,
    /// The amount to call.
    pub bet: i32,
    /// How much each player has put in this round.
    pub player_bet: Vec<i32>,
    /// How many times each player has put in money.
    pub bet_count: Vec<u8>,
    /// How many times each player has raised voluntarily.
    pub raise_count: Vec<u8>,
    /// The seat of the next player to act.
    pub to_act_idx: usize,
}

impl RoundData {
    /// The round's vectors have one entry per seat of an `n`-seat table,
    /// and its seats lie on that table.
    pub open spec fn wf(&self, n: nat) -> bool {
        &&& self.player_bet.len() == n
        &&& self.bet_count.len() == n
        &&& self.raise_count.len() == n
        &&& self.to_act_idx < n
        &&& forall|i: int| #[trigger] self.player_active@.contains(i) ==> 0 <= i < n
    }

    /// Move the turn to the next seat still to act this round (or to the
    /// next seat when nobody is left to act). On a table of more than 16
    /// seats the walk must not pass seat 16 before it finds a seat to act,
    /// as asking a `PlayerBitSet` about that seat overflows its shift.
    pub fn advance(&mut self)
        requires
            0 < old(self).player_bet.len(),
            forall|i: int| #[trigger] old(self).player_active@.contains(i) ==> 0 <= i < old(self).player_bet.len(),
            old(self).to_act_idx < usize::MAX,
            turn_stays_in_bits(
                old(self).player_active@,
                old(self).player_bet.len() as int,
                old(self).to_act_idx as int,
            ),
        ensures
            final(self).to_act_idx == next_to_act(
                old(self).player_active@,
                old(self).player_bet.len() as int,
                old(self).to_act_idx as int,
            ),
            final(self).to_act_idx < old(self).player_bet.len(),
            final(self).player_active == old(self).player_active,
            final(self).min_raise == old(self).min_raise,
            final(self).bet == old(self).bet,
            final(self).player_bet == old(self).player_bet,
            final(self).bet_count == old(self).bet_count,
            final(self).raise_count == old(self).raise_count,
    {
        let n = self.player_bet.len();
        let ghost active = self.player_active@;
        let ghost start = self.to_act_idx as int;
        let ghost a: int = if active.is_empty() {
            0
        } else {
            active.choose()
        };
        let ghost mut fuel: nat = n as nat;
        proof {
            if !active.is_empty() {
                assert(active.contains(a));
            }
        }
        loop
            invariant_except_break
                self.to_act_idx < usize::MAX,
                fuel <= n,
                fuel < n ==> self.to_act_idx < n,
                !active.is_empty() ==> (fuel < n ==> seat_distance(
                    self.to_act_idx as int,
                    a,
                    n as int,
                ) <= fuel + 1),
                !active.is_empty() ==> next_to_act(active, n as int, start) == first_active_after(
                    active,
                    n as int,
                    self.to_act_idx as int,
                    fuel,
                ),
                fuel == n ==> self.to_act_idx == start,
                active.is_empty() ==> fuel == n,
                turn_stays_in_bits(active, n as int, self.to_act_idx as int),
            invariant
                n == self.player_bet.len(),
                0 < n,
                active == self.player_active@,
                forall|i: int| #[trigger] active.contains(i) ==> 0 <= i < n,
                !active.is_empty() ==> active.contains(a),
                self.player_active == old(self).player_active,
                self.min_raise == old(self).min_raise,
                self.bet == old(self).bet,
                self.player_bet == old(self).player_bet,
                self.bet_count == old(self).bet_count,
                self.raise_count == old(self).raise_count,
            ensures
                self.to_act_idx == next_to_act(active, n as int, start),
                self.to_act_idx < n,
            decreases fuel,
        {
            let ghost prev = self.to_act_idx as int;
            proof {
                lemma_seat_step(prev, n as int);
            }
            self.to_act_idx = (self.to_act_idx + 1) % n;
            proof {
                if !active.is_empty() && n > 16 {
                    if prev + 1 == n {
                        assert(self.to_act_idx == 0);
                    } else {
                        let w = choose|w: int| #[trigger] active.contains(w) && prev < w;
                        assert(self.to_act_idx as int == prev + 1);
                        assert(w < 16);
                    }
                }
            }
            if self.player_active.empty() || self.player_active.get(self.to_act_idx) {
                proof {
                    if active.is_empty() {
                        assert(prev == start);
                    }
                }
                break;
            }
            proof {
                assert(!active.is_empty());
                if fuel < n {
                    assert(self.to_act_idx as int != a);
                    assert(seat_distance(self.to_act_idx as int, a, n as int) == seat_distance(
                        prev,
                        a,
                        n as int,
                    ) - 1);
                } else {
                    assert(seat_distance(self.to_act_idx as int, a, n as int) <= n);
                }
                if n > 16 && self.to_act_idx as int + 1 != n {
                    if prev + 1 == n {
                        assert(active.contains(a) && (self.to_act_idx as int) < a);
                    } else {
                        let w = choose|w: int| #[trigger] active.contains(w) && prev < w;
                        assert(active.contains(w) && (self.to_act_idx as int) < w);
                    }
                }
                assert(fuel > 0);
                fuel = (fuel - 1) as nat;
            }
        }
    }

    /// Put `extra_ammount` more in for the player to act: count the bet,
    /// count a raise when it is voluntary and goes above the amount to
    /// call, raise the amount to call to this player's total when it is
    /// higher, and raise the minimum raise to this bet when it is higher.
    pub fn do_bet(&mut self, extra_ammount: i32, is_forced: bool)
        requires
            old(self).to_act_idx < old(self).player_bet.len(),
            old(self).player_bet.len() == old(self).bet_count.len(),
            old(self).player_bet.len() == old(self).raise_count.len(),
            old(self).bet_count[old(self).to_act_idx as int] < 255,
            old(self).raise_count[old(self).to_act_idx as int] < 255,
            i32::MIN <= old(self).player_bet[old(self).to_act_idx as int] + extra_ammount <= i32::MAX,
        ensures
            ({
                let idx = old(self).to_act_idx as int;
                let nb = old(self).player_bet[idx] + extra_ammount;
                &&& final(self).player_bet@ == old(self).player_bet@.update(idx, nb as i32)
                &&& final(self).bet_count@ == old(self).bet_count@.update(
                    idx,
                    (old(self).bet_count[idx] + 1) as u8,
                )
                &&& final(self).raise_count@ == if !is_forced && nb > old(self).bet {
                    old(self).raise_count@.update(idx, (old(self).raise_count[idx] + 1) as u8)
                } else {
                    old(self).raise_count@
                }
                &&& final(self).bet == if nb > old(self).bet {
                    nb
                } else {
                    old(self).bet as int
                }
                &&& final(self).min_raise == if extra_ammount > old(self).min_raise {
                    extra_ammount
                } else {
                    old(self).min_raise
                }
                &&& final(self).player_active == old(self).player_active
                &&& final(self).to_act_idx == old(self).to_act_idx
            }),
    {
        let idx = self.to_act_idx;
        let nb = self.player_bet[idx] + extra_ammount;
        self.player_bet.set(idx, nb);
        let c = self.bet_count[idx] + 1;
        self.bet_count.set(idx, c);
        let is_bet = self.player_bet[idx] > self.bet;
        if !is_forced && is_bet {
            let rc = self.raise_count[idx] + 1;
            self.raise_count.set(idx, rc);
        }
        if self.player_bet[idx] > self.bet {
            self.bet = self.player_bet[idx];
        }
        if extra_ammount > self.min_raise {
            self.min_raise = extra_ammount;
        }
    }

    /// How many players still have to act this round.
    pub fn num_active_players(&self) -> (r: usize)
        ensures
            r == self.player_active@.len(),
    {
        self.player_active.count()
    }

    /// How much the player to act has put in this round.
    pub fn current_player_bet(&self) -> (r: i32)
        requires
            self.to_act_idx < self.player_bet.len(),
        ensures
            r == self.player_bet[self.to_act_idx as int],
    {
        self.player_bet[self.to_act_idx]
    }
}


/// The sum of a sequence of chip counts.
pub open spec fn seq_sum(s: Seq<i32>) -> int
    decreases s.len(),
{
    if s.len() == 0 {
        0
    } else {
        seq_sum(s.drop_last()) + s.last()
    }
}

/// Changing one entry changes the sum by the difference.
pub proof fn lemma_seq_sum_update(s: Seq<i32>, i: int, v: i32)
    requires
        0 <= i < s.len(),
    ensures
        seq_sum(s.update(i, v)) == seq_sum(s) - s[i] + v,
    decreases s.len(),
{
    if i < s.len() - 1 {
        lemma_seq_sum_update(s.drop_last(), i, v);
        assert(s.update(i, v).drop_last() =~= s.drop_last().update(i, v));
    } else {
        assert(s.update(i, v).drop_last() =~= s.drop_last());
    }
}

/// A sum of non-negative entries bounds each entry and is non-negative.
pub proof fn lemma_seq_sum_bounds(s: Seq<i32>, i: int)
    requires
        forall|k: int| 0 <= k < s.len() ==> s[k] >= 0,
        0 <= i < s.len(),
    ensures
        0 <= s[i] <= seq_sum(s),
    decreases s.len(),
{
    lemma_seq_sum_nonneg(s.drop_last());
    if i < s.len() - 1 {
        lemma_seq_sum_bounds(s.drop_last(), i);
    }
}

/// A sum of non-negative entries is non-negative.
pub proof fn lemma_seq_sum_nonneg(s: Seq<i32>)
    requires
        forall|k: int| 0 <= k < s.len() ==> s[k] >= 0,
    ensures
        seq_sum(s) >= 0,
    decreases s.len(),
{
    if s.len() > 0 {
        lemma_seq_sum_nonneg(s.drop_last());
    }
}

/// The sum of `n` zeros is zero.
pub proof fn lemma_seq_sum_zeros(s: Seq<i32>)
    requires
        forall|k: int| 0 <= k < s.len() ==> s[k] == 0,
    ensures
        seq_sum(s) == 0,
    decreases s.len(),
{
    if s.len() > 0 {
        lemma_seq_sum_zeros(s.drop_last());
    }
}

/// `rd` is the state of a round that has just started at a table of `n`
/// seats: nothing bet, the minimum raise is the big blind, the players
/// still in the hand are to act, and the turn is at the first of them
/// after the dealer.
pub open spec fn fresh_round(rd: RoundData, active: PlayerBitSet, n: nat, big_blind: i32, dealer_idx: usize) -> bool {
    &&& rd.player_bet@ == Seq::new(n, |i: int| 0i32)
    &&& rd.bet_count@ == Seq::new(n, |i: int| 0u8)
    &&& rd.raise_count@ == Seq::new(n, |i: int| 0u8)
    &&& rd.bet == 0
    &&& rd.min_raise == big_blind
    &&& rd.player_active == active
    &&& rd.to_act_idx == next_to_act(active@, n as int, dealer_idx as int)
}

/// The state of a holdem hand.
#[derive(Clone, Debug, PartialEq)]
pub struct GameState {
    /// The number of players that started.
    pub num_players: usize,
    /// The players still in the hand.
    pub player_active: PlayerBitSet,
    /// The players who have gone all in.
    pub player_all_in: PlayerBitSet,
    /// The total amount in all pots.
    pub total_pot: i32,
    /// How much is left in each player's stack.
    pub stacks: Vec<i32>,
    /// How much each player has put in over the hand.
    pub player_bet: Vec<i32>,
    /// How much each player has been awarded.
    pub player_winnings: Vec<i32>,
    /// The big blind.
    pub big_blind: i32,
    /// The small blind.
    pub small_blind: i32,
    /// Each player's hand, kept even after the player folds.
    pub hands: Vec<Hand>,
    /// The seat of the dealer.
    pub dealer_idx: usize,
    /// The current stage.
    pub round: Round,
    /// The betting state of each round so far; the last is the current one.
    pub round_data: Vec<RoundData>,
    /// The community cards.
    pub board: Vec<Card>,
}

/// How a bet of `ammount` by the player to act is judged: a forced bet
/// is capped at the stack; a voluntary one must not be below what the
/// player already put in this round, must call unless it is all in, and
/// a raise that is not all in must reach the minimum raise. `Ok` holds
/// the chips that actually go in.
pub open spec fn bet_result(gs: GameState, ammount: i32, is_forced: bool) -> Result<i32, GameStateError> {
    let rd = gs.round_data@.last();
    let idx = rd.to_act_idx as int;
    let stack = gs.stacks@[idx];
    if is_forced {
        Ok(if stack < ammount { stack } else { ammount })
    } else if rd.player_bet@[idx] > ammount {
        Err(GameStateError::BetSizeDoesntCallSelf)
    } else {
        let extra = ammount - rd.player_bet@[idx];
        let capped = if stack < extra { stack as int } else { extra };
        let new_bet = rd.player_bet@[idx] + capped;
        let raise = if new_bet - rd.bet > 0 { new_bet - rd.bet } else { 0 };
        let all_in = capped == stack;
        if new_bet < rd.bet && !all_in {
            Err(GameStateError::BetSizeDoesntCall)
        } else if raise > 0 && !all_in && raise < rd.min_raise {
            Err(GameStateError::RaiseSizeTooSmall)
        } else {
            Ok(capped as i32)
        }
    }
}

/// What a voluntary bet of `ammount` (the player's total for the round)
/// gets, for a player to act with `stack >= 0` chips behind: asking less
/// than the player already put in is refused; asking for the whole stack
/// or more is an all in and always accepted, with the whole stack going
/// in; any accepted bet puts in the smaller of the stack and what it adds
/// to the player's round bet; a bet refused for not calling is no all in
/// and leaves the player short of the amount to call; and a bet refused
/// as too small a raise is no all in and goes above the amount to call.
pub proof fn lemma_bet_result_laws(gs: GameState, ammount: i32)
    requires
        gs.round_data@.len() > 0,
        ({
            let rd = gs.round_data@.last();
            &&& rd.to_act_idx < rd.player_bet@.len()
            &&& rd.to_act_idx < gs.stacks@.len()
            &&& gs.stacks@[rd.to_act_idx as int] >= 0
        }),
    ensures
        ({
            let rd = gs.round_data@.last();
            let idx = rd.to_act_idx as int;
            let stack = gs.stacks@[idx] as int;
            let pb = rd.player_bet@[idx] as int;
            let r = bet_result(gs, ammount, false);
            &&& (ammount < pb <==> r == Err::<i32, GameStateError>(GameStateError::BetSizeDoesntCallSelf))
            &&& (pb <= ammount && ammount - pb >= stack ==> r == Ok::<i32, GameStateError>(stack as i32))
            &&& (r matches Ok(e) ==> e == (if stack < ammount - pb {
                stack
            } else {
                ammount - pb
            }))
            &&& (r == Err::<i32, GameStateError>(GameStateError::BetSizeDoesntCall) ==> ammount - pb
                < stack && ammount < rd.bet)
            &&& (r == Err::<i32, GameStateError>(GameStateError::RaiseSizeTooSmall) ==> ammount - pb
                < stack && ammount > rd.bet)
        }),
{
}

/// `new` is `old` after the player to act put `e` chips in: the chips
/// move from the stack to the pot, the round records the bet, betting
/// reopens for everyone still in when the amount to call went up, a
/// voluntary bet ends the player's turn this round, a player left without
/// chips is all in and out of the action, and the turn moves on.
pub open spec fn bet_applied(old: GameState, new: GameState, e: i32, is_forced: bool) -> bool {
    let rd = old.round_data@.last();
    let nrd = new.round_data@.last();
    let idx = rd.to_act_idx as int;
    let n = old.num_players as int;
    let busted = old.stacks@[idx] - e == 0;
    let nb = rd.player_bet@[idx] + e;
    let reopened = rd.bet < nb;
    let act1 = if reopened { old.player_active@ } else { rd.player_active@ };
    let act2 = if !is_forced { act1.remove(idx) } else { act1 };
    let act3 = if busted { act2.remove(idx) } else { act2 };
    &&& new.stacks@ == old.stacks@.update(idx, (old.stacks@[idx] - e) as i32)
    &&& new.player_bet@ == old.player_bet@.update(idx, (old.player_bet@[idx] + e) as i32)
    &&& new.total_pot == old.total_pot + e
    &&& new.player_active@ == if busted { old.player_active@.remove(idx) } else { old.player_active@ }
    &&& new.player_all_in@ == if busted { old.player_all_in@.insert(idx) } else { old.player_all_in@ }
    &&& new.round_data@.len() == old.round_data@.len()
    &&& new.round_data@.drop_last() == old.round_data@.drop_last()
    &&& nrd.player_bet@ == rd.player_bet@.update(idx, nb as i32)
    &&& nrd.bet_count@ == rd.bet_count@.update(idx, (rd.bet_count@[idx] + 1) as u8)
    &&& nrd.raise_count@ == if !is_forced && nb > rd.bet {
        rd.raise_count@.update(idx, (rd.raise_count@[idx] + 1) as u8)
    } else {
        rd.raise_count@
    }
    &&& nrd.bet == if nb > rd.bet { nb } else { rd.bet as int }
    &&& nrd.min_raise == if e > rd.min_raise { e } else { rd.min_raise }
    &&& nrd.player_active@ == act3
    &&& nrd.to_act_idx == next_to_act(act3, n, idx)
    &&& new.num_players == old.num_players
    &&& new.player_winnings == old.player_winnings
    &&& new.big_blind == old.big_blind
    &&& new.small_blind == old.small_blind
    &&& new.hands == old.hands
    &&& new.dealer_idx == old.dealer_idx
    &&& new.round == old.round
    &&& new.board == old.board
}

/// Whether a number fits in an `i32`.
pub open spec fn in_i32(x: int) -> bool {
    i32::MIN <= x <= i32::MAX
}

/// The arithmetic of a bet of `ammount` by the player to act stays within
/// `i32`: for a voluntary bet no smaller than the player's round bet, the
/// amount over it, the capped round bet and its excess over the amount to
/// call; for an accepted bet, the player's stack, round bet and hand bet,
/// and the pot, after it.
pub open spec fn bet_fits(gs: GameState, ammount: i32, is_forced: bool) -> bool {
    let rd = gs.round_data@.last();
    let idx = rd.to_act_idx as int;
    let stack = gs.stacks@[idx];
    let pb = rd.player_bet@[idx];
    &&& (!is_forced && pb <= ammount) ==> {
        let extra = ammount - pb;
        let capped = if stack < extra {
            stack as int
        } else {
            extra
        };
        &&& in_i32(extra)
        &&& in_i32(pb + capped)
        &&& in_i32(pb + capped - rd.bet)
    }
    &&& bet_result(gs, ammount, is_forced) matches Ok(e) ==> {
        &&& in_i32(stack - e)
        &&& in_i32(pb + e)
        &&& in_i32(gs.player_bet@[idx] + e)
        &&& in_i32(gs.total_pot + e)
    }
}

/// The arithmetic of posting the blinds as the preflop begins stays
/// within `i32`: the small blind by the first player to act after the
/// dealer, then the big blind by the next player still to act.
pub open spec fn preflop_fits(gs: GameState) -> bool {
    let n = gs.num_players as int;
    let act = gs.player_active@;
    let i1 = next_to_act(act, n, gs.dealer_idx as int);
    let st1 = gs.stacks@[i1];
    let e1: int = if st1 < gs.small_blind {
        st1 as int
    } else {
        gs.small_blind as int
    };
    let act3 = if st1 - e1 == 0 {
        act.remove(i1)
    } else {
        act
    };
    let i2 = next_to_act(act3, n, i1);
    let st2: int = if i2 == i1 {
        st1 - e1
    } else {
        gs.stacks@[i2] as int
    };
    let rpb2: int = if i2 == i1 {
        e1
    } else {
        0
    };
    let hpb2: int = if i2 == i1 {
        gs.player_bet@[i1] + e1
    } else {
        gs.player_bet@[i2] as int
    };
    let e2: int = if st2 < gs.big_blind {
        st2
    } else {
        gs.big_blind as int
    };
    &&& in_i32(st1 - e1)
    &&& in_i32(gs.player_bet@[i1] + e1)
    &&& in_i32(gs.total_pot + e1)
    &&& in_i32(st2 - e2)
    &&& in_i32(rpb2 + e2)
    &&& in_i32(hpb2 + e2)
    &&& in_i32(gs.total_pot + e1 + e2)
}

impl GameState {
    /// The current round's betting state.
    pub open spec fn cur(&self) -> RoundData {
        self.round_data@.last()
    }

    /// All the chips at the table: the stacks plus the pot.
    pub open spec fn chips(&self) -> int {
        seq_sum(self.stacks@) + self.total_pot
    }

    /// The state is laid out for its players: one entry per player in
    /// every per-player vector, at least one round, and seats on the
    /// table.
    pub open spec fn shaped(&self) -> bool {
        let n = self.num_players;
        &&& 0 < n < 16
        &&& self.stacks.len() == n
        &&& self.player_bet.len() == n
        &&& self.player_winnings.len() == n
        &&& self.hands.len() == n
        &&& self.dealer_idx < usize::MAX
        &&& self.round_data.len() > 0
        &&& forall|k: int| 0 <= k < self.round_data.len() ==> (#[trigger] self.round_data@[k]).wf(n as nat)
        &&& forall|i: int| #[trigger] self.player_active@.contains(i) ==> 0 <= i < n
        &&& forall|i: int| #[trigger] self.player_all_in@.contains(i) ==> 0 <= i < n
    }

    /// The state is laid out for its players and its chips are sane: no
    /// negative chip counts, the pot is what the players put in, the chips
    /// fit in an `i32`, and the current round's bets are part of the
    /// hand's bets. Every operation keeps this; on such a state no bet
    /// with a non-negative forced amount overflows.
    pub open spec fn wf(&self) -> bool {
        let n = self.num_players;
        &&& self.shaped()
        &&& forall|i: int| 0 <= i < n ==> #[trigger] self.stacks@[i] >= 0
        &&& forall|i: int| 0 <= i < n ==> 0 <= #[trigger] self.cur().player_bet@[i] <= self.player_bet@[i]
        &&& self.cur().bet >= 0
        &&& self.total_pot == seq_sum(self.player_bet@)
        &&& self.chips() <= i32::MAX
        &&& self.big_blind >= 0
        &&& self.small_blind >= 0
    }

    fn new_round_data(&self) -> (rd: RoundData)
        requires
            0 < self.num_players < 16,
            forall|i: int| #[trigger] self.player_active@.contains(i) ==> 0 <= i < self.num_players,
            self.dealer_idx < usize::MAX,
        ensures
            fresh_round(rd, self.player_active, self.num_players as nat, self.big_blind, self.dealer_idx),
            rd.wf(self.num_players as nat),
    {
        let n = self.num_players;
        let mut rd = RoundData {
            player_bet: vec![0; n],
            bet_count: vec![0; n],
            raise_count: vec![0; n],
            bet: 0,
            min_raise: self.big_blind,
            player_active: self.player_active,
            to_act_idx: self.dealer_idx,
        };
        proof {
            assert(rd.player_bet@ =~= Seq::new(n as nat, |i: int| 0i32));
            assert(rd.bet_count@ =~= Seq::new(n as nat, |i: int| 0u8));
            assert(rd.raise_count@ =~= Seq::new(n as nat, |i: int| 0u8));
        }
        rd.advance();
        rd
    }

    /// A new hand at a table with the given stacks, blinds and dealer;
    /// nothing has been dealt or bet yet.
    pub fn new(stacks: Vec<i32>, big_blind: i32, small_blind: i32, dealer_idx: usize) -> (r: Self)
        requires
            0 < stacks.len() < 16,
            dealer_idx < usize::MAX,
        ensures
            r.num_players == stacks.len(),
            r.stacks@ == stacks@,
            r.big_blind == big_blind,
            r.small_blind == small_blind,
            r.dealer_idx == dealer_idx,
            r.player_active@ == Set::new(|i: int| 0 <= i < stacks.len()),
            r.player_all_in@ == Set::<int>::empty(),
            r.player_bet@ == Seq::new(stacks.len() as nat, |i: int| 0i32),
            r.player_winnings@ == Seq::new(stacks.len() as nat, |i: int| 0i32),
            r.hands.len() == stacks.len(),
            r.total_pot == 0,
            r.round == Round::Starting,
            r.board@ == Seq::<Card>::empty(),
            r.round_data.len() == 1,
            fresh_round(r.cur(), r.player_active, stacks.len() as nat, big_blind, dealer_idx),
            r.shaped(),
            (forall|i: int| 0 <= i < stacks.len() ==> #[trigger] stacks@[i] >= 0) && seq_sum(stacks@)
                <= i32::MAX && big_blind >= 0 && small_blind >= 0 ==> r.wf(),
    {
        let num_players = stacks.len();
        let mut gs = GameState {
            num_players,
            stacks,
            big_blind,
            small_blind,
            player_active: PlayerBitSet::new(num_players),
            player_all_in: PlayerBitSet::new(0),
            player_bet: vec![0; num_players],
            player_winnings: vec![0; num_players],
            dealer_idx,
            total_pot: 0,
            hands: vec![Hand::new(); num_players],
            round: Round::Starting,
            board: Vec::new(),
            round_data: Vec::new(),
        };
        proof {
            assert(gs.player_all_in@ =~= Set::<int>::empty());
            assert(gs.player_bet@ =~= Seq::new(num_players as nat, |i: int| 0i32));
            assert(gs.player_winnings@ =~= Seq::new(num_players as nat, |i: int| 0i32));
            lemma_seq_sum_zeros(gs.player_bet@);
        }
        let rd = gs.new_round_data();
        gs.round_data.push(rd);
        gs
    }

    /// How many players are still in the hand.
    pub fn num_active_players(&self) -> (r: usize)
        ensures
            r == self.player_active@.len(),
    {
        self.player_active.count()
    }

    /// How many players still have to act this round.
    pub fn num_active_players_in_round(&self) -> (r: usize)
        requires
            self.round_data.len() > 0,
        ensures
            r == self.cur().player_active@.len(),
    {
        self.current_round_data().num_active_players()
    }

    /// How many players are all in.
    pub fn num_all_in_players(&self) -> (r: usize)
        ensures
            r == self.player_all_in@.len(),
    {
        self.player_all_in.count()
    }

    /// The hand is over: one player is left, or the hand is complete.
    pub fn is_complete(&self) -> (r: bool)
        ensures
            r == (self.player_active@.len() == 1 || self.round == Round::Complete),
    {
        self.num_active_players() == 1 || self.round == Round::Complete
    }

    /// The current round's betting state.
    pub fn current_round_data(&self) -> (r: &RoundData)
        requires
            self.round_data.len() > 0,
        ensures
            *r == self.cur(),
    {
        &self.round_data[self.round_data.len() - 1]
    }

    /// Take a player's chips: validate the bet of the player to act, and
    /// when it is accepted put the chips in (see `bet_applied`). On an
    /// error nothing changes. The chips at the table stay the same.
    pub fn do_bet(&mut self, ammount: i32, is_forced: bool) -> (r: Result<i32, GameStateError>)
        requires
            old(self).shaped(),
            old(self).cur().bet_count@[old(self).cur().to_act_idx as int] < 255,
            old(self).cur().raise_count@[old(self).cur().to_act_idx as int] < 255,
            bet_fits(*old(self), ammount, is_forced),
        ensures
            r == bet_result(*old(self), ammount, is_forced),
            r is Err ==> *final(self) == *old(self),
            r matches Ok(e) ==> bet_applied(*old(self), *final(self), e, is_forced),
            final(self).shaped(),
            old(self).wf() && (is_forced ==> ammount >= 0) ==> final(self).wf(),
            final(self).chips() == old(self).chips(),
    {
        let ghost old_gs = *self;
        let last = self.round_data.len() - 1;
        let idx = self.round_data[last].to_act_idx;
        let n = self.num_players;
        proof {
            assert(self.round_data@[last as int].wf(n as nat));
            if old_gs.wf() && (is_forced ==> ammount >= 0) {
                lemma_wf_bet_fits(old_gs, ammount, is_forced);
            }
        }
        let extra_ammount = if is_forced {
            self.validate_forced_bet_ammount(ammount)
        } else {
            match self.validate_bet_ammount(ammount) {
                Ok(e) => e,
                Err(err) => {
                    return Err(err);
                },
            }
        };
        let prev_bet = self.round_data[last].bet;
        let stack = self.stacks[idx];
        self.stacks.set(idx, stack - extra_ammount);
        let mut rd = self.round_data.pop().unwrap();
        proof {
            assert(rd == old_gs.cur());
        }
        rd.do_bet(extra_ammount, is_forced);
        let pb = self.player_bet[idx];
        self.player_bet.set(idx, pb + extra_ammount);
        self.total_pot = self.total_pot + extra_ammount;
        let is_betting_reopened = prev_bet < rd.bet;
        if is_betting_reopened {
            rd.player_active = self.player_active;
        }
        if !is_forced {
            rd.player_active.disable(idx);
        }
        if self.stacks[idx] == 0 {
            self.player_active.disable(idx);
            self.player_all_in.enable(idx);
            rd.player_active.disable(idx);
        }
        let ghost act3 = rd.player_active@;
        proof {
            assert forall|i: int| #[trigger] rd.player_active@.contains(i) implies 0 <= i < n by {
                assert(old_gs.player_active@.contains(i) || old_gs.cur().player_active@.contains(i));
            }
        }
        rd.advance();
        self.round_data.push(rd);
        proof {
            lemma_seq_sum_update(old_gs.stacks@, idx as int, (stack - extra_ammount) as i32);
            lemma_seq_sum_update(old_gs.player_bet@, idx as int, (pb + extra_ammount) as i32);
            assert(self.round_data@.drop_last() =~= old_gs.round_data@.drop_last());
            assert forall|k: int| 0 <= k < self.round_data.len() implies (#[trigger] self.round_data@[k]).wf(n as nat) by {
                if k < last {
                    assert(self.round_data@[k] == old_gs.round_data@[k]);
                }
            }
            if old_gs.wf() && (is_forced ==> ammount >= 0) {
                assert forall|i: int| 0 <= i < n implies #[trigger] self.stacks@[i] >= 0 by {
                    if i != idx {
                        assert(self.stacks@[i] == old_gs.stacks@[i]);
                    }
                }
                assert forall|i: int| 0 <= i < n implies 0 <= #[trigger] self.cur().player_bet@[i]
                    <= self.player_bet@[i] by {
                    assert(0 <= old_gs.cur().player_bet@[i] <= old_gs.player_bet@[i]);
                }
            }
        }
        Ok(extra_ammount)
    }

    /// The current round's betting state, for changing it.
    pub fn mut_current_round_data(&mut self) -> (r: &mut RoundData)
        requires
            old(self).round_data.len() > 0,
        ensures
            *r == old(self).cur(),
            final(self).round_data@ == old(self).round_data@.update(
                old(self).round_data.len() - 1,
                *final(r),
            ),
            final(self).num_players == old(self).num_players,
            final(self).player_active == old(self).player_active,
            final(self).player_all_in == old(self).player_all_in,
            final(self).total_pot == old(self).total_pot,
            final(self).stacks == old(self).stacks,
            final(self).player_bet == old(self).player_bet,
            final(self).player_winnings == old(self).player_winnings,
            final(self).big_blind == old(self).big_blind,
            final(self).small_blind == old(self).small_blind,
            final(self).hands == old(self).hands,
            final(self).dealer_idx == old(self).dealer_idx,
            final(self).round == old(self).round,
            final(self).board == old(self).board,
    {
        let last = self.round_data.len() - 1;
        &mut self.round_data[last]
    }

    /// The player to act folds: out of the hand and of the round, and the
    /// turn moves on.
    pub fn fold(&mut self)
        requires
            old(self).shaped(),
        ensures
            ({
                let rd = old(self).cur();
                let idx = rd.to_act_idx as int;
                let act = rd.player_active@.remove(idx);
                &&& final(self).player_active@ == old(self).player_active@.remove(idx)
                &&& final(self).round_data@.len() == old(self).round_data@.len()
                &&& final(self).round_data@.drop_last() == old(self).round_data@.drop_last()
                &&& final(self).cur().player_active@ == act
                &&& final(self).cur().to_act_idx == next_to_act(act, old(self).num_players as int, idx)
                &&& final(self).cur().player_bet == rd.player_bet
                &&& final(self).cur().bet_count == rd.bet_count
                &&& final(self).cur().raise_count == rd.raise_count
                &&& final(self).cur().bet == rd.bet
                &&& final(self).cur().min_raise == rd.min_raise
            }),
            final(self).num_players == old(self).num_players,
            final(self).player_all_in == old(self).player_all_in,
            final(self).total_pot == old(self).total_pot,
            final(self).stacks == old(self).stacks,
            final(self).player_bet == old(self).player_bet,
            final(self).player_winnings == old(self).player_winnings,
            final(self).big_blind == old(self).big_blind,
            final(self).small_blind == old(self).small_blind,
            final(self).hands == old(self).hands,
            final(self).dealer_idx == old(self).dealer_idx,
            final(self).round == old(self).round,
            final(self).board == old(self).board,
            final(self).shaped(),
            old(self).wf() ==> final(self).wf(),
            final(self).chips() == old(self).chips(),
    {
        let ghost old_gs = *self;
        let last = self.round_data.len() - 1;
        let idx = self.round_data[last].to_act_idx;
        proof {
            assert(self.round_data@[last as int].wf(self.num_players as nat));
        }
        let mut rd = self.round_data.pop().unwrap();
        proof {
            assert(rd == old_gs.cur());
        }
        rd.player_active.disable(idx);
        self.player_active.disable(idx);
        rd.advance();
        self.round_data.push(rd);
        proof {
            assert(self.round_data@.drop_last() =~= old_gs.round_data@.drop_last());
            assert forall|k: int| 0 <= k < self.round_data.len() implies (#[trigger] self.round_data@[k]).wf(self.num_players as nat) by {
                if k < last {
                    assert(self.round_data@[k] == old_gs.round_data@[k]);
                }
            }
        }
    }

    /// Give `ammount` chips to a player: the stack and the player's
    /// winnings grow by it; the pot is left as it is.
    pub fn award(&mut self, player_idx: usize, ammount: i32)
        requires
            player_idx < old(self).stacks.len(),
            player_idx < old(self).player_winnings.len(),
            i32::MIN <= old(self).stacks@[player_idx as int] + ammount <= i32::MAX,
            i32::MIN <= old(self).player_winnings@[player_idx as int] + ammount <= i32::MAX,
        ensures
            final(self).stacks@ == old(self).stacks@.update(
                player_idx as int,
                (old(self).stacks@[player_idx as int] + ammount) as i32,
            ),
            final(self).player_winnings@ == old(self).player_winnings@.update(
                player_idx as int,
                (old(self).player_winnings@[player_idx as int] + ammount) as i32,
            ),
            final(self).num_players == old(self).num_players,
            final(self).player_active == old(self).player_active,
            final(self).player_all_in == old(self).player_all_in,
            final(self).total_pot == old(self).total_pot,
            final(self).player_bet == old(self).player_bet,
            final(self).big_blind == old(self).big_blind,
            final(self).small_blind == old(self).small_blind,
            final(self).hands == old(self).hands,
            final(self).dealer_idx == old(self).dealer_idx,
            final(self).round == old(self).round,
            final(self).round_data == old(self).round_data,
            final(self).board == old(self).board,
            final(self).chips() == old(self).chips() + ammount,
            old(self).wf() && ammount >= 0 && old(self).chips() + ammount <= i32::MAX ==> final(self).wf(),
    {
        let s = self.stacks[player_idx];
        self.stacks.set(player_idx, s + ammount);
        let w = self.player_winnings[player_idx];
        self.player_winnings.set(player_idx, w + ammount);
        proof {
            lemma_seq_sum_update(old(self).stacks@, player_idx as int, (s + ammount) as i32);
        }
    }

    /// Move to a new stage with a fresh round of betting.
    fn start_round(&mut self, round: Round)
        requires
            old(self).shaped(),
        ensures
            final(self).round == round,
            final(self).round_data@.len() == old(self).round_data@.len() + 1,
            final(self).round_data@.drop_last() == old(self).round_data@,
            fresh_round(final(self).cur(), old(self).player_active, old(self).num_players as nat, old(self).big_blind, old(self).dealer_idx),
            final(self).num_players == old(self).num_players,
            final(self).player_active == old(self).player_active,
            final(self).player_all_in == old(self).player_all_in,
            final(self).total_pot == old(self).total_pot,
            final(self).stacks == old(self).stacks,
            final(self).player_bet == old(self).player_bet,
            final(self).player_winnings == old(self).player_winnings,
            final(self).big_blind == old(self).big_blind,
            final(self).small_blind == old(self).small_blind,
            final(self).hands == old(self).hands,
            final(self).dealer_idx == old(self).dealer_idx,
            final(self).board == old(self).board,
            final(self).shaped(),
            old(self).wf() ==> final(self).wf(),
            final(self).chips() == old(self).chips(),
    {
        self.round = round;
        let rd = self.new_round_data();
        self.round_data.push(rd);
        proof {
            assert(self.round_data@.drop_last() =~= old(self).round_data@);
            assert forall|k: int| 0 <= k < self.round_data.len() implies (#[trigger] self.round_data@[k]).wf(self.num_players as nat) by {
                if k < self.round_data.len() - 1 {
                    assert(self.round_data@[k] == old(self).round_data@[k]);
                }
            }
            if old(self).wf() {
                assert forall|i: int| 0 <= i < self.num_players implies 0 <= #[trigger] self.cur().player_bet@[i] <= self.player_bet@[i] by {
                    assert(0 <= old(self).cur().player_bet@[i] <= old(self).player_bet@[i]);
                }
            }
        }
    }

    /// End the hand: the stage is `Complete` and a fresh round begins.
    pub fn complete(&mut self)
        requires
            old(self).shaped(),
        ensures
            final(self).round == Round::Complete,
            final(self).round_data@.drop_last() == old(self).round_data@,
            fresh_round(final(self).cur(), old(self).player_active, old(self).num_players as nat, old(self).big_blind, old(self).dealer_idx),
            final(self).num_players == old(self).num_players,
            final(self).player_active == old(self).player_active,
            final(self).player_all_in == old(self).player_all_in,
            final(self).total_pot == old(self).total_pot,
            final(self).stacks == old(self).stacks,
            final(self).player_bet == old(self).player_bet,
            final(self).player_winnings == old(self).player_winnings,
            final(self).hands == old(self).hands,
            final(self).board == old(self).board,
            final(self).shaped(),
            old(self).wf() ==> final(self).wf(),
    {
        self.start_round(Round::Complete);
    }

    /// Move to the next stage. From `Starting` this is the preflop: a
    /// fresh round begins and the small then the big blind are posted as
    /// forced bets. `Complete` stays as it is. Any other stage moves to
    /// the next with a fresh round of betting.
    pub fn advance_round(&mut self)
        requires
            old(self).shaped(),
            old(self).round == Round::Starting ==> preflop_fits(*old(self)),
        ensures
            final(self).shaped(),
            old(self).wf() ==> final(self).wf(),
            final(self).chips() == old(self).chips(),
            final(self).round == next_round(old(self).round),
            old(self).round == Round::Complete ==> *final(self) == *old(self),
            old(self).round != Round::Complete && old(self).round != Round::Starting ==> {
                &&& final(self).round_data@.drop_last() == old(self).round_data@
                &&& fresh_round(final(self).cur(), old(self).player_active, old(self).num_players as nat, old(self).big_blind, old(self).dealer_idx)
                &&& final(self).player_active == old(self).player_active
                &&& final(self).stacks == old(self).stacks
                &&& final(self).player_bet == old(self).player_bet
                &&& final(self).total_pot == old(self).total_pot
            },
            old(self).round == Round::Starting ==> exists|s1: GameState, s2: GameState|
                #![trigger blinds_posted(*old(self), s1, s2, *final(self))]
                blinds_posted(*old(self), s1, s2, *final(self)),
    {
        match self.round {
            Round::Starting => self.advance_preflop(),
            Round::Complete => (),
            _ => {
                let next = self.round.advance();
                self.start_round(next);
            },
        }
    }

    fn advance_preflop(&mut self)
        requires
            old(self).shaped(),
            preflop_fits(*old(self)),
            old(self).round == Round::Starting,
        ensures
            final(self).shaped(),
            old(self).wf() ==> final(self).wf(),
            final(self).chips() == old(self).chips(),
            final(self).round == Round::Preflop,
            exists|s1: GameState, s2: GameState|
                #![trigger blinds_posted(*old(self), s1, s2, *final(self))]
                blinds_posted(*old(self), s1, s2, *final(self)),
    {
        self.start_round(Round::Preflop);
        let ghost s1 = *self;
        proof {
            assert(self.cur().bet_count@[self.cur().to_act_idx as int] == 0u8);
            assert(self.cur().raise_count@[self.cur().to_act_idx as int] == 0u8);
        }
        let sb = self.small_blind;
        proof {
            assert(bet_fits(*self, sb, true));
        }
        let r1 = self.do_bet(sb, true);
        let ghost s2 = *self;
        proof {
            let rd = s1.cur();
            let idx = rd.to_act_idx as int;
            assert(self.cur().bet_count@[self.cur().to_act_idx as int] <= 1u8) by {
                let j = self.cur().to_act_idx as int;
                if j != idx {
                    assert(self.cur().bet_count@[j] == rd.bet_count@[j]);
                }
            }
            assert(self.cur().raise_count@[self.cur().to_act_idx as int] == 0u8) by {
                let j = self.cur().to_act_idx as int;
                if j != idx {
                    assert(self.cur().raise_count@[j] == rd.raise_count@[j]);
                }
            }
        }
        let bb = self.big_blind;
        proof {
            assert(bet_fits(*self, bb, true));
        }
        let r2 = self.do_bet(bb, true);
        proof {
            assert(blinds_posted(*old(self), s1, s2, *self));
        }
    }
}

/// On a sane state, a bet whose forced amount is not negative stays within
/// `i32`, and what it puts in is between nothing and the stack.
pub proof fn lemma_wf_bet_fits(gs: GameState, ammount: i32, is_forced: bool)
    requires
        gs.wf(),
        is_forced ==> ammount >= 0,
    ensures
        bet_fits(gs, ammount, is_forced),
        bet_result(gs, ammount, is_forced) matches Ok(e) ==> 0 <= e <= gs.stacks@[gs.cur().to_act_idx as int],
{
    let n = gs.num_players;
    let idx = gs.cur().to_act_idx as int;
    assert(gs.round_data@[gs.round_data.len() - 1].wf(n as nat));
    lemma_seq_sum_nonneg(gs.stacks@);
    lemma_seq_sum_bounds(gs.stacks@, idx);
    assert forall|i: int| 0 <= i < n implies #[trigger] gs.player_bet@[i] >= 0 by {
        assert(0 <= gs.cur().player_bet@[i]);
    }
    lemma_seq_sum_bounds(gs.player_bet@, idx);
}

/// `fin` is `start` after the preflop began: `s1` is `start` with the
/// stage at `Preflop` and a fresh round, `s2` is `s1` after the small
/// blind was posted as a forced bet, and `fin` is `s2` after the big
/// blind was posted as a forced bet.
pub open spec fn blinds_posted(start: GameState, s1: GameState, s2: GameState, fin: GameState) -> bool {
    &&& s1.round == Round::Preflop
    &&& s1.round_data@.drop_last() == start.round_data@
    &&& fresh_round(s1.cur(), start.player_active, start.num_players as nat, start.big_blind, start.dealer_idx)
    &&& s1.num_players == start.num_players
    &&& s1.player_active == start.player_active
    &&& s1.player_all_in == start.player_all_in
    &&& s1.total_pot == start.total_pot
    &&& s1.stacks == start.stacks
    &&& s1.player_bet == start.player_bet
    &&& s1.player_winnings == start.player_winnings
    &&& s1.big_blind == start.big_blind
    &&& s1.small_blind == start.small_blind
    &&& s1.hands == start.hands
    &&& s1.dealer_idx == start.dealer_idx
    &&& s1.board == start.board
    &&& bet_applied(s1, s2, bet_result(s1, start.small_blind, true)->Ok_0, true)
    &&& bet_applied(s2, fin, bet_result(s2, start.big_blind, true)->Ok_0, true)
}

impl GameState {
    /// The chips a forced bet puts in: the amount, capped at the stack.
    fn validate_forced_bet_ammount(&self, ammount: i32) -> (r: i32)
        requires
            self.shaped(),
        ensures
            r == bet_result(*self, ammount, true)->Ok_0,
    {
        let idx = self.round_data[self.round_data.len() - 1].to_act_idx;
        proof {
            assert(self.round_data@[self.round_data.len() - 1].wf(self.num_players as nat));
        }
        if self.stacks[idx] < ammount {
            self.stacks[idx]
        } else {
            ammount
        }
    }

    /// Judge a voluntary bet; see `bet_result`.
    fn validate_bet_ammount(&self, ammount: i32) -> (r: Result<i32, GameStateError>)
        requires
            self.shaped(),
            bet_fits(*self, ammount, false),
        ensures
            r == bet_result(*self, ammount, false),
    {
        let last = self.round_data.len() - 1;
        let rd = &self.round_data[last];
        let idx = rd.to_act_idx;
        proof {
            assert(self.round_data@[last as int].wf(self.num_players as nat));
        }
        if rd.player_bet[idx] > ammount {
            Err(GameStateError::BetSizeDoesntCallSelf)
        } else {
            let extra = ammount - rd.player_bet[idx];
            let capped_extra = if self.stacks[idx] < extra {
                self.stacks[idx]
            } else {
                extra
            };
            let capped_new_player_bet = rd.player_bet[idx] + capped_extra;
            let current_bet = rd.bet;
            let raise = if capped_new_player_bet - current_bet > 0 {
                capped_new_player_bet - current_bet
            } else {
                0
            };
            let is_all_in = capped_extra == self.stacks[idx];
            let is_raise = raise > 0;
            if capped_new_player_bet < rd.bet && !is_all_in {
                Err(GameStateError::BetSizeDoesntCall)
            } else if is_raise && !is_all_in && raise < rd.min_raise {
                Err(GameStateError::RaiseSizeTooSmall)
            } else {
                Ok(capped_extra)
            }
        }
    }
}

} // verus!
