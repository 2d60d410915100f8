//! Independent chip tournaments played out by simulation: random pairs
//! of players go all in against each other, and each player who busts
//! takes the next place down. One round of the simulation at a time.

use vstd::prelude::*;
use fixedbitset::FixedBitSet;
use crate::arena::game_state::{lemma_seq_sum_bounds, lemma_seq_sum_update, seq_sum};
use crate::rng::{choose_indexes, coin_flip};

verus! {

#[verifier::external_type_specification]
#[verifier::external_body]
pub struct ExFixedBitSet(FixedBitSet);

/// The bits that are set in a `FixedBitSet`.
pub uninterp spec fn bitset_ones(b: FixedBitSet) -> Set<usize>;

/// The number of bits a `FixedBitSet` was made with.
pub uninterp spec fn bitset_len(b: FixedBitSet) -> usize;

/// `FixedBitSet::with_capacity`: `bits` bits, none of them set.
#[verifier::external_body]
fn bitset_with_capacity(bits: usize) -> (r: FixedBitSet)
    ensures
        bitset_len(r) == bits,
        bitset_ones(r) == Set::<usize>::empty(),
{
    FixedBitSet::with_capacity(bits)
}

/// `FixedBitSet::insert_range` over the whole set (`..`): every bit is
/// set; the length stays.
#[verifier::external_body]
fn bitset_insert_all(b: &mut FixedBitSet)
    ensures
        bitset_len(*final(b)) == bitset_len(*old(b)),
        bitset_ones(*final(b)) == Set::new(|i: usize| i < bitset_len(*old(b))),
{
    b.insert_range(..);
}

/// `FixedBitSet::set` with `false`: the bit is cleared, the others stay.
/// It panics for a bit beyond the length, so the bit must be below it.
#[verifier::external_body]
fn bitset_clear(b: &mut FixedBitSet, bit: usize)
    requires
        bit < bitset_len(*old(b)),
    ensures
        bitset_len(*final(b)) == bitset_len(*old(b)),
        bitset_ones(*final(b)) == bitset_ones(*old(b)).remove(bit),
{
    b.set(bit, false);
}

/// `FixedBitSet::ones`, collected: each set bit once.
#[verifier::external_body]
fn bitset_ones_vec(b: &FixedBitSet) -> (r: Vec<usize>)
    ensures
        r@.to_set() == bitset_ones(*b),
        r@.no_duplicates(),
{
    b.ones().collect()
}

/// The payment for place `i` (counted from 0, the winner); places beyond
/// the list pay nothing.
pub open spec fn pay(payments: Seq<i32>, i: int) -> int {
    if 0 <= i < payments.len() {
        payments[i] as int
    } else {
        0
    }
}

/// The winnings after player `idx` busts into place `np`: `idx` gets
/// that place's payment, and when only the winner `other` is left it
/// gets the first place's payment.
pub open spec fn award_spec(w: Seq<i32>, payments: Seq<i32>, idx: int, other: int, np: int) -> Seq<i32> {
    let w1 = w.update(idx, (w[idx] + pay(payments, np)) as i32);
    if np - 1 == 0 {
        w1.update(other, (w1[other] + pay(payments, 0)) as i32)
    } else {
        w1
    }
}

/// The stacks after an all in between `hero` and `villan`: the smaller
/// stack is at stake, and the winner takes it from the loser.
pub open spec fn round_stacks(s: Seq<i32>, hero: int, villan: int, hero_won: bool) -> Seq<i32> {
    let eff = if s[hero] <= s[villan] { s[hero] } else { s[villan] };
    let change: int = if hero_won { eff as int } else { -eff };
    s.update(hero, (s[hero] + change) as i32).update(villan, (s[villan] - change) as i32)
}

/// Whether a value fits in an `i32`.
pub open spec fn fits_i32(x: int) -> bool {
    i32::MIN <= x <= i32::MAX
}

/// What one all in between `hero` and `villan`, in which the hero wins
/// when `hero_won` holds, makes of the tournament `a`: the tournament
/// `b`, with the same payments and starting stacks, and the stacks after
/// the all in. If the hero is left without chips it busts into the next
/// place and is paid for it; then, if the villan is left without chips,
/// it busts into the place after that and is paid for it. Each time the
/// places run down to the first, the other of the two is paid the first
/// place's payment.
pub open spec fn round_result(
    a: IcmSimulation,
    b: IcmSimulation,
    hero: usize,
    villan: usize,
    hero_won: bool,
) -> bool {
    let s1 = round_stacks(a.stacks(), hero as int, villan as int, hero_won);
    let hero_out = s1[hero as int] == 0;
    let villan_out = s1[villan as int] == 0;
    let np0 = a.place() as int;
    let w1 = if hero_out {
        award_spec(a.paid(), a.payment_list(), hero as int, villan as int, np0)
    } else {
        a.paid()
    };
    let np1 = if hero_out {
        np0 - 1
    } else {
        np0
    };
    let w2 = if villan_out {
        award_spec(w1, a.payment_list(), villan as int, hero as int, np1)
    } else {
        w1
    };
    let p1 = if hero_out {
        a.players().remove(hero)
    } else {
        a.players()
    };
    &&& b.payment_list() == a.payment_list()
    &&& b.initial_stacks() == a.initial_stacks()
    &&& b.stacks() == s1
    &&& b.place() == (if villan_out {
        np1 - 1
    } else {
        np1
    })
    &&& b.players() == (if villan_out {
        p1.remove(villan)
    } else {
        p1
    })
    &&& b.paid() == w2
}

/// Two different players are still in without chips.
pub open spec fn two_empty_in_play(sim: IcmSimulation) -> bool {
    exists|p: usize, q: usize|
        p != q && #[trigger] sim.players().contains(p) && #[trigger] sim.players().contains(q)
            && sim.stacks()[p as int] == 0 && sim.stacks()[q as int] == 0
}

/// Two players still in without chips would fail to be played against
/// each other: as the last two, the next place would run below the
/// first; for the last two places, the first place's payment would go to
/// one already paid for third, and the two payments must fit in an
/// `i32`.
pub open spec fn empty_pair_fails(sim: IcmSimulation) -> bool {
    sim.place() == 1 || (sim.place() == 2 && !fits_i32(
        pay(sim.payment_list(), 2) + pay(sim.payment_list(), 0),
    ))
}

/// Two different players started without chips.
pub open spec fn two_started_empty(initial: Seq<i32>) -> bool {
    exists|p: int, q: int|
        0 <= p < initial.len() && 0 <= q < initial.len() && p != q && #[trigger] initial[p] == 0
            && #[trigger] initial[q] == 0
}

/// If player `idx` has no chips left, pay it the payment of the place
/// `next_place` and move the next place up; when that was second place,
/// pay `other_idx` the first. Returns whether `idx` busted.
fn award_payments(
    remaining_stacks: &Vec<i32>,
    payments: &[i32],
    idx: usize,
    other_idx: usize,
    winnings: &mut Vec<i32>,
    next_place: &mut usize,
) -> (r: bool)
    requires
        idx < remaining_stacks.len(),
        other_idx < remaining_stacks.len(),
        idx != other_idx,
        old(winnings).len() == remaining_stacks.len(),
        remaining_stacks@[idx as int] == 0 ==> *old(next_place) >= 1,
        remaining_stacks@[idx as int] == 0 ==> fits_i32(
            old(winnings)@[idx as int] + pay(payments@, *old(next_place) as int),
        ),
        remaining_stacks@[idx as int] == 0 && *old(next_place) == 1 ==> fits_i32(
            old(winnings)@[other_idx as int] + pay(payments@, 0),
        ),
    ensures
        r == (remaining_stacks@[idx as int] == 0),
        !r ==> final(winnings)@ == old(winnings)@ && *final(next_place) == *old(next_place),
        r ==> *final(next_place) == *old(next_place) - 1 && final(winnings)@ == award_spec(
            old(winnings)@,
            payments@,
            idx as int,
            other_idx as int,
            *old(next_place) as int,
        ),
{
    if remaining_stacks[idx] == 0 {
        let p = if *next_place < payments.len() {
            payments[*next_place]
        } else {
            0
        };
        let w = winnings[idx] + p;
        winnings.set(idx, w);
        *next_place = *next_place - 1;
        if *next_place == 0 {
            let q = if 0 < payments.len() {
                payments[0]
            } else {
                0
            };
            let w2 = winnings[other_idx] + q;
            winnings.set(other_idx, w2);
        }
        true
    } else {
        false
    }
}

/// A tournament being simulated.
pub struct IcmSimulation {
    remaining_stacks: Vec<i32>,
    payments: Vec<i32>,
    winnings: Vec<i32>,
    next_place: usize,
    remaining_players: FixedBitSet,
    busts: Ghost<Seq<int>>,
    first: Ghost<int>,
    initial: Ghost<Seq<i32>>,
}

impl IcmSimulation {
    /// Each player's chips.
    pub closed spec fn stacks(self) -> Seq<i32> {
        self.remaining_stacks@
    }

    /// The payment of each place, the winner's first.
    pub closed spec fn payment_list(self) -> Seq<i32> {
        self.payments@
    }

    /// What each player has been paid.
    pub closed spec fn paid(self) -> Seq<i32> {
        self.winnings@
    }

    /// The place the next player to bust takes.
    pub closed spec fn place(self) -> nat {
        self.next_place as nat
    }

    /// The players still in. A player is out once it has busted; a
    /// player who started without chips stays in until it is drawn.
    pub closed spec fn players(self) -> Set<usize> {
        bitset_ones(self.remaining_players)
    }

    /// The chips each player started with.
    pub closed spec fn initial_stacks(self) -> Seq<i32> {
        self.initial@
    }

    /// The place each player finished in: the place it busted into, the
    /// first for a player still in once the tournament is over, and -1
    /// while it is still playing.
    pub closed spec fn places(self) -> Seq<int> {
        Seq::new(
            self.busts@.len(),
            |p: int|
                if self.busts@[p] >= 0 {
                    self.busts@[p]
                } else if self.next_place == 0 {
                    0
                } else {
                    -1
                },
        )
    }

    /// Whether only the last place is left to give.
    pub open spec fn done(self) -> bool {
        self.place() == 0
    }

    /// The simulation is consistent: one more player in than places
    /// still to give; the players out have no chips, and a player in
    /// without chips started without them; the chips fit in an `i32`;
    /// every player out holds a distinct place below the next one; once
    /// the places run out one player was paid the first place's payment,
    /// a player still in unless two players started without chips; and
    /// each player was paid its place's payment and, if it was that one,
    /// the first place's.
    pub closed spec fn wf(self) -> bool {
        let n = self.remaining_stacks.len();
        let s = self.remaining_stacks@;
        let b = self.busts@;
        let f = self.first@;
        let np = self.next_place as int;
        &&& n >= 1
        &&& self.winnings.len() == n
        &&& b.len() == n
        &&& self.initial@.len() == n
        &&& bitset_len(self.remaining_players) == n
        &&& np < n
        &&& self.players().finite()
        &&& self.players().len() == np + 1
        &&& forall|p: usize| #[trigger] self.players().contains(p) ==> p < n
        &&& forall|p: int| 0 <= p < n ==> #[trigger] s[p] >= 0
        &&& forall|p: int| 0 <= p < n && !self.players().contains(p as usize) ==> #[trigger] s[p] == 0
        &&& forall|p: int|
            0 <= p < n && self.players().contains(p as usize) && #[trigger] s[p] == 0
                ==> self.initial@[p] == 0
        &&& seq_sum(s) <= i32::MAX
        &&& forall|p: int| 0 <= p < n && self.players().contains(p as usize) ==> #[trigger] b[p] == -1
        &&& forall|p: int|
            0 <= p < n && !self.players().contains(p as usize) ==> np < #[trigger] b[p] < n
        &&& forall|p: int, q: int|
            0 <= p < n && 0 <= q < n && p != q && b[p] >= 0 ==> #[trigger] b[p] != #[trigger] b[q]
        &&& (np == 0 && n >= 2) ==> (0 <= f < n && (self.players().contains(f as usize)
            || two_started_empty(self.initial@)))
        &&& !(np == 0 && n >= 2) ==> f == -1
        &&& forall|p: int|
            0 <= p < n ==> #[trigger] self.winnings@[p] == (if b[p] >= 0 {
                pay(self.payments@, b[p])
            } else {
                0
            }) + (if f == p {
                pay(self.payments@, 0)
            } else {
                0
            })
    }

    /// A new tournament among players with the given chips, paying the
    /// given amounts from first place down. There is at least one player,
    /// no stack is negative, and all the chips together fit in an `i32`.
    pub fn new(chip_stacks: &[i32], payments: &[i32]) -> (r: IcmSimulation)
        requires
            chip_stacks@.len() >= 1,
            forall|p: int| 0 <= p < chip_stacks@.len() ==> #[trigger] chip_stacks@[p] >= 0,
            seq_sum(chip_stacks@) <= i32::MAX,
        ensures
            r.wf(),
            r.stacks() == chip_stacks@,
            r.initial_stacks() == chip_stacks@,
            r.payment_list() == payments@,
            r.place() == chip_stacks@.len() - 1,
            r.players() == Set::new(|p: usize| p < chip_stacks@.len()),
            r.paid() == Seq::new(chip_stacks@.len(), |p: int| 0i32),
    {
        let n = chip_stacks.len();
        let mut remaining_stacks: Vec<i32> = Vec::new();
        let mut winnings: Vec<i32> = Vec::new();
        let mut i: usize = 0;
        while i < n
            invariant
                i <= n,
                n == chip_stacks@.len(),
                remaining_stacks@ == chip_stacks@.take(i as int),
                winnings@ == Seq::new(i as nat, |p: int| 0i32),
            decreases n - i,
        {
            remaining_stacks.push(chip_stacks[i]);
            winnings.push(0);
            proof {
                assert(remaining_stacks@ =~= chip_stacks@.take(i + 1));
                assert(winnings@ =~= Seq::new((i + 1) as nat, |p: int| 0i32));
            }
            i = i + 1;
        }
        let mut pays: Vec<i32> = Vec::new();
        let mut j: usize = 0;
        while j < payments.len()
            invariant
                j <= payments@.len(),
                pays@ == payments@.take(j as int),
            decreases payments@.len() - j,
        {
            pays.push(payments[j]);
            proof {
                assert(pays@ =~= payments@.take(j + 1));
            }
            j = j + 1;
        }
        proof {
            assert(remaining_stacks@ =~= chip_stacks@);
            assert(pays@ =~= payments@);
        }
        let mut remaining_players = bitset_with_capacity(n);
        bitset_insert_all(&mut remaining_players);
        proof {
            lemma_range_set_len(n as nat);
        }
        IcmSimulation {
            remaining_stacks,
            payments: pays,
            winnings,
            next_place: n - 1,
            remaining_players,
            busts: Ghost(Seq::new(n as nat, |p: int| -1int)),
            first: Ghost(-1int),
            initial: Ghost(chip_stacks@),
        }
    }

    /// Whether the tournament is over.
    pub fn is_done(&self) -> (r: bool)
        ensures
            r == self.done(),
    {
        self.next_place == 0
    }

    /// What each player has been paid so far.
    pub fn winnings(&self) -> (r: Vec<i32>)
        ensures
            r@ == self.paid(),
    {
        let mut out: Vec<i32> = Vec::new();
        let mut i: usize = 0;
        while i < self.winnings.len()
            invariant
                i <= self.winnings.len(),
                out@ == self.winnings@.take(i as int),
            decreases self.winnings.len() - i,
        {
            out.push(self.winnings[i]);
            proof {
                assert(out@ =~= self.winnings@.take(i + 1));
            }
            i = i + 1;
        }
        proof {
            assert(self.winnings@.take(i as int) =~= self.winnings@);
        }
        out
    }

    /// One all in between the players `hero` and `villan`, both still in:
    /// the smaller stack is at stake and goes to the winner; see
    /// `round_result`. Two players without chips cannot meet as the last
    /// two, nor for the last two places when the two payments the hero
    /// would get do not fit in an `i32`.
    pub fn play_round(&mut self, hero: usize, villan: usize, hero_won: bool)
        requires
            old(self).wf(),
            !old(self).done(),
            hero != villan,
            old(self).players().contains(hero),
            old(self).players().contains(villan),
            !(old(self).place() == 1 && old(self).stacks()[hero as int] == 0 && old(
                self,
            ).stacks()[villan as int] == 0),
            old(self).place() == 2 && old(self).stacks()[hero as int] == 0 && old(
                self,
            ).stacks()[villan as int] == 0 ==> fits_i32(
                pay(old(self).payment_list(), 2) + pay(old(self).payment_list(), 0),
            ),
        ensures
            final(self).wf(),
            round_result(*old(self), *final(self), hero, villan, hero_won),
            final(self).initial_stacks() == old(self).initial_stacks(),
            seq_sum(final(self).stacks()) == seq_sum(old(self).stacks()),
    {
        let ghost s0 = self.remaining_stacks@;
        let ghost w0 = self.winnings@;
        let ghost b0 = self.busts@;
        let ghost f0 = self.first@;
        let ghost np0 = self.next_place as int;
        let ghost players0 = self.players();
        let ghost n = s0.len() as int;
        let ghost pays = self.payments@;
        let a = self.remaining_stacks[hero];
        let b = self.remaining_stacks[villan];
        proof {
            assert(a >= 0 && b >= 0);
            lemma_seq_sum_update(s0, hero as int, 0);
            lemma_seq_sum_bounds(s0.update(hero as int, 0), villan as int);
            lemma_seq_sum_bounds(s0, hero as int);
            assert(w0[hero as int] == 0 && w0[villan as int] == 0);
        }
        let effective_stacks = if a <= b {
            a
        } else {
            b
        };
        let hero_change: i32 = if hero_won {
            effective_stacks
        } else {
            -effective_stacks
        };
        self.remaining_stacks.set(hero, a + hero_change);
        self.remaining_stacks.set(villan, b - hero_change);
        proof {
            lemma_seq_sum_update(s0, hero as int, (a + hero_change) as i32);
            lemma_seq_sum_update(
                s0.update(hero as int, (a + hero_change) as i32),
                villan as int,
                (b - hero_change) as i32,
            );
            assert(self.remaining_stacks@ == round_stacks(s0, hero as int, villan as int, hero_won));
        }
        let ghost s1 = self.remaining_stacks@;
        proof {
            assert(s1[hero as int] == 0 && s1[villan as int] == 0 ==> a == 0 && b == 0);
        }
        let hero_out = award_payments(
            &self.remaining_stacks,
            &self.payments,
            hero,
            villan,
            &mut self.winnings,
            &mut self.next_place,
        );
        if hero_out {
            bitset_clear(&mut self.remaining_players, hero);
            self.busts = Ghost(b0.update(hero as int, np0));
            if self.next_place == 0 {
                self.first = Ghost(villan as int);
            }
        }
        let ghost w1 = self.winnings@;
        let ghost np1 = self.next_place as int;
        let ghost b1 = self.busts@;
        let ghost f1 = self.first@;
        let ghost players1 = self.players();
        let villan_out = award_payments(
            &self.remaining_stacks,
            &self.payments,
            villan,
            hero,
            &mut self.winnings,
            &mut self.next_place,
        );
        if villan_out {
            bitset_clear(&mut self.remaining_players, villan);
            self.busts = Ghost(b1.update(villan as int, np1));
            if self.next_place == 0 {
                self.first = Ghost(hero as int);
            }
        }
        proof {
            let s = self.remaining_stacks@;
            let bb = self.busts@;
            let f = self.first@;
            let np = self.next_place as int;
            let w = self.winnings@;
            let pl = self.players();
            let initial = self.initial@;
            assert(s =~= s1);
            if hero_out {
                assert(players1 =~= players0.remove(hero));
            } else {
                assert(players1 =~= players0);
            }
            if villan_out {
                assert(pl =~= players1.remove(villan));
            } else {
                assert(pl =~= players1);
            }
            assert forall|p: int| 0 <= p < n implies #[trigger] s[p] >= 0 by {
                if p != hero && p != villan {
                    assert(s[p] == s0[p]);
                }
            }
            assert forall|p: int| 0 <= p < n && !pl.contains(p as usize) implies #[trigger] s[p]
                == 0 by {
                if p != hero && p != villan {
                    assert(s[p] == s0[p]);
                }
            }
            assert forall|p: int|
                0 <= p < n && pl.contains(p as usize) && #[trigger] s[p] == 0 implies initial[p]
                == 0 by {
                if p != hero && p != villan {
                    assert(s[p] == s0[p]);
                }
            }
            assert forall|p: int| 0 <= p < n && pl.contains(p as usize) implies #[trigger] bb[p]
                == -1 by {
                if p != hero && p != villan {
                    assert(bb[p] == b0[p]);
                }
            }
            assert forall|p: int| 0 <= p < n && !pl.contains(p as usize) implies np < #[trigger] bb[p]
                < n by {
                if p != hero && p != villan {
                    assert(bb[p] == b0[p]);
                    assert(!players0.contains(p as usize));
                }
            }
            assert forall|p: int, q: int|
                0 <= p < n && 0 <= q < n && p != q && bb[p] >= 0 implies #[trigger] bb[p]
                != #[trigger] bb[q] by {
                if p != hero && p != villan {
                    assert(bb[p] == b0[p]);
                    assert(!players0.contains(p as usize));
                }
                if q != hero && q != villan {
                    assert(bb[q] == b0[q]);
                    if !players0.contains(q as usize) {
                        assert(b0[q] > np0);
                    }
                }
            }
            assert forall|p: int| 0 <= p < n implies #[trigger] w[p] == (if bb[p] >= 0 {
                pay(pays, bb[p])
            } else {
                0
            }) + (if f == p {
                pay(pays, 0)
            } else {
                0
            }) by {
                if p != hero && p != villan {
                    assert(w[p] == w0[p]);
                    assert(bb[p] == b0[p]);
                }
            }
            if np == 0 && n >= 2 && !pl.contains(f as usize) {
                assert(initial[hero as int] == 0 && initial[villan as int] == 0);
            }
        }
    }

    /// One round of the simulation: two of the players still in are
    /// drawn at random and go all in, each winning with probability one
    /// half; see `play_round`. Returns whether the round could be played:
    /// it cannot when the two drawn have no chips and are the last two, or
    /// meet for the last two places with payments whose sum does not fit
    /// in an `i32`; the tournament is then left as it was. The players and
    /// the winner are chance.
    pub fn step(&mut self) -> (played: bool)
        requires
            old(self).wf(),
            !old(self).done(),
        ensures
            final(self).wf(),
            final(self).payment_list() == old(self).payment_list(),
            final(self).initial_stacks() == old(self).initial_stacks(),
            seq_sum(final(self).stacks()) == seq_sum(old(self).stacks()),
            final(self).place() <= old(self).place(),
            final(self).stacks().len() == old(self).stacks().len(),
            final(self).paid().len() == old(self).paid().len(),
            played ==> exists|hero: usize, villan: usize, hero_won: bool|
                hero != villan && old(self).players().contains(hero) && old(self).players().contains(
                    villan,
                ) && round_result(*old(self), *final(self), hero, villan, hero_won),
            !played ==> *final(self) == *old(self) && two_empty_in_play(*old(self))
                && empty_pair_fails(*old(self)),
            !(two_empty_in_play(*old(self)) && empty_pair_fails(*old(self))) ==> played,
    {
        let players = bitset_ones_vec(&self.remaining_players);
        let ghost ps = players@;
        proof {
            players@.unique_seq_to_set();
        }
        let chosen = choose_indexes(players, 2);
        proof {
            assert(self.players().len() == self.place() + 1);
        }
        if chosen.len() == 2 {
            let hero = chosen[0];
            let villan = chosen[1];
            proof {
                lemma_two_distinct(chosen@, players@);
            }
            let hero_won = coin_flip();
            if self.remaining_stacks[hero] == 0 && self.remaining_stacks[villan] == 0 {
                let p2: i64 = if 2 < self.payments.len() {
                    self.payments[2] as i64
                } else {
                    0
                };
                let p0: i64 = if 0 < self.payments.len() {
                    self.payments[0] as i64
                } else {
                    0
                };
                if self.next_place == 1 || (self.next_place == 2 && (p2 + p0 < i32::MIN as i64
                    || p2 + p0 > i32::MAX as i64)) {
                    proof {
                        assert(self.stacks()[hero as int] == 0);
                        assert(two_empty_in_play(*self));
                    }
                    return false;
                }
            }
            self.play_round(hero, villan, hero_won);
            true
        } else {
            proof {
                assert(ps.len() >= 2);
            }
            true
        }
    }
}

/// The set of the numbers below `n` has `n` elements.
proof fn lemma_range_set_len(n: nat)
    requires
        n <= usize::MAX,
    ensures
        Set::new(|i: usize| i < n).finite(),
        Set::new(|i: usize| i < n).len() == n,
    decreases n,
{
    if n == 0 {
        assert(Set::new(|i: usize| i < n) =~= Set::<usize>::empty());
    } else {
        lemma_range_set_len((n - 1) as nat);
        assert(Set::new(|i: usize| i < n) =~= Set::new(|i: usize| i < (n - 1) as nat).insert(
            (n - 1) as usize,
        ));
    }
}

/// Two items drawn from distinct positions of a list without repeats
/// are distinct members of it.
proof fn lemma_two_distinct(chosen: Seq<usize>, items: Seq<usize>)
    requires
        chosen.len() == 2,
        chosen.to_multiset().subset_of(items.to_multiset()),
        items.no_duplicates(),
    ensures
        chosen[0] != chosen[1],
        items.to_set().contains(chosen[0]),
        items.to_set().contains(chosen[1]),
{
    broadcast use vstd::seq_lib::group_to_multiset_ensures;
    items.lemma_multiset_has_no_duplicates();
    assert(chosen.to_multiset().count(chosen[0]) > 0);
    assert(chosen.to_multiset().count(chosen[1]) > 0);
    assert(items.to_multiset().count(chosen[0]) > 0);
    assert(items.to_multiset().count(chosen[1]) > 0);
    if chosen[0] == chosen[1] {
        assert(chosen =~= seq![chosen[0]].push(chosen[0]));
        assert(chosen.to_multiset().count(chosen[0]) == 2) by {
            vstd::seq_lib::to_multiset_build(seq![chosen[0]], chosen[0]);
            vstd::seq_lib::to_multiset_build(Seq::<usize>::empty(), chosen[0]);
            assert(seq![chosen[0]] =~= Seq::<usize>::empty().push(chosen[0]));
        }
    }
}

/// When the tournament is over, and at most one player started without
/// chips, every player holds a distinct place and has been paid exactly
/// that place's payment: the one left the first place's, each other
/// player the place it busted into.
pub proof fn lemma_finished_places(sim: IcmSimulation)
    requires
        sim.wf(),
        sim.done(),
        sim.stacks().len() >= 2,
        !two_started_empty(sim.initial_stacks()),
    ensures
        forall|p: int|
            0 <= p < sim.stacks().len() ==> 0 <= #[trigger] sim.places()[p] < sim.stacks().len(),
        forall|p: int, q: int|
            0 <= p < sim.stacks().len() && 0 <= q < sim.stacks().len() && p != q ==> #[trigger] sim.places()[p]
                != #[trigger] sim.places()[q],
        forall|p: int|
            0 <= p < sim.stacks().len() ==> #[trigger] sim.paid()[p] == pay(
                sim.payment_list(),
                sim.places()[p],
            ),
{
    let n = sim.stacks().len() as int;
    let f = sim.first@;
    assert(sim.players().contains(f as usize));
    assert forall|p: int| 0 <= p < n && #[trigger] sim.players().contains(p as usize) implies p == f by {
        if p != f {
            let two = Set::<usize>::empty().insert(p as usize).insert(f as usize);
            assert(two.subset_of(sim.players()));
            vstd::set_lib::lemma_len_subset(two, sim.players());
            assert(two.len() == 2);
        }
    }
    assert forall|p: int| 0 <= p < n implies 0 <= #[trigger] sim.places()[p] < n by {
        if sim.players().contains(p as usize) {
        } else {
        }
    }
    assert forall|p: int, q: int| 0 <= p < n && 0 <= q < n && p != q implies #[trigger] sim.places()[p]
        != #[trigger] sim.places()[q] by {
        if sim.players().contains(p as usize) {
        }
        if sim.players().contains(q as usize) {
        }
    }
    assert forall|p: int| 0 <= p < n implies #[trigger] sim.paid()[p] == pay(
        sim.payment_list(),
        sim.places()[p],
    ) by {
        if sim.players().contains(p as usize) {
        }
    }
}

} // verus!
