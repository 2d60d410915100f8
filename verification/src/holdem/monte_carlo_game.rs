//! Monte Carlo holdem: deal the rest of the board and of every hand from
//! a shuffled deck, rank the hands, and report who wins.

use vstd::prelude::*;
use crate::cards::card::Card;
use crate::cards::card_bit_set::{all_cards, CardBitSet};
use crate::cards::deck::Deck;
use crate::cards::error::RSPokerError;
use crate::cards::flat_deck::FlatDeck;
use crate::cards::hand::Hand;
use crate::cards::rank::{rank_seven_cards, rank_seven_spec, Rank};
use crate::cards::rank_defined::lemma_rank_seven_defined;
use crate::holdem::starting_hand::hand_views;
use crate::utils::player_bit_set::PlayerBitSet;

verus! {

/// How many cards the hands still need to reach seven each.
pub open spec fn needed_total(hs: Seq<Set<Card>>) -> int
    decreases hs.len(),
{
    if hs.len() == 0 {
        0
    } else {
        needed_total(hs.drop_last()) + (7 - hs.last().len())
    }
}

/// The size of the largest hand (zero without hands).
pub open spec fn max_size(hs: Seq<Set<Card>>) -> nat
    decreases hs.len(),
{
    if hs.len() == 0 {
        0
    } else if max_size(hs.drop_last()) >= hs.last().len() {
        max_size(hs.drop_last())
    } else {
        hs.last().len()
    }
}

/// Every card of the hands.
pub open spec fn union_of(hs: Seq<Set<Card>>) -> Set<Card>
    decreases hs.len(),
{
    if hs.len() == 0 {
        Set::empty()
    } else {
        union_of(hs.drop_last()).union(hs.last())
    }
}

/// The hole cards the hands before `i` take, with `ncc` board cards
/// dealt to each.
pub open spec fn holes_before(hs: Seq<Set<Card>>, i: int, ncc: int) -> int
    decreases i,
{
    if i <= 0 {
        0
    } else {
        holes_before(hs, i - 1, ncc) + (7 - hs[i - 1].len() - ncc)
    }
}

/// A rank's category, counted from high card up.
pub open spec fn rank_category(r: Rank) -> nat {
    match r {
        Rank::HighCard(_) => 0,
        Rank::OnePair(_) => 1,
        Rank::TwoPair(_) => 2,
        Rank::ThreeOfAKind(_) => 3,
        Rank::Straight(_) => 4,
        Rank::Flush(_) => 5,
        Rank::FullHouse(_) => 6,
        Rank::FourOfAKind(_) => 7,
        Rank::StraightFlush(_) => 8,
    }
}

/// A rank's number within its category.
pub open spec fn rank_number(r: Rank) -> u32 {
    match r {
        Rank::HighCard(x) => x,
        Rank::OnePair(x) => x,
        Rank::TwoPair(x) => x,
        Rank::ThreeOfAKind(x) => x,
        Rank::Straight(x) => x,
        Rank::Flush(x) => x,
        Rank::FullHouse(x) => x,
        Rank::FourOfAKind(x) => x,
        Rank::StraightFlush(x) => x,
    }
}

/// Ranks are ordered by category, then by the number within it.
pub open spec fn rank_below(a: Rank, b: Rank) -> bool {
    rank_category(a) < rank_category(b) || (rank_category(a) == rank_category(b)
        && rank_number(a) < rank_number(b))
}

/// The highest of the ranks, and high card zero when there are none.
pub open spec fn best_rank(ranks: Seq<Rank>) -> Rank
    decreases ranks.len(),
{
    if ranks.len() == 0 {
        Rank::HighCard(0)
    } else if rank_below(best_rank(ranks.drop_last()), ranks.last()) {
        ranks.last()
    } else {
        best_rank(ranks.drop_last())
    }
}

/// The category and number of a rank.
fn rank_parts(r: &Rank) -> (p: (u8, u32))
    ensures
        p.0 == rank_category(*r),
        p.1 == rank_number(*r),
{
    match *r {
        Rank::HighCard(x) => (0, x),
        Rank::OnePair(x) => (1, x),
        Rank::TwoPair(x) => (2, x),
        Rank::ThreeOfAKind(x) => (3, x),
        Rank::Straight(x) => (4, x),
        Rank::Flush(x) => (5, x),
        Rank::FullHouse(x) => (6, x),
        Rank::FourOfAKind(x) => (7, x),
        Rank::StraightFlush(x) => (8, x),
    }
}

/// Whether `a` ranks below `b`; see `rank_below`.
fn is_below(a: &Rank, b: &Rank) -> (r: bool)
    ensures
        r == rank_below(*a, *b),
{
    let (ca, na) = rank_parts(a);
    let (cb, nb) = rank_parts(b);
    ca < cb || (ca == cb && na < nb)
}

/// No rank is above the best rank.
proof fn lemma_best_rank(ranks: Seq<Rank>)
    ensures
        forall|j: int| 0 <= j < ranks.len() ==> !rank_below(best_rank(ranks), #[trigger] ranks[j]),
    decreases ranks.len(),
{
    if ranks.len() > 0 {
        lemma_best_rank(ranks.drop_last());
        assert forall|j: int| 0 <= j < ranks.len() implies !rank_below(
            best_rank(ranks),
            #[trigger] ranks[j],
        ) by {
            if j < ranks.len() - 1 {
                assert(ranks.drop_last()[j] == ranks[j]);
            }
        }
    }
}

/// The best rank is the highest of the ranks in the full order of ranks,
/// category first and then the number within the category: no rank has
/// a higher category, none of the same category has a higher number, and
/// (when there are ranks) it is one of them.
pub proof fn lemma_best_rank_is_highest(ranks: Seq<Rank>)
    ensures
        forall|j: int|
            0 <= j < ranks.len() ==> rank_category(#[trigger] ranks[j]) < rank_category(
                best_rank(ranks),
            ) || (rank_category(ranks[j]) == rank_category(best_rank(ranks)) && rank_number(ranks[j])
                <= rank_number(best_rank(ranks))),
        ranks.len() > 0 ==> ranks.contains(best_rank(ranks)),
    decreases ranks.len(),
{
    if ranks.len() > 0 {
        let d = ranks.drop_last();
        lemma_best_rank_is_highest(d);
        assert forall|j: int| 0 <= j < ranks.len() implies rank_category(#[trigger] ranks[j])
            < rank_category(best_rank(ranks)) || (rank_category(ranks[j]) == rank_category(
            best_rank(ranks),
        ) && rank_number(ranks[j]) <= rank_number(best_rank(ranks))) by {
            if j < ranks.len() - 1 {
                assert(d[j] == ranks[j]);
            }
        }
        if d.len() > 0 && !rank_below(best_rank(d), ranks.last()) {
            let k = choose|k: int| 0 <= k < d.len() && d[k] == best_rank(d);
            assert(ranks[k] == best_rank(ranks));
        } else {
            assert(ranks[ranks.len() - 1] == best_rank(ranks));
        }
    }
}

/// Counting cards still to reach seven over part of the hands gives no
/// more than over all of them.
proof fn lemma_needed_prefix(hs: Seq<Set<Card>>, i: int)
    requires
        0 <= i <= hs.len(),
        forall|j: int| 0 <= j < hs.len() ==> #[trigger] hs[j].len() <= 7,
    ensures
        needed_total(hs.take(i)) <= needed_total(hs),
        needed_total(hs.take(i)) >= 0,
    decreases hs.len() - i,
{
    if i < hs.len() {
        lemma_needed_prefix(hs, i + 1);
        assert(hs.take(i + 1).drop_last() =~= hs.take(i));
        assert(hs.take(i + 1).last() == hs[i]);
        assert(hs[i].len() <= 7);
        let t = hs.take(i);
        assert forall|j: int| 0 <= j < t.len() implies #[trigger] t[j].len() <= 7 by {
            assert(t[j] == hs[j]);
        }
        lemma_needed_nonneg(t);
    } else {
        assert(hs.take(i) =~= hs);
        lemma_needed_nonneg(hs);
    }
}

/// The cards still needed never count below zero.
proof fn lemma_needed_nonneg(hs: Seq<Set<Card>>)
    requires
        forall|j: int| 0 <= j < hs.len() ==> #[trigger] hs[j].len() <= 7,
    ensures
        needed_total(hs) >= 0,
    decreases hs.len(),
{
    if hs.len() > 0 {
        let dl = hs.drop_last();
        assert forall|j: int| 0 <= j < dl.len() implies #[trigger] dl[j].len() <= 7 by {
            assert(dl[j] == hs[j]);
        }
        lemma_needed_nonneg(dl);
    }
}

/// A game of holdem hands to finish again and again with random cards.
#[derive(Debug)]
pub struct MonteCarloGame {
    deck: FlatDeck,
    hands: Vec<Hand>,
    starting_hands: Vec<Hand>,
    num_community_cards: usize,
    cards_needed: usize,
    current_offset: usize,
}

impl MonteCarloGame {
    /// The deck the cards are dealt from.
    pub closed spec fn deck_cards(self) -> Seq<Card> {
        self.deck@
    }

    /// The hands themselves.
    pub closed spec fn hand_list(self) -> Seq<Hand> {
        self.hands@
    }

    /// The hands as they are now.
    pub closed spec fn hand_sets(self) -> Seq<Set<Card>> {
        hand_views(self.hands@)
    }

    /// The hands as they were given.
    pub closed spec fn starting_sets(self) -> Seq<Set<Card>> {
        hand_views(self.starting_hands@)
    }

    /// How many board cards each simulation deals.
    pub closed spec fn community_count(self) -> nat {
        self.num_community_cards as nat
    }

    /// How many cards the hands need to reach seven each.
    pub closed spec fn needed(self) -> nat {
        self.cards_needed as nat
    }

    /// Where in the deck the next card is dealt from.
    pub closed spec fn offset(self) -> nat {
        self.current_offset as nat
    }

    /// The game is consistent: as many hands as starting hands, each of
    /// at most seven cards, with room for the board; the cards needed
    /// counted right; and a deck of distinct cards, none in a hand.
    pub closed spec fn wf(self) -> bool {
        let st = self.starting_sets();
        let ncc = self.num_community_cards as int;
        &&& self.hands.len() == self.starting_hands.len()
        &&& forall|i: int| 0 <= i < st.len() ==> #[trigger] st[i].finite() && st[i].len() + ncc <= 7
        &&& ncc <= 7
        &&& self.cards_needed == needed_total(st)
        &&& self.cards_needed <= 7 * self.hands.len()
        &&& self.hands.len() <= usize::MAX / 8
        &&& self.deck@.no_duplicates()
        &&& self.deck@.len() <= 52
        &&& forall|i: int, c: Card|
            0 <= i < st.len() && #[trigger] st[i].contains(c) ==> !self.deck@.contains(c)
        &&& self.current_offset <= self.deck@.len() + 7
    }

    /// How many cards one simulation deals from the deck: the board cards
    /// and every hand's missing cards (none without hands).
    pub open spec fn draw_count(self) -> int {
        let st = self.starting_sets();
        let ncc = self.community_count() as int;
        if st.len() == 0 {
            0
        } else {
            ncc + holes_before(st, st.len() as int, ncc)
        }
    }

    /// How many hands the game holds.
    pub fn num_hands(&self) -> (r: usize)
        ensures
            r == self.hand_sets().len(),
    {
        self.hands.len()
    }

    /// Whether `simulate` can run: at most sixteen hands, and a deck with
    /// the cards one simulation deals.
    pub fn is_playable(&self) -> (r: bool)
        requires
            self.wf(),
        ensures
            r == (self.hand_sets().len() <= 16 && self.draw_count() <= self.deck_cards().len()),
    {
        let n = self.starting_hands.len();
        if n > 16 {
            return false;
        }
        if n == 0 {
            return true;
        }
        let ghost st = self.starting_sets();
        let ncc = self.num_community_cards;
        let mut total: usize = ncc;
        let mut i: usize = 0;
        while i < n
            invariant
                i <= n <= 16,
                n == self.starting_hands.len(),
                st == self.starting_sets(),
                ncc == self.num_community_cards,
                self.wf(),
                total == ncc + holes_before(st, i as int, ncc as int),
                total <= 7 + 7 * i,
            decreases n - i,
        {
            let c = self.starting_hands[i].count();
            proof {
                assert(st[i as int] == self.starting_hands@[i as int]@);
                assert(st[i as int].finite() && st[i as int].len() + ncc <= 7);
            }
            total = total + (7 - c - ncc);
            i = i + 1;
        }
        total <= self.deck.len()
    }

    /// Every hand is back to how it was given.
    pub open spec fn is_reset(self) -> bool {
        self.hand_sets() == self.starting_sets()
    }

    /// A game of the given hands. Fails when a hand holds more than the
    /// seven cards of holdem. The deck holds every card in no hand, the
    /// board gets as many cards as the largest hand lacks, and the first
    /// simulation shuffles.
    pub fn new(hands: Vec<Hand>) -> (r: Result<MonteCarloGame, RSPokerError>)
        requires
            hands@.len() <= usize::MAX / 8,
        ensures
            r is Err <==> exists|i: int| 0 <= i < hands@.len() && #[trigger] hands@[i]@.len() > 7,
            r is Err ==> r == Err::<MonteCarloGame, RSPokerError>(RSPokerError::HoldemHandSize),
            r matches Ok(g) ==> {
                &&& g.wf()
                &&& g.is_reset()
                &&& g.starting_sets() == hand_views(hands@)
                &&& g.deck_cards().to_set() == all_cards().difference(union_of(hand_views(hands@)))
                &&& g.community_count() == 7 - max_size(hand_views(hands@))
                &&& g.needed() == needed_total(hand_views(hands@))
                &&& g.offset() == g.deck_cards().len()
            },
    {
        let ghost views = hand_views(hands@);
        let mut deck = CardBitSet::full();
        let mut max_hand_size: usize = 0;
        let mut cards_needed: usize = 0;
        let mut starting_hands: Vec<Hand> = Vec::new();
        let mut i: usize = 0;
        while i < hands.len()
            invariant
                i <= hands.len() <= usize::MAX / 8,
                views == hand_views(hands@),
                starting_hands@ == hands@.take(i as int),
                max_hand_size == max_size(views.take(i as int)),
                max_hand_size <= 7,
                cards_needed == needed_total(views.take(i as int)),
                cards_needed <= 7 * i,
                deck@ == all_cards().difference(union_of(views.take(i as int))),
                forall|j: int| 0 <= j < i ==> #[trigger] views[j].len() <= 7 && views[j].finite(),
            decreases hands.len() - i,
        {
            let hand = hands[i];
            let hand_size = hand.count();
            if hand_size > 7 {
                proof {
                    assert(hands@[i as int]@.len() > 7);
                }
                return Err(RSPokerError::HoldemHandSize);
            }
            proof {
                assert(views.take(i + 1).drop_last() =~= views.take(i as int));
                assert(views.take(i + 1).last() == hand@);
            }
            if hand_size > max_hand_size {
                max_hand_size = hand_size;
            }
            cards_needed = cards_needed + (7 - hand_size);
            let cards = hand.cards();
            let ghost before = deck@;
            let mut k: usize = 0;
            while k < cards.len()
                invariant
                    k <= cards.len(),
                    cards@.to_set() == hand@,
                    deck@ == before.difference(cards@.take(k as int).to_set()),
                decreases cards.len() - k,
            {
                deck.remove(cards[k]);
                proof {
                    assert(cards@.take(k + 1) =~= cards@.take(k as int).push(cards@[k as int]));
                    cards@.take(k as int).lemma_push_to_set_commute(cards@[k as int]);
                    assert(deck@ =~= before.difference(cards@.take(k + 1).to_set()));
                }
                k = k + 1;
            }
            proof {
                assert(cards@.take(k as int) =~= cards@);
                assert(deck@ =~= all_cards().difference(union_of(views.take(i + 1))));
            }
            starting_hands.push(hand);
            proof {
                assert(starting_hands@ =~= hands@.take(i + 1));
            }
            i = i + 1;
        }
        proof {
            assert(views.take(i as int) =~= views);
            assert(starting_hands@ =~= hands@);
            assert forall|j: int| 0 <= j < hands@.len() implies #[trigger] hands@[j]@.len() <= 7 by {
                assert(views[j] == hands@[j]@);
            }
        }
        let num_community_cards = 7 - max_hand_size;
        let d = Deck::from(deck);
        proof {
            Deck::lemma_from_card_set(deck);
        }
        let flat_deck = FlatDeck::from_deck(&d);
        let offset = flat_deck.len();
        let g = MonteCarloGame {
            deck: flat_deck,
            hands,
            starting_hands,
            num_community_cards,
            cards_needed,
            current_offset: offset,
        };
        proof {
            assert(g.starting_sets() == views);
            assert(g.hand_sets() == views);
            lemma_max_size_bounds(views);
            assert forall|j: int, c: Card|
                0 <= j < views.len() && #[trigger] views[j].contains(c) implies !g.deck@.contains(c) by {
                lemma_union_contains(views, j, c);
                assert(!d@.contains(c));
                assert(!g.deck@.to_set().contains(c));
            }
            assert(g.deck@.len() <= 52) by {
                assert(g.deck@ == d.card_seq());
            }
            assert forall|j: int| 0 <= j < views.len() implies #[trigger] views[j].finite()
                && views[j].len() + num_community_cards <= 7 by {
                assert(views[j].len() <= 7 && views[j].finite());
                assert(views[j].len() <= max_size(views));
            }
            assert(g.deck@.to_set() == d@);
            assert(d@ == deck@);
        }
        Ok(g)
    }

    /// Put every hand back to how it was given.
    pub fn reset(&mut self)
        requires
            old(self).wf(),
        ensures
            final(self).wf(),
            final(self).is_reset(),
            final(self).deck_cards() == old(self).deck_cards(),
            final(self).offset() == old(self).offset(),
            final(self).starting_sets() == old(self).starting_sets(),
    {
        let mut i: usize = 0;
        while i < self.hands.len()
            invariant
                i <= self.hands.len(),
                self.hands.len() == self.starting_hands.len(),
                self.deck@ == old(self).deck@,
                self.starting_hands@ == old(self).starting_hands@,
                self.current_offset == old(self).current_offset,
                self.num_community_cards == old(self).num_community_cards,
                self.cards_needed == old(self).cards_needed,
                forall|j: int| 0 <= j < i ==> #[trigger] self.hands@[j]@ == self.starting_hands@[j]@,
            decreases self.hands.len() - i,
        {
            let h = self.starting_hands[i];
            self.hands.set(i, h);
            i = i + 1;
        }
        proof {
            assert(self.hand_sets() =~= self.starting_sets());
        }
    }

    /// Shuffle the deck and start from its top when the cards left are
    /// not enough for another simulation.
    fn shuffle_if_needed(&mut self)
        requires
            old(self).wf(),
        ensures
            final(self).wf(),
            final(self).hands@ == old(self).hands@,
            final(self).starting_hands@ == old(self).starting_hands@,
            final(self).num_community_cards == old(self).num_community_cards,
            final(self).cards_needed == old(self).cards_needed,
            final(self).deck@.to_multiset() == old(self).deck@.to_multiset(),
            final(self).deck@.len() == old(self).deck@.len(),
            old(self).current_offset + old(self).cards_needed >= old(self).deck@.len()
                ==> final(self).current_offset == 0,
            old(self).current_offset + old(self).cards_needed < old(self).deck@.len()
                ==> final(self).current_offset == old(self).current_offset
                && final(self).deck@ == old(self).deck@,
    {
        if self.current_offset + self.cards_needed >= self.deck.len() {
            self.current_offset = 0;
            let ghost before = self.deck@;
            self.deck.shuffle();
            proof {
                lemma_multiset_keeps_distinct(before, self.deck@);
            }
        }
    }

    /// Finish every hand: deal the board cards, then each hand's missing
    /// cards, from a deck shuffled whenever too few cards are left; rank
    /// each seven-card hand, and return the players whose rank is the
    /// highest, with that rank. The game must be reset before, have at
    /// most sixteen hands, and need no more cards than the deck holds.
    pub fn simulate(&mut self) -> (r: (PlayerBitSet, Rank))
        requires
            old(self).wf(),
            old(self).is_reset(),
            old(self).hand_sets().len() <= 16,
            old(self).draw_count() <= old(self).deck_cards().len(),
        ensures
            final(self).wf(),
            final(self).starting_sets() == old(self).starting_sets(),
            final(self).deck_cards().to_multiset() == old(self).deck_cards().to_multiset(),
            final(self).hand_sets().len() == old(self).hand_sets().len(),
            ({
                let full = old(self).offset() + old(self).needed() >= old(self).deck_cards().len();
                let o: int = if full {
                    0
                } else {
                    old(self).offset() as int
                };
                let ncc = old(self).community_count() as int;
                let st = old(self).starting_sets();
                let d = final(self).deck_cards();
                &&& (old(self).offset() + old(self).needed() < old(self).deck_cards().len()
                    ==> d == old(self).deck_cards())
                &&& forall|i: int|
                    0 <= i < st.len() ==> #[trigger] final(self).hand_sets()[i] == st[i].union(
                        d.subrange(o, o + ncc).to_set(),
                    ).union(
                        d.subrange(
                            o + ncc + holes_before(st, i, ncc),
                            o + ncc + holes_before(st, i + 1, ncc),
                        ).to_set(),
                    )
                &&& final(self).offset() == o + ncc + holes_before(st, st.len() as int, ncc)
            }),
            ({
                let ranks = Seq::new(
                    final(self).hand_list().len(),
                    |i: int| rank_seven_spec(final(self).hand_list()[i].card_seq().reverse()),
                );
                &&& r.1 == best_rank(ranks)
                &&& r.0@ == Set::new(|i: int| 0 <= i < ranks.len() && ranks[i] == r.1)
            }),
    {
        proof {
            if self.hands.len() > 0 {
                lemma_holes_le_needed(self.starting_sets(), self.num_community_cards as int);
            }
        }
        self.shuffle_if_needed();
        let ghost st = self.starting_sets();
        let ghost d = self.deck@;
        let n = self.hands.len();
        let ncc = self.num_community_cards;
        let o = self.current_offset;
        let community_start_idx = o;
        let community_end_idx = o + ncc;
        self.current_offset = self.current_offset + ncc;
        let mut i: usize = 0;
        let ghost mut drawn: int = 0;
        proof {
            assert forall|j: int| 0 <= j < st.len() implies #[trigger] st[j].len() <= 7 by {
                assert(st[j].finite());
            }
        }
        while i < n
            invariant
                n == self.hands.len(),
                self.hands.len() == self.starting_hands.len(),
                st == self.starting_sets(),
                st.len() == n,
                n <= 16,
                d == self.deck@,
                d.no_duplicates(),
                d.len() <= 52,
                ncc == self.num_community_cards,
                ncc <= 7,
                community_start_idx == o,
                community_end_idx == o + ncc,
                n > 0 ==> o + ncc + holes_before(st, n as int, ncc as int) <= d.len(),
                o <= d.len(),
                self.cards_needed == needed_total(st),
                forall|j: int| 0 <= j < n ==> #[trigger] st[j].finite() && st[j].len() + ncc <= 7,
                forall|j: int| 0 <= j < n ==> #[trigger] st[j].len() <= 7,
                forall|j: int, c: Card| 0 <= j < n && #[trigger] st[j].contains(c) ==> !d.contains(c),
                drawn == holes_before(st, i as int, ncc as int),
                drawn >= 0,
                i <= n,
                i == 0 ==> drawn == 0,
                i > 0 ==> ncc + drawn <= needed_total(st.take(i as int)),
                self.current_offset == o + ncc + drawn,
                forall|j: int| i <= j < n ==> #[trigger] self.hands@[j]@ == st[j],
                forall|j: int|
                    0 <= j < i ==> #[trigger] self.hands@[j]@ == st[j].union(
                        d.subrange(o as int, o + ncc).to_set(),
                    ).union(
                        d.subrange(
                            o + ncc + holes_before(st, j, ncc as int),
                            o + ncc + holes_before(st, j + 1, ncc as int),
                        ).to_set(),
                    ),
                forall|j: int| 0 <= j < i ==> #[trigger] self.hands@[j]@.len() == 7,
            decreases n - i,
        {
            let mut h = self.hands[i];
            proof {
                assert(h@ == st[i as int]);
                lemma_needed_prefix(st, i + 1);
                assert(st.take(i + 1).drop_last() =~= st.take(i as int));
                assert(st.take(i + 1).last() == st[i as int]);
                assert(needed_total(st.take(i + 1)) == needed_total(st.take(i as int)) + (7
                    - st[i as int].len()));
                assert(ncc + drawn + (7 - st[i as int].len() - ncc) <= needed_total(
                    st.take(i + 1),
                ));
                assert forall|k: int| 0 <= k < st.len() implies #[trigger] st[k].len() + ncc <= 7 by {
                    assert(st[k].finite());
                }
                lemma_holes_monotone(st, i + 1, n as int, ncc as int);
                assert(st[i as int].finite());
            }
            let mut k: usize = community_start_idx;
            while k < community_end_idx
                invariant
                    o <= k <= o + ncc,
                    community_end_idx == o + ncc,
                    o + ncc <= d.len(),
                    d == self.deck@,
                    d.no_duplicates(),
                    st[i as int].finite(),
                    forall|c: Card| #[trigger] st[i as int].contains(c) ==> !d.contains(c),
                    h@ == st[i as int].union(d.subrange(o as int, k as int).to_set()),
                    h@.finite(),
                    h@.len() == st[i as int].len() + (k - o),
                decreases community_end_idx - k,
            {
                let c = self.deck.get(k);
                proof {
                    lemma_new_card(d, o as int, k as int, st[i as int]);
                }
                h.insert(c);
                proof {
                    assert(d.subrange(o as int, k + 1) =~= d.subrange(o as int, k as int).push(c));
                    d.subrange(o as int, k as int).lemma_push_to_set_commute(c);
                }
                k = k + 1;
            }
            let hole_needed = 7 - h.count();
            let start = self.current_offset;
            proof {
                assert(hole_needed == 7 - st[i as int].len() - ncc);
                assert(start + hole_needed <= d.len());
            }
            let end = start + hole_needed;
            let mut k2: usize = start;
            while k2 < end
                invariant
                    end == start + hole_needed,
                    start <= k2 <= start + hole_needed,
                    start + hole_needed <= d.len(),
                    start >= o + ncc,
                    d == self.deck@,
                    d.no_duplicates(),
                    st[i as int].finite(),
                    forall|c: Card| #[trigger] st[i as int].contains(c) ==> !d.contains(c),
                    h@ == st[i as int].union(d.subrange(o as int, o + ncc).to_set()).union(
                        d.subrange(start as int, k2 as int).to_set(),
                    ),
                    h@.finite(),
                    h@.len() == st[i as int].len() + ncc + (k2 - start),
                decreases end - k2,
            {
                let c = self.deck.get(k2);
                proof {
                    lemma_new_hole_card(d, o as int, o + ncc, start as int, k2 as int, st[i as int]);
                }
                h.insert(c);
                proof {
                    assert(d.subrange(start as int, k2 + 1) =~= d.subrange(start as int, k2 as int).push(
                        c,
                    ));
                    d.subrange(start as int, k2 as int).lemma_push_to_set_commute(c);
                }
                k2 = k2 + 1;
            }
            self.hands.set(i, h);
            self.current_offset = self.current_offset + hole_needed;
            proof {
                drawn = drawn + hole_needed;
            }
            i = i + 1;
        }
        proof {
            if n > 0 {
                assert(st.take(n as int) =~= st);
            }
            assert(self.current_offset <= self.deck@.len() + 7);
        }
        let mut found = PlayerBitSet::new(0);
        let mut max_rank = Rank::HighCard(0);
        let ghost mut ranks: Seq<Rank> = Seq::empty();
        let mut idx: usize = 0;
        proof {
            assert(found@ =~= Set::<int>::empty());
        }
        while idx < n
            invariant
                idx <= n <= 16,
                n == self.hands.len(),
                forall|j: int| 0 <= j < n ==> #[trigger] self.hands@[j]@.len() == 7,
                ranks.len() == idx,
                forall|j: int|
                    0 <= j < idx ==> #[trigger] ranks[j] == rank_seven_spec(
                        self.hands@[j].card_seq().reverse(),
                    ),
                max_rank == best_rank(ranks),
                found@ == Set::new(|j: int| 0 <= j < idx && ranks[j] == max_rank),
            decreases n - idx,
        {
            let cards = self.hands[idx].cards();
            proof {
                lemma_rank_seven_defined(cards@);
            }
            let rank = rank_seven_cards(cards.as_slice());
            let ghost old_ranks = ranks;
            proof {
                ranks = ranks.push(rank);
                assert(ranks.drop_last() =~= old_ranks);
                lemma_best_rank(old_ranks);
            }
            if rank == max_rank {
                found.enable(idx);
                proof {
                    assert(found@ =~= Set::new(|j: int| 0 <= j < idx + 1 && ranks[j] == max_rank));
                }
            } else if is_below(&max_rank, &rank) {
                found = PlayerBitSet::new(0);
                found.enable(idx);
                max_rank = rank;
                proof {
                    assert forall|j: int| 0 <= j < idx implies ranks[j] != rank by {
                        assert(old_ranks[j] == ranks[j]);
                        assert(!rank_below(best_rank(old_ranks), old_ranks[j]));
                    }
                    assert(found@ =~= Set::new(|j: int| 0 <= j < idx + 1 && ranks[j] == max_rank));
                }
            } else {
                proof {
                    assert(found@ =~= Set::new(|j: int| 0 <= j < idx + 1 && ranks[j] == max_rank));
                }
            }
            idx = idx + 1;
        }
        proof {
            let rs = Seq::new(
                self.hands@.len(),
                |i: int| rank_seven_spec(self.hands@[i].card_seq().reverse()),
            );
            assert(rs =~= ranks);
            assert(holes_before(st, n as int, ncc as int) == drawn);
        }
        (found, max_rank)
    }
}

/// The hands before `i` take at most the hole cards of the hands before
/// `j`, for `i <= j`.
proof fn lemma_holes_monotone(hs: Seq<Set<Card>>, i: int, j: int, ncc: int)
    requires
        0 <= i <= j <= hs.len(),
        forall|k: int| 0 <= k < hs.len() ==> #[trigger] hs[k].len() + ncc <= 7,
    ensures
        holes_before(hs, i, ncc) <= holes_before(hs, j, ncc),
    decreases j - i,
{
    if i < j {
        lemma_holes_monotone(hs, i, j - 1, ncc);
        assert(hs[j - 1].len() + ncc <= 7);
    }
}

/// The board and the hole cards of at least one hand take no more cards
/// than the hands need in all.
proof fn lemma_holes_le_needed(hs: Seq<Set<Card>>, ncc: int)
    requires
        hs.len() > 0,
        0 <= ncc,
        forall|k: int| 0 <= k < hs.len() ==> #[trigger] hs[k].finite() && hs[k].len() + ncc <= 7,
    ensures
        ncc + holes_before(hs, hs.len() as int, ncc) <= needed_total(hs),
{
    lemma_holes_le_needed_prefix(hs, hs.len() as int, ncc);
    assert(hs.take(hs.len() as int) =~= hs);
}

/// The board and the hole cards of the first `i` hands take no more
/// cards than those hands need.
proof fn lemma_holes_le_needed_prefix(hs: Seq<Set<Card>>, i: int, ncc: int)
    requires
        0 < i <= hs.len(),
        0 <= ncc,
        forall|k: int| 0 <= k < hs.len() ==> #[trigger] hs[k].finite() && hs[k].len() + ncc <= 7,
    ensures
        ncc + holes_before(hs, i, ncc) <= needed_total(hs.take(i)),
    decreases i,
{
    assert(hs.take(i).drop_last() =~= hs.take(i - 1));
    assert(hs.take(i).last() == hs[i - 1]);
    assert(hs[i - 1].finite() && hs[i - 1].len() + ncc <= 7);
    assert(needed_total(hs.take(i)) == needed_total(hs.take(i - 1)) + (7 - hs[i - 1].len()));
    assert(holes_before(hs, i, ncc) == holes_before(hs, i - 1, ncc) + (7 - hs[i - 1].len() - ncc));
    if i > 1 {
        lemma_holes_le_needed_prefix(hs, i - 1, ncc);
    } else {
        assert(hs.take(0) =~= Seq::<Set<Card>>::empty());
        assert(needed_total(hs.take(0)) == 0);
        assert(holes_before(hs, 0, ncc) == 0);
    }
}

/// The size of the largest hand bounds every hand, and is at most seven
/// when they all are.
proof fn lemma_max_size_bounds(hs: Seq<Set<Card>>)
    requires
        forall|j: int| 0 <= j < hs.len() ==> #[trigger] hs[j].len() <= 7,
    ensures
        forall|j: int| 0 <= j < hs.len() ==> #[trigger] hs[j].len() <= max_size(hs),
        max_size(hs) <= 7,
    decreases hs.len(),
{
    if hs.len() > 0 {
        let dl = hs.drop_last();
        assert forall|j: int| 0 <= j < dl.len() implies #[trigger] dl[j].len() <= 7 by {
            assert(dl[j] == hs[j]);
        }
        lemma_max_size_bounds(dl);
        assert forall|j: int| 0 <= j < hs.len() implies #[trigger] hs[j].len() <= max_size(hs) by {
            if j < hs.len() - 1 {
                assert(dl[j] == hs[j]);
            }
        }
    }
}

/// A card of one hand is a card of the hands.
proof fn lemma_union_contains(hs: Seq<Set<Card>>, j: int, c: Card)
    requires
        0 <= j < hs.len(),
        hs[j].contains(c),
    ensures
        union_of(hs).contains(c),
    decreases hs.len(),
{
    if j < hs.len() - 1 {
        assert(hs.drop_last()[j] == hs[j]);
        lemma_union_contains(hs.drop_last(), j, c);
    }
}

/// Shuffling keeps the cards distinct.
proof fn lemma_multiset_keeps_distinct(a: Seq<Card>, b: Seq<Card>)
    requires
        a.no_duplicates(),
        a.to_multiset() == b.to_multiset(),
    ensures
        b.no_duplicates(),
        forall|c: Card| b.contains(c) <==> a.contains(c),
        b.len() == a.len(),
{
    broadcast use vstd::seq_lib::group_to_multiset_ensures;
    a.lemma_multiset_has_no_duplicates();
    assert forall|c: Card| b.to_multiset().contains(c) implies b.to_multiset().count(c) == 1 by {
        assert(a.to_multiset().count(c) > 0);
    }
    b.lemma_multiset_has_no_duplicates_conv();
    assert forall|c: Card| b.contains(c) <==> a.contains(c) by {
        vstd::seq_lib::to_multiset_contains(a, c);
        vstd::seq_lib::to_multiset_contains(b, c);
    }
    vstd::seq_lib::to_multiset_len(a);
    vstd::seq_lib::to_multiset_len(b);
}

/// The board card at `k` is in neither the hand nor the cards dealt
/// before it.
proof fn lemma_new_card(d: Seq<Card>, o: int, k: int, start: Set<Card>)
    requires
        d.no_duplicates(),
        0 <= o <= k < d.len(),
        forall|c: Card| #[trigger] start.contains(c) ==> !d.contains(c),
    ensures
        !start.union(d.subrange(o, k).to_set()).contains(d[k]),
{
    assert(!start.contains(d[k]));
    if d.subrange(o, k).to_set().contains(d[k]) {
        let t = choose|t: int| 0 <= t < k - o && d.subrange(o, k)[t] == d[k];
        assert(d[o + t] == d[k]);
    }
}

/// The hole card at `k` is in neither the hand, the board, nor the hole
/// cards dealt before it.
proof fn lemma_new_hole_card(d: Seq<Card>, o: int, b: int, s: int, k: int, start: Set<Card>)
    requires
        d.no_duplicates(),
        0 <= o <= b <= s <= k < d.len(),
        forall|c: Card| #[trigger] start.contains(c) ==> !d.contains(c),
    ensures
        !start.union(d.subrange(o, b).to_set()).union(d.subrange(s, k).to_set()).contains(d[k]),
{
    assert(!start.contains(d[k]));
    if d.subrange(o, b).to_set().contains(d[k]) {
        let t = choose|t: int| 0 <= t < b - o && d.subrange(o, b)[t] == d[k];
        assert(d[o + t] == d[k]);
    }
    if d.subrange(s, k).to_set().contains(d[k]) {
        let t = choose|t: int| 0 <= t < k - s && d.subrange(s, k)[t] == d[k];
        assert(d[s + t] == d[k]);
    }
}

} // verus!
