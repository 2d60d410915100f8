//! Every way of choosing a number of cards out of a list, one choice at
//! a time, in lexicographic order of the chosen positions.

use vstd::prelude::*;
use crate::cards::card::Card;
use crate::cards::deck::Deck;
use crate::hand::Hand;

verus! {

/// The last position, at `i` or before, that can still move up: the
/// position `i` of a choice of `idx.len()` out of `n` can hold at most
/// `n - idx.len() + i`.
pub open spec fn pivot_from(idx: Seq<int>, n: int, i: int) -> Option<int>
    decreases i + 1,
{
    if i < 0 {
        None
    } else if idx[i] < n - idx.len() + i {
        Some(i)
    } else {
        pivot_from(idx, n, i - 1)
    }
}

/// The choice of positions that follows `idx` in lexicographic order:
/// the last position that can move up moves up by one and the positions
/// after it follow it one by one. `None` after the last choice.
pub open spec fn next_combination(idx: Seq<int>, n: int) -> Option<Seq<int>> {
    match pivot_from(idx, n, idx.len() - 1) {
        None => None,
        Some(p) => Some(
            Seq::new(idx.len(), |j: int| if j < p { idx[j] } else { idx[p] + 1 + (j - p) }),
        ),
    }
}

/// Iterates over every choice of `num_cards` cards out of a list: each
/// choice is a set of positions, and they come in lexicographic order.
#[derive(Debug)]
pub struct CardIter {
    possible_cards: Vec<Card>,
    idx: Vec<i64>,
    num_cards: usize,
}

impl CardIter {
    /// The cards to choose from.
    pub closed spec fn possible(self) -> Seq<Card> {
        self.possible_cards@
    }

    /// How many cards each choice holds.
    pub closed spec fn size(self) -> nat {
        self.num_cards as nat
    }

    /// The positions of the last choice made (before the first one, a
    /// choice just below it).
    pub closed spec fn positions(self) -> Seq<int> {
        self.idx@.map_values(|x: i64| x as int)
    }

    /// Whether every choice has been made.
    pub open spec fn exhausted(self) -> bool {
        self.positions()[0] > self.possible().len() - self.size()
    }

    /// The iterator's state is sound: one position per card of a choice,
    /// at most one card asked for more than there are, and until the
    /// iterator is exhausted every position is at most as high as it can
    /// go.
    pub closed spec fn wf(self) -> bool {
        let n = self.possible_cards.len() as int;
        let k = self.num_cards as int;
        &&& self.idx.len() == k
        &&& 1 <= k <= n + 1
        &&& n < 0x4000_0000_0000_0000
        &&& forall|j: int| 0 <= j < k ==> -1 <= #[trigger] self.idx@[j] <= n + 1
        &&& forall|j: int| 0 <= j < k - 1 ==> 0 <= #[trigger] self.idx@[j]
        &&& self.idx@[0] <= n - k ==> forall|j: int|
            0 <= j < k ==> #[trigger] self.idx@[j] <= n - k + j
    }

    /// An iterator over every choice of `num_cards` of the cards. Asking
    /// for one card more than there are gives an iterator with no choice.
    pub fn new(possible_cards: Vec<Card>, num_cards: usize) -> (r: CardIter)
        requires
            1 <= num_cards <= possible_cards.len() + 1,
            possible_cards.len() < 0x4000_0000_0000_0000,
        ensures
            r.wf(),
            r.possible() == possible_cards@,
            r.size() == num_cards,
            r.positions() == start_positions(num_cards as int),
            num_cards <= possible_cards.len() ==> !r.exhausted(),
            num_cards == possible_cards.len() + 1 ==> next_combination(
                r.positions(),
                possible_cards.len() as int,
            ) is None,
    {
        let mut idx: Vec<i64> = Vec::new();
        let mut i: usize = 0;
        while i < num_cards
            invariant
                i <= num_cards,
                num_cards <= possible_cards.len() + 1,
                possible_cards.len() < 0x4000_0000_0000_0000,
                idx.len() == i,
                forall|j: int| 0 <= j < i ==> #[trigger] idx@[j] == j,
            decreases num_cards - i,
        {
            idx.push(i as i64);
            i = i + 1;
        }
        let last = idx[num_cards - 1] - 1;
        idx.set(num_cards - 1, last);
        let r = CardIter { possible_cards, idx, num_cards };
        proof {
            let s0 = Seq::new(
                num_cards as nat,
                |j: int| if j < num_cards - 1 { j } else { num_cards - 2 },
            );
            assert(r.positions() =~= s0);
            if num_cards == r.possible_cards.len() + 1 {
                lemma_no_pivot(s0, r.possible_cards.len() as int, num_cards - 1);
            }
        }
        r
    }

    /// Every choice of five of the hand's cards. The hand holds at least
    /// four cards; with four there is no choice.
    pub fn from_hand(hand: Hand) -> (r: CardIter)
        requires
            4 <= hand@.len() < 0x4000_0000_0000_0000,
        ensures
            r.wf(),
            r.possible() == hand@,
            r.size() == 5,
            hand@.len() >= 5 ==> !r.exhausted(),
            hand@.len() == 4 ==> next_combination(r.positions(), 4) is None,
    {
        CardIter::new(hand.cards(), 5)
    }

    /// Every choice of five of the deck's cards, taken in increasing
    /// index order. The deck holds at least four cards; with four there is
    /// no choice.
    pub fn from_deck(deck: &Deck) -> (r: CardIter)
        requires
            4 <= deck@.len(),
        ensures
            r.wf(),
            r.possible() == deck.card_seq(),
            r.size() == 5,
            deck@.len() >= 5 ==> !r.exhausted(),
            deck@.len() == 4 ==> next_combination(r.positions(), 4) is None,
    {
        let cards = deck.to_vec();
        CardIter::new(cards, 5)
    }

    /// The cards of the next choice; `None` once every choice was made.
    pub fn next(&mut self) -> (r: Option<Vec<Card>>)
        requires
            old(self).wf(),
        ensures
            final(self).wf(),
            final(self).possible() == old(self).possible(),
            final(self).size() == old(self).size(),
            old(self).exhausted() ==> r is None && final(self).positions() == old(self).positions(),
            !old(self).exhausted() ==> match next_combination(
                old(self).positions(),
                old(self).possible().len() as int,
            ) {
                Some(s) => final(self).positions() == s && (r matches Some(v) && v@ == s.map_values(
                    |i: int| old(self).possible()[i],
                )),
                None => r is None && final(self).exhausted(),
            },
    {
        let n = self.possible_cards.len();
        let k = self.num_cards;
        let ghost old_idx = self.positions();
        let ghost nn = n as int;
        let ghost kk = k as int;
        proof {
            assert(-1 <= self.idx@[0] <= nn + 1);
            assert(1 <= kk <= nn + 1 && nn < 0x4000_0000_0000_0000);
        }
        let k64 = k as i64;
        let n64 = n as i64;
        let first = self.idx[0];
        assert(k64 == kk && n64 == nn && first == self.idx@[0]);
        if first > n64 - k64 {
            return None;
        }
        if k > n {
            // One card asked of none: the only position moves to 0,
            // where no card is left to take.
            self.idx.set(0, 0);
            proof {
                assert(self.positions()[0] == self.idx@[0]);
                lemma_pivot(old_idx, nn, kk - 1);
            }
            return None;
        }
        let mut level: usize = k - 1;
        let ghost mut up = false;
        let ghost mut p: int = 0;
        assert(self.positions()[0] == self.idx@[0]);
        while level < k
            invariant
                n == self.possible_cards.len(),
                k == self.num_cards,
                nn == n,
                kk == k,
                1 <= k <= n < 0x4000_0000_0000_0000,
                self.idx.len() == k,
                old_idx.len() == k,
                old_idx[0] <= nn - kk,
                forall|j: int| 0 <= j < k ==> -1 <= #[trigger] old_idx[j] <= nn - kk + j,
                forall|j: int| 0 <= j < k - 1 ==> 0 <= #[trigger] old_idx[j],
                self.possible_cards@ == old(self).possible_cards@,
                self.num_cards == old(self).num_cards,
                old_idx == old(self).positions(),
                !up ==> level < k,
                !up ==> forall|j: int| 0 <= j <= level ==> #[trigger] self.idx@[j] == old_idx[j],
                !up ==> forall|j: int| level < j < k ==> #[trigger] self.idx@[j] == old_idx[j] + 1,
                !up ==> pivot_from(old_idx, nn, kk - 1) == pivot_from(old_idx, nn, level as int),
                up ==> 0 <= p < level <= k,
                up ==> pivot_from(old_idx, nn, kk - 1) == Some(p),
                up ==> old_idx[p] < nn - kk + p,
                up ==> forall|j: int| 0 <= j < p ==> #[trigger] self.idx@[j] == old_idx[j],
                up ==> forall|j: int|
                    p <= j < level ==> #[trigger] self.idx@[j] == old_idx[p] + 1 + (j - p),
                up && level < k ==> self.idx@[level as int] == old_idx[p] + (level - p),
            decreases (if up {
                kk - level
            } else {
                kk + 1 + level
            }),
        {
            let cur = self.idx[level] + 1;
            self.idx.set(level, cur);
            let cards_needed_after = k - (level + 1);
            if cur as usize >= n - cards_needed_after {
                if level == 0 {
                    proof {
                        assert(!up);
                        assert(pivot_from(old_idx, nn, -1) is None);
                        assert(self.positions()[0] == self.idx@[0]);
                        assert forall|j: int| 0 <= j < k implies -1 <= #[trigger] self.idx@[j] <= nn + 1 by {}
                    }
                    return None;
                }
                level = level - 1;
            } else {
                proof {
                    if !up {
                        p = level as int;
                        up = true;
                    }
                }
                if level < k - 1 {
                    let copy = self.idx[level];
                    self.idx.set(level + 1, copy);
                }
                level = level + 1;
            }
        }
        let ghost next = next_combination(old_idx, nn)->Some_0;
        proof {
            assert(self.positions() =~= next);
            assert forall|j: int| 0 <= j < k implies 0 <= #[trigger] next[j] < n by {
                if j < p {
                    assert(next[j] == old_idx[j]);
                } else {
                    assert(next[j] == old_idx[p] + 1 + (j - p));
                }
            }
        }
        let mut out: Vec<Card> = Vec::new();
        let mut t: usize = 0;
        while t < k
            invariant
                t <= k,
                k == self.num_cards,
                n == self.possible_cards.len(),
                self.idx.len() == k,
                self.positions() == next,
                self.possible_cards@ == old(self).possible_cards@,
                self.num_cards == old(self).num_cards,
                next.len() == k,
                forall|j: int| 0 <= j < k ==> 0 <= #[trigger] next[j] < n,
                out@ == next.take(t as int).map_values(|i: int| self.possible_cards@[i]),
            decreases k - t,
        {
            let pos = self.idx[t];
            assert(pos == next[t as int]);
            out.push(self.possible_cards[pos as usize]);
            proof {
                assert(out@ =~= next.take(t + 1).map_values(|i: int| self.possible_cards@[i]));
            }
            t = t + 1;
        }
        proof {
            assert(next.take(k as int) =~= next);
        }
        Some(out)
    }
}


/// A choice of positions out of `n`: strictly increasing, all below `n`.
pub open spec fn valid_choice(s: Seq<int>, n: int) -> bool {
    &&& forall|i: int, j: int| 0 <= i < j < s.len() ==> #[trigger] s[i] < #[trigger] s[j]
    &&& forall|i: int| 0 <= i < s.len() ==> 0 <= #[trigger] s[i] < n
}

/// `a` comes before `b` in lexicographic order: they agree up to some
/// position, where `a` is lower.
pub open spec fn lex_before(a: Seq<int>, b: Seq<int>) -> bool {
    exists|p: int|
        0 <= p < a.len() && p < b.len() && (forall|j: int| 0 <= j < p ==> #[trigger] a[j] == b[j])
            && #[trigger] a[p] < b[p]
}

/// The last choice: every position as high as it can go.
pub open spec fn last_choice(s: Seq<int>, n: int) -> bool {
    forall|i: int| 0 <= i < s.len() ==> #[trigger] s[i] == n - s.len() + i
}

/// Within a valid choice, later positions are at least as far above an
/// earlier one as they are after it, and no position is above where it
/// can go.
proof fn lemma_choice_bounds(s: Seq<int>, n: int)
    requires
        valid_choice(s, n),
    ensures
        forall|i: int, j: int| 0 <= i <= j < s.len() ==> #[trigger] s[j] - #[trigger] s[i] >= j - i,
        forall|i: int| 0 <= i < s.len() ==> #[trigger] s[i] <= n - s.len() + i,
{
    assert forall|i: int, j: int| 0 <= i <= j < s.len() implies #[trigger] s[j] - #[trigger] s[i]
        >= j - i by {
        lemma_gap_from(s, n, i, j);
    }
    assert forall|i: int| 0 <= i < s.len() implies #[trigger] s[i] <= n - s.len() + i by {
        lemma_gap_from(s, n, i, s.len() - 1);
    }
}

proof fn lemma_gap_from(s: Seq<int>, n: int, i: int, j: int)
    requires
        valid_choice(s, n),
        0 <= i <= j < s.len(),
    ensures
        s[j] - s[i] >= j - i,
    decreases j - i,
{
    if i < j {
        lemma_gap_from(s, n, i, j - 1);
        assert(s[j - 1] < s[j]);
    }
}

/// What the pivot search finds: a position below its highest, with every
/// later position (up to `i`) at its highest; or, when none is found,
/// every position up to `i` at its highest or above.
proof fn lemma_pivot(idx: Seq<int>, n: int, i: int)
    requires
        i < idx.len(),
    ensures
        pivot_from(idx, n, i) matches Some(p) ==> 0 <= p <= i && idx[p] < n - idx.len() + p
            && forall|t: int| p < t <= i ==> #[trigger] idx[t] >= n - idx.len() + t,
        pivot_from(idx, n, i) is None ==> forall|t: int| 0 <= t <= i ==> #[trigger] idx[t] >= n
            - idx.len() + t,
    decreases i + 1,
{
    if i >= 0 && idx[i] >= n - idx.len() + i {
        lemma_pivot(idx, n, i - 1);
    }
}

/// With every position up to `i` at its highest or above, no position
/// up to `i` can move up.
proof fn lemma_no_pivot(idx: Seq<int>, n: int, i: int)
    requires
        i < idx.len(),
        forall|t: int| 0 <= t <= i ==> #[trigger] idx[t] >= n - idx.len() + t,
    ensures
        pivot_from(idx, n, i) is None,
    decreases i + 1,
{
    if i >= 0 {
        lemma_no_pivot(idx, n, i - 1);
    }
}

/// Choosing in lexicographic order: from a valid choice, there is no next
/// choice exactly after the last one; otherwise the next choice is valid,
/// comes after it, and no valid choice lies between the two (the whole
/// run is `lemma_every_choice_once`).
pub proof fn lemma_next_combination_is_successor(idx: Seq<int>, n: int)
    requires
        idx.len() >= 1,
        valid_choice(idx, n),
    ensures
        next_combination(idx, n) is None <==> last_choice(idx, n),
        next_combination(idx, n) matches Some(j) ==> {
            &&& j.len() == idx.len()
            &&& valid_choice(j, n)
            &&& lex_before(idx, j)
            &&& forall|y: Seq<int>|
                y.len() == idx.len() && valid_choice(y, n) && lex_before(idx, y) ==> !lex_before(
                    y,
                    j,
                )
        },
{
    let k = idx.len() as int;
    lemma_choice_bounds(idx, n);
    lemma_pivot(idx, n, k - 1);
    match pivot_from(idx, n, k - 1) {
        None => {},
        Some(p) => {
            let j = next_combination(idx, n)->Some_0;
            assert(!last_choice(idx, n)) by {
                assert(idx[p] != n - k + p);
            }
            assert forall|a: int, b: int| 0 <= a < b < j.len() implies #[trigger] j[a] < #[trigger] j[b] by {
                if b < p {
                    assert(idx[a] < idx[b]);
                } else if a < p {
                    assert(idx[a] < idx[p]);
                }
            }
            assert forall|a: int| 0 <= a < j.len() implies 0 <= #[trigger] j[a] < n by {
                if a < p {
                } else {
                    assert(idx[p] + 1 + (a - p) <= n - k + a);
                }
            }
            assert(lex_before(idx, j)) by {
                assert(forall|t: int| 0 <= t < p ==> #[trigger] idx[t] == j[t]);
                assert(idx[p] < j[p]);
            }
            assert forall|y: Seq<int>|
                y.len() == idx.len() && valid_choice(y, n) && lex_before(idx, y) implies !lex_before(
                y,
                j,
            ) by {
                lemma_choice_bounds(y, n);
                let q = choose|q: int|
                    0 <= q < idx.len() && q < y.len() && (forall|t: int|
                        0 <= t < q ==> #[trigger] idx[t] == y[t]) && #[trigger] idx[q] < y[q];
                if lex_before(y, j) {
                    let r = choose|r: int|
                        0 <= r < y.len() && r < j.len() && (forall|t: int|
                            0 <= t < r ==> #[trigger] y[t] == j[t]) && #[trigger] y[r] < j[r];
                    if q > p {
                        assert(idx[q] >= n - k + q);
                        assert(y[q] <= n - k + q);
                    } else if q < p {
                        if r <= q {
                            if r < q {
                                assert(y[r] == idx[r]);
                                assert(j[r] == idx[r]);
                            } else {
                                assert(j[q] == idx[q]);
                            }
                        } else {
                            assert(y[q] == j[q]);
                            assert(j[q] == idx[q]);
                        }
                    } else {
                        if r < p {
                            assert(y[r] == idx[r]);
                            assert(j[r] == idx[r]);
                        } else if r == p {
                            assert(y[p] >= idx[p] + 1);
                        } else {
                            assert(y[p] == j[p]);
                            assert(y[r] - y[p] >= r - p);
                        }
                    }
                }
            }
        },
    }
}

/// The first step of a new iterator goes to the first choice: positions
/// `0` to `k - 1`, which comes before every other valid choice.
pub proof fn lemma_first_choice(k: int, n: int)
    requires
        1 <= k <= n,
    ensures
        next_combination(
            Seq::new(k as nat, |j: int| if j < k - 1 { j } else { k - 2 }),
            n,
        ) == Some(Seq::new(k as nat, |j: int| j)),
        valid_choice(Seq::new(k as nat, |j: int| j), n),
        forall|y: Seq<int>|
            y.len() == k && valid_choice(y, n) && y != Seq::new(k as nat, |j: int| j) ==> lex_before(
                Seq::new(k as nat, |j: int| j),
                y,
            ),
{
    let s0 = Seq::new(k as nat, |j: int| if j < k - 1 { j } else { k - 2 });
    let f = Seq::new(k as nat, |j: int| j);
    assert(pivot_from(s0, n, k - 1) == Some(k - 1));
    assert(next_combination(s0, n)->Some_0 =~= f);
    assert forall|y: Seq<int>| y.len() == k && valid_choice(y, n) && y != f implies lex_before(f, y) by {
        lemma_first_is_least(k, n, y);
    }
}

/// The first choice comes before any other valid choice.
proof fn lemma_first_is_least(k: int, n: int, y: Seq<int>)
    requires
        1 <= k <= n,
        y.len() == k,
        valid_choice(y, n),
        y != Seq::new(k as nat, |j: int| j),
    ensures
        lex_before(Seq::new(k as nat, |j: int| j), y),
{
    let f = Seq::new(k as nat, |j: int| j);
    lemma_choice_bounds(y, n);
    assert(exists|t: int| 0 <= t < k && f[t] != y[t]) by {
        if !(exists|t: int| 0 <= t < k && f[t] != y[t]) {
            assert(y =~= f);
        }
    }
    let t = lemma_first_difference(f, y);
    assert(y[t] - y[0] >= t);
    assert(f[t] < y[t]);
    assert(forall|u: int| 0 <= u < t ==> #[trigger] f[u] == y[u]);
}

/// Two sequences of one length that differ somewhere have a first place
/// where they differ.
proof fn lemma_first_difference(a: Seq<int>, b: Seq<int>) -> (t: int)
    requires
        a.len() == b.len(),
        exists|t: int| 0 <= t < a.len() && a[t] != b[t],
    ensures
        0 <= t < a.len(),
        a[t] != b[t],
        forall|u: int| 0 <= u < t ==> #[trigger] a[u] == b[u],
    decreases a.len(),
{
    if a[0] != b[0] {
        0
    } else {
        let w = choose|t: int| 0 <= t < a.len() && a[t] != b[t];
        assert(a.drop_first()[w - 1] != b.drop_first()[w - 1]);
        let t = lemma_first_difference(a.drop_first(), b.drop_first());
        assert forall|u: int| 0 <= u < t + 1 implies #[trigger] a[u] == b[u] by {
            if u > 0 {
                assert(a.drop_first()[u - 1] == a[u]);
                assert(b.drop_first()[u - 1] == b[u]);
            }
        }
        t + 1
    }
}


/// The positions a new iterator starts from: just below the first choice.
pub open spec fn start_positions(k: int) -> Seq<int> {
    Seq::new(k as nat, |j: int| if j < k - 1 { j } else { k - 2 })
}

/// The first choice of `k` positions: `0` to `k - 1`.
pub open spec fn first_positions(k: int) -> Seq<int> {
    Seq::new(k as nat, |j: int| j)
}

/// Where `m` steps of the choice order lead from `s`: `None` once a step
/// found no next choice.
pub open spec fn choice_run(s: Seq<int>, n: int, m: nat) -> Option<Seq<int>>
    decreases m,
{
    if m == 0 {
        Some(s)
    } else {
        match choice_run(s, n, (m - 1) as nat) {
            Some(t) => next_combination(t, n),
            None => None,
        }
    }
}

/// A choice read as a number in base `b`, the first position most
/// significant.
pub open spec fn choice_number(s: Seq<int>, b: int) -> int
    decreases s.len(),
{
    if s.len() == 0 {
        0
    } else {
        choice_number(s.drop_last(), b) * b + s.last()
    }
}

/// Lexicographic order is transitive.
proof fn lemma_lex_trans(a: Seq<int>, b: Seq<int>, c: Seq<int>)
    requires
        a.len() == b.len(),
        b.len() == c.len(),
        lex_before(a, b),
        lex_before(b, c),
    ensures
        lex_before(a, c),
{
    let p = choose|p: int|
        0 <= p < a.len() && p < b.len() && (forall|j: int| 0 <= j < p ==> #[trigger] a[j] == b[j])
            && #[trigger] a[p] < b[p];
    let q = choose|q: int|
        0 <= q < b.len() && q < c.len() && (forall|j: int| 0 <= j < q ==> #[trigger] b[j] == c[j])
            && #[trigger] b[q] < c[q];
    let r = if p < q {
        p
    } else {
        q
    };
    assert(forall|j: int| 0 <= j < r ==> #[trigger] a[j] == c[j]) by {
        assert forall|j: int| 0 <= j < r implies #[trigger] a[j] == c[j] by {
            assert(a[j] == b[j]);
            assert(b[j] == c[j]);
        }
    }
    assert(a[r] < c[r]);
}

/// A choice's number is not negative, and below `b` to the power of its
/// length.
proof fn lemma_choice_number_range(s: Seq<int>, b: int)
    requires
        b >= 1,
        forall|i: int| 0 <= i < s.len() ==> 0 <= #[trigger] s[i] < b,
    ensures
        0 <= choice_number(s, b),
    decreases s.len(),
{
    if s.len() > 0 {
        let t = s.drop_last();
        assert forall|i: int| 0 <= i < t.len() implies 0 <= #[trigger] t[i] < b by {
            assert(t[i] == s[i]);
        }
        lemma_choice_number_range(t, b);
        let x = choice_number(t, b);
        assert(x * b >= 0) by (nonlinear_arith)
            requires
                x >= 0,
                b >= 1,
        ;
    }
}

/// With digits below `b`, a choice lexicographically before another of
/// the same length has the smaller number.
proof fn lemma_lex_number(a: Seq<int>, c: Seq<int>, b: int)
    requires
        b >= 1,
        a.len() == c.len(),
        forall|i: int| 0 <= i < a.len() ==> 0 <= #[trigger] a[i] < b,
        forall|i: int| 0 <= i < c.len() ==> 0 <= #[trigger] c[i] < b,
        lex_before(a, c),
    ensures
        choice_number(a, b) < choice_number(c, b),
    decreases a.len(),
{
    let p = choose|p: int|
        0 <= p < a.len() && p < c.len() && (forall|j: int| 0 <= j < p ==> #[trigger] a[j] == c[j])
            && #[trigger] a[p] < c[p];
    let l = a.len() - 1;
    let a1 = a.drop_last();
    let c1 = c.drop_last();
    if p == l {
        assert(a1 =~= c1) by {
            assert forall|j: int| 0 <= j < a1.len() implies a1[j] == c1[j] by {
                assert(a[j] == c[j]);
            }
        }
    } else {
        assert(lex_before(a1, c1)) by {
            assert(forall|j: int| 0 <= j < p ==> #[trigger] a1[j] == c1[j]) by {
                assert forall|j: int| 0 <= j < p implies #[trigger] a1[j] == c1[j] by {
                    assert(a[j] == c[j]);
                }
            }
            assert(a1[p] < c1[p]);
        }
        assert forall|i: int| 0 <= i < a1.len() implies 0 <= #[trigger] a1[i] < b by {
            assert(a1[i] == a[i]);
        }
        assert forall|i: int| 0 <= i < c1.len() implies 0 <= #[trigger] c1[i] < b by {
            assert(c1[i] == c[i]);
        }
        lemma_lex_number(a1, c1, b);
        let x = choice_number(a1, b);
        let y = choice_number(c1, b);
        let da = a.last();
        let dc = c.last();
        assert(x * b + da < y * b + dc) by (nonlinear_arith)
            requires
                x + 1 <= y,
                b >= 1,
                0 <= da < b,
                0 <= dc,
        ;
    }
}

/// The last position, at `i` or before, that sits more than one above
/// the position before it (above 0 for the first position).
pub open spec fn gap_from(y: Seq<int>, i: int) -> Option<int>
    decreases i + 1,
{
    if i < 0 {
        None
    } else if y[i] > (if i == 0 {
        0
    } else {
        y[i - 1] + 1
    }) {
        Some(i)
    } else {
        gap_from(y, i - 1)
    }
}

proof fn lemma_gap(y: Seq<int>, i: int)
    requires
        i < y.len(),
        forall|a: int, b: int| 0 <= a < b < y.len() ==> #[trigger] y[a] < #[trigger] y[b],
        forall|a: int| 0 <= a < y.len() ==> 0 <= #[trigger] y[a],
    ensures
        gap_from(y, i) matches Some(p) ==> 0 <= p <= i && y[p] > (if p == 0 {
            0
        } else {
            y[p - 1] + 1
        }) && forall|t: int| p < t <= i ==> #[trigger] y[t] == y[t - 1] + 1,
        gap_from(y, i) is None ==> forall|t: int| 0 <= t <= i ==> #[trigger] y[t] == t,
    decreases i + 1,
{
    if i >= 0 {
        lemma_gap(y, i - 1);
        assert(y[i] >= 0);
        if i > 0 {
            assert(y[i - 1] < y[i]);
        }
        if gap_from(y, i) is None {
            assert forall|t: int| 0 <= t <= i implies #[trigger] y[t] == t by {
                if t == i && i > 0 {
                    assert(y[i - 1] == i - 1);
                }
            }
        }
    }
}

/// After the last gap, positions follow one by one.
proof fn lemma_run_after_gap(y: Seq<int>, p: int, j: int)
    requires
        0 <= p <= j < y.len(),
        forall|t: int| p < t < y.len() ==> #[trigger] y[t] == y[t - 1] + 1,
    ensures
        y[j] == y[p] + (j - p),
    decreases j - p,
{
    if j > p {
        lemma_run_after_gap(y, p, j - 1);
    }
}

/// Pivot search over positions above `p` that all sit at their highest,
/// with position `p` below its highest, stops at `p`.
proof fn lemma_pivot_at(x: Seq<int>, n: int, p: int, i: int)
    requires
        0 <= p <= i < x.len(),
        x[p] < n - x.len() + p,
        forall|t: int| p < t <= i ==> #[trigger] x[t] == n - x.len() + t,
    ensures
        pivot_from(x, n, i) == Some(p),
    decreases i - p,
{
    if i > p {
        lemma_pivot_at(x, n, p, i - 1);
    }
}

/// Every valid choice but the first has a valid choice just before it.
proof fn lemma_predecessor(y: Seq<int>, n: int) -> (x: Seq<int>)
    requires
        y.len() >= 1,
        valid_choice(y, n),
        y != first_positions(y.len() as int),
    ensures
        x.len() == y.len(),
        valid_choice(x, n),
        next_combination(x, n) == Some(y),
        lex_before(x, y),
{
    let k = y.len() as int;
    lemma_choice_bounds(y, n);
    lemma_gap(y, k - 1);
    if gap_from(y, k - 1) is None {
        assert(y =~= first_positions(k));
    }
    let p = gap_from(y, k - 1)->Some_0;
    let x = Seq::new(k as nat, |j: int| if j < p { y[j] } else if j == p { y[p] - 1 } else { n - k + j });
    assert forall|j: int| p <= j < k implies #[trigger] y[j] == y[p] + (j - p) by {
        lemma_run_after_gap(y, p, j);
    }
    assert forall|a: int, b: int| 0 <= a < b < k implies #[trigger] x[a] < #[trigger] x[b] by {
        if b < p {
            assert(y[a] < y[b]);
        } else if b == p {
            assert(y[a] <= y[p - 1]);
        } else if a < p {
            assert(y[a] < y[p]);
            assert(y[p] <= n - k + p);
        } else if a == p {
            assert(y[p] <= n - k + p);
        }
    }
    assert forall|a: int| 0 <= a < k implies 0 <= #[trigger] x[a] < n by {
        if a == p && p > 0 {
            assert(y[p - 1] >= 0);
        }
        if a > p {
            assert(y[a] <= n - k + a);
        }
    }
    assert(y[p] <= n - k + p);
    lemma_pivot_at(x, n, p, k - 1);
    assert(next_combination(x, n)->Some_0 =~= y);
    assert(lex_before(x, y)) by {
        assert(forall|j: int| 0 <= j < p ==> #[trigger] x[j] == y[j]);
        assert(x[p] < y[p]);
    }
    x
}

/// Steps taken after a first step from `s` to `t` are the steps from `t`.
proof fn lemma_run_shift(s: Seq<int>, t: Seq<int>, n: int, m: nat)
    requires
        next_combination(s, n) == Some(t),
    ensures
        choice_run(s, n, m + 1) == choice_run(t, n, m),
    decreases m,
{
    reveal_with_fuel(choice_run, 2);
    if m > 0 {
        lemma_run_shift(s, t, n, (m - 1) as nat);
    }
}

/// Every choice on the run from a valid choice is valid, and each comes
/// after all those before it.
proof fn lemma_run_increasing(s: Seq<int>, n: int, m1: nat, m2: nat)
    requires
        s.len() >= 1,
        valid_choice(s, n),
        m1 <= m2,
        choice_run(s, n, m2) is Some,
    ensures
        choice_run(s, n, m1) is Some,
        choice_run(s, n, m1)->Some_0.len() == s.len(),
        valid_choice(choice_run(s, n, m1)->Some_0, n),
        choice_run(s, n, m2)->Some_0.len() == s.len(),
        valid_choice(choice_run(s, n, m2)->Some_0, n),
        m1 < m2 ==> lex_before(choice_run(s, n, m1)->Some_0, choice_run(s, n, m2)->Some_0),
    decreases m2,
{
    if m2 > 0 {
        let prev = (m2 - 1) as nat;
        assert(choice_run(s, n, prev) is Some);
        lemma_run_increasing(s, n, if m1 < m2 { m1 } else { prev }, prev);
        let t = choice_run(s, n, prev)->Some_0;
        lemma_next_combination_is_successor(t, n);
        if m1 < prev {
            lemma_lex_trans(
                choice_run(s, n, m1)->Some_0,
                t,
                choice_run(s, n, m2)->Some_0,
            );
        }
    }
}

/// Every valid choice is reached from the first one.
proof fn lemma_run_reaches(y: Seq<int>, n: int) -> (m: nat)
    requires
        y.len() >= 1,
        valid_choice(y, n),
    ensures
        choice_run(first_positions(y.len() as int), n, m) == Some(y),
    decreases choice_number(y, n),
{
    let k = y.len() as int;
    if y == first_positions(k) {
        0
    } else {
        let x = lemma_predecessor(y, n);
        lemma_lex_number(x, y, n);
        lemma_choice_number_range(x, n);
        let m = lemma_run_reaches(x, n);
        m + 1
    }
}

/// A new iterator over `k` of `n` cards yields every choice of `k`
/// positions out of `n` exactly once, in lexicographic order, and then
/// nothing more: the `m`-th step (from 1) from the starting positions
/// gives a valid choice or none; once none, none ever after; every valid
/// choice is given at some step; a later step gives a choice after an
/// earlier one, so no choice comes twice; and the steps do run out.
pub proof fn lemma_every_choice_once(k: int, n: int)
    requires
        1 <= k <= n,
    ensures
        forall|m: nat|
            m >= 1 && #[trigger] choice_run(start_positions(k), n, m) is Some ==> choice_run(
                start_positions(k),
                n,
                m,
            )->Some_0.len() == k && valid_choice(choice_run(start_positions(k), n, m)->Some_0, n),
        forall|m: nat|
            #[trigger] choice_run(start_positions(k), n, m) is None ==> choice_run(
                start_positions(k),
                n,
                m + 1,
            ) is None,
        forall|y: Seq<int>|
            y.len() == k && valid_choice(y, n) ==> exists|m: nat|
                m >= 1 && #[trigger] choice_run(start_positions(k), n, m) == Some(y),
        forall|m1: nat, m2: nat|
            1 <= m1 < m2 && #[trigger] choice_run(start_positions(k), n, m1) is Some
                && #[trigger] choice_run(start_positions(k), n, m2) is Some ==> lex_before(
                choice_run(start_positions(k), n, m1)->Some_0,
                choice_run(start_positions(k), n, m2)->Some_0,
            ),
        exists|m: nat| #[trigger] choice_run(start_positions(k), n, m) is None,
{
    let s0 = start_positions(k);
    let f = first_positions(k);
    lemma_first_choice(k, n);
    assert(s0 =~= Seq::new(k as nat, |j: int| if j < k - 1 { j } else { k - 2 }));
    assert(f =~= Seq::new(k as nat, |j: int| j));
    assert forall|m: nat| m >= 1 && #[trigger] choice_run(s0, n, m) is Some implies choice_run(
        s0,
        n,
        m,
    )->Some_0.len() == k && valid_choice(choice_run(s0, n, m)->Some_0, n) by {
        lemma_run_shift(s0, f, n, (m - 1) as nat);
        lemma_run_increasing(f, n, (m - 1) as nat, (m - 1) as nat);
    }
    assert forall|y: Seq<int>| y.len() == k && valid_choice(y, n) implies exists|m: nat|
        m >= 1 && #[trigger] choice_run(s0, n, m) == Some(y) by {
        let m = lemma_run_reaches(y, n);
        lemma_run_shift(s0, f, n, m);
    }
    assert forall|m1: nat, m2: nat|
        1 <= m1 < m2 && #[trigger] choice_run(s0, n, m1) is Some && #[trigger] choice_run(
            s0,
            n,
            m2,
        ) is Some implies lex_before(choice_run(s0, n, m1)->Some_0, choice_run(s0, n, m2)->Some_0) by {
        lemma_run_shift(s0, f, n, (m1 - 1) as nat);
        lemma_run_shift(s0, f, n, (m2 - 1) as nat);
        lemma_run_increasing(f, n, (m1 - 1) as nat, (m2 - 1) as nat);
    }
    let last = Seq::new(k as nat, |j: int| n - k + j);
    assert(valid_choice(last, n));
    let m = lemma_run_reaches(last, n);
    lemma_next_combination_is_successor(last, n);
    lemma_run_shift(s0, f, n, m);
    lemma_run_shift(s0, f, n, m + 1);
    assert(choice_run(s0, n, m + 2) is None);
}

} // verus!
