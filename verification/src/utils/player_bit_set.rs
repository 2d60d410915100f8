use vstd::prelude::*;
use vstd::std_specs::bits::{u16_trailing_zeros, axiom_u16_trailing_zeros};

verus! {

/// Bit `i` of the 16-bit word `x` is set.
pub open spec fn has_bit16(x: u16, i: int) -> bool {
    0 <= i < 16 && (x >> (i as u16)) & 1u16 == 1u16
}

/// The seats whose bit is set in `x`.
pub open spec fn seat_set_of(x: u16) -> Set<int> {
    Set::new(|i: int| has_bit16(x, i))
}

/// The seats below `n` whose bit is set in `x`, in increasing order.
pub open spec fn seats_below(x: u16, n: int) -> Seq<usize>
    decreases n,
{
    if n <= 0 {
        seq![]
    } else if has_bit16(x, n - 1) {
        seats_below(x, n - 1).push((n - 1) as usize)
    } else {
        seats_below(x, n - 1)
    }
}

proof fn lemma_seats_below(x: u16, n: int)
    requires
        0 <= n <= 16,
    ensures
        forall|k: int|
            0 <= k < seats_below(x, n).len() ==> #[trigger] seats_below(x, n)[k] < n
                && has_bit16(x, seats_below(x, n)[k] as int),
        forall|k: int, l: int|
            0 <= k < l < seats_below(x, n).len() ==> #[trigger] seats_below(x, n)[k]
                < #[trigger] seats_below(x, n)[l],
        forall|i: int|
            0 <= i < n ==> (seats_below(x, n).contains(i as usize) <==> has_bit16(x, i)),
        seats_below(x, n).no_duplicates(),
        seats_below(x, n).len() <= n,
    decreases n,
{
    if n > 0 {
        lemma_seats_below(x, n - 1);
        let prev = seats_below(x, n - 1);
        let cur = seats_below(x, n);
        assert forall|i: int| 0 <= i < n implies (cur.contains(i as usize) <==> has_bit16(x, i)) by {
            if cur.contains(i as usize) {
                let k = choose|k: int| 0 <= k < cur.len() && cur[k] == i as usize;
                if k < prev.len() {
                    assert(prev[k] == i as usize);
                }
            }
            if has_bit16(x, i) {
                if i < n - 1 {
                    assert(prev.contains(i as usize));
                    let k = choose|k: int| 0 <= k < prev.len() && prev[k] == i as usize;
                    assert(cur[k] == i as usize);
                } else {
                    assert(cur[cur.len() - 1] == i as usize);
                }
            }
        }
        assert forall|k: int, l: int| 0 <= k < l < cur.len() implies #[trigger] cur[k] < #[trigger] cur[l] by {
            if l < prev.len() {
                assert(cur[k] == prev[k] && cur[l] == prev[l]);
            } else {
                assert(cur[k] == prev[k]);
            }
        }
        assert forall|k: int| 0 <= k < cur.len() implies #[trigger] cur[k] < n && has_bit16(x, cur[k] as int) by {
            if k < prev.len() {
                assert(cur[k] == prev[k]);
            }
        }
    }
}

proof fn lemma_seats_prefix(x: u16, n: int, m: int)
    requires
        0 <= n <= m,
    ensures
        seats_below(x, n).len() <= seats_below(x, m).len(),
        forall|k: int| 0 <= k < seats_below(x, n).len() ==> #[trigger] seats_below(x, m)[k]
            == seats_below(x, n)[k],
    decreases m - n,
{
    if n < m {
        lemma_seats_prefix(x, n, m - 1);
    }
}

proof fn lemma_bit16_facts(x: u16, i: u16, j: u16)
    requires
        i < 16,
        j < 16,
    ensures
        has_bit16(x | (1u16 << i), j as int) == (has_bit16(x, j as int) || i == j),
        has_bit16(x & !(1u16 << i), j as int) == (has_bit16(x, j as int) && i != j),
        ((x & (1u16 << i)) != 0) == has_bit16(x, i as int),
        has_bit16(0u16, j as int) == false,
{
    assert(((x | (1u16 << i)) >> j) & 1u16 == 1u16 <==> ((x >> j) & 1u16 == 1u16 || i == j))
        by (bit_vector)
        requires
            i < 16,
            j < 16,
    ;
    assert(((x & !(1u16 << i)) >> j) & 1u16 == 1u16 <==> ((x >> j) & 1u16 == 1u16 && i != j))
        by (bit_vector)
        requires
            i < 16,
            j < 16,
    ;
    assert(((x & (1u16 << i)) != 0) <==> ((x >> i) & 1u16 == 1u16)) by (bit_vector)
        requires
            i < 16,
    ;
    assert((0u16 >> j) & 1u16 != 1u16) by (bit_vector);
}

proof fn lemma_low_ones16(n: u16, j: u16)
    requires
        n < 16,
        j < 16,
    ensures
        has_bit16(((1u16 << n) - 1) as u16, j as int) == (j < n),
        (1u16 << n) >= 1,
{
    assert((1u16 << n) >= 1) by (bit_vector)
        requires
            n < 16,
    ;
    assert(((((1u16 << n) - 1u16) as u16 >> j) & 1u16 == 1u16) <==> j < n) by (bit_vector)
        requires
            n < 16,
            j < 16,
    ;
}

/// Which seats at a table (at most 16) are marked, one bit per seat.
#[derive(Debug, Clone, Copy, PartialEq, Eq, Structural)]
pub struct PlayerBitSet {
    set: u16,
}

impl Default for PlayerBitSet {
    /// The set with no seat marked.
    fn default() -> (r: Self)
        ensures
            r@ == Set::<int>::empty(),
            r.seat_seq() == Seq::<usize>::empty(),
    {
        let r = PlayerBitSet { set: 0 };
        proof {
            assert forall|i: int| !r@.contains(i) by {
                if 0 <= i < 16 {
                    lemma_bit16_facts(0, 0, i as u16);
                }
            }
            assert(r@ =~= Set::<int>::empty());
            r.lemma_seq_is_set();
            lemma_seats_below(0, 16);
            if r.seat_seq().len() > 0 {
                assert(r@.contains(r.seat_seq()[0] as int));
            }
        }
        r
    }
}

impl View for PlayerBitSet {
    type V = Set<int>;

    open spec fn view(&self) -> Set<int> {
        seat_set_of(self.bits())
    }
}

impl PlayerBitSet {
    /// The underlying word.
    pub closed spec fn bits(self) -> u16 {
        self.set
    }

    /// The marked seats in increasing order.
    pub open spec fn seat_seq(self) -> Seq<usize> {
        seats_below(self.bits(), 16)
    }

    /// The set with seats `0..players` marked.
    pub fn new(players: usize) -> (r: Self)
        requires
            players < 16,
        ensures
            r@ == Set::new(|i: int| 0 <= i < players),
    {
        proof {
            lemma_low_ones16(players as u16, 0);
        }
        let set: u16 = (1u16 << (players as u16)) - 1;
        let r = Self { set };
        proof {
            assert forall|i: int| r@.contains(i) == (0 <= i < players) by {
                if 0 <= i < 16 {
                    lemma_low_ones16(players as u16, i as u16);
                }
            }
            assert(r@ =~= Set::new(|i: int| 0 <= i < players));
        }
        r
    }

    /// How many seats are marked.
    pub fn count(&self) -> (r: usize)
        ensures
            r == self@.len(),
            r == self.seat_seq().len(),
            r <= 16,
    {
        proof {
            lemma_seats_below(self.set, 16);
            self.lemma_seq_is_set();
        }
        let mut n: usize = 0;
        let mut i: u16 = 0;
        while i < 16
            invariant
                i <= 16,
                n == seats_below(self.bits(), i as int).len(),
                n <= i,
            decreases 16 - i,
        {
            proof {
                lemma_seats_below(self.set, i as int);
            }
            if (self.set >> i) & 1u16 == 1u16 {
                n = n + 1;
            }
            i = i + 1;
        }
        n
    }

    /// The enumeration lists each marked seat once.
    pub proof fn lemma_seq_is_set(self)
        ensures
            self.seat_seq().no_duplicates(),
            self.seat_seq().len() == self@.len(),
            self@.finite(),
            forall|i: int| #[trigger] self@.contains(i) <==> (0 <= i < 16 && self.seat_seq().contains(i as usize)),
    {
        lemma_seats_below(self.bits(), 16);
        let m = self.seat_seq().map_values(|s: usize| s as int);
        assert forall|i: int| m.to_set().contains(i) == self@.contains(i) by {
            if self@.contains(i) {
                assert(self.seat_seq().contains(i as usize));
                let k = choose|k: int| 0 <= k < self.seat_seq().len() && self.seat_seq()[k] == i as usize;
                assert(m[k] == i);
            }
            if m.to_set().contains(i) {
                let k = choose|k: int| 0 <= k < m.len() && m[k] == i;
                assert(has_bit16(self.bits(), self.seat_seq()[k] as int));
            }
        }
        assert(m.to_set() =~= self@);
        assert forall|a: int, b: int| 0 <= a < b < m.len() implies m[a] != m[b] by {
            assert(self.seat_seq()[a] < self.seat_seq()[b]);
        }
        m.unique_seq_to_set();
        assert forall|i: int| #[trigger] self@.contains(i) <==> (0 <= i < 16 && self.seat_seq().contains(i as usize)) by {
        }
    }

    /// Are no seats marked?
    pub fn empty(&self) -> (r: bool)
        ensures
            r == (self@ == Set::<int>::empty()),
    {
        proof {
            if self.set == 0 {
                assert forall|i: int| !self@.contains(i) by {
                    if 0 <= i < 16 {
                        lemma_bit16_facts(0, 0, i as u16);
                    }
                }
                assert(self@ =~= Set::<int>::empty());
            } else {
                axiom_u16_trailing_zeros(self.set);
                let t = u16_trailing_zeros(self.set) as int;
                assert(self@.contains(t));
            }
        }
        self.set == 0
    }

    /// Mark seat `idx`.
    pub fn enable(&mut self, idx: usize)
        requires
            idx < 16,
        ensures
            final(self)@ == old(self)@.insert(idx as int),
    {
        let ghost old_set = self.set;
        self.set = self.set | (1u16 << (idx as u16));
        proof {
            assert forall|i: int| self@.contains(i) == old(self)@.insert(idx as int).contains(i) by {
                if 0 <= i < 16 {
                    lemma_bit16_facts(old_set, idx as u16, i as u16);
                }
            }
            assert(self@ =~= old(self)@.insert(idx as int));
        }
    }

    /// Unmark seat `idx`.
    pub fn disable(&mut self, idx: usize)
        requires
            idx < 16,
        ensures
            final(self)@ == old(self)@.remove(idx as int),
    {
        let ghost old_set = self.set;
        self.set = self.set & !(1u16 << (idx as u16));
        proof {
            assert forall|i: int| self@.contains(i) == old(self)@.remove(idx as int).contains(i) by {
                if 0 <= i < 16 {
                    lemma_bit16_facts(old_set, idx as u16, i as u16);
                }
            }
            assert(self@ =~= old(self)@.remove(idx as int));
        }
    }

    /// Is seat `idx` marked?
    pub fn get(&self, idx: usize) -> (r: bool)
        requires
            idx < 16,
        ensures
            r == self@.contains(idx as int),
    {
        proof {
            lemma_bit16_facts(self.set, idx as u16, 0);
        }
        (self.set & (1u16 << (idx as u16))) != 0
    }

    /// The marked seats, in increasing order.
    pub fn ones(self) -> (r: ActivePlayerBitSetIter)
        ensures
            r@ == self.seat_seq(),
    {
        ActivePlayerBitSetIter { set: self.set }
    }

    /// The seats marked in either set.
    pub fn union(self, rhs: PlayerBitSet) -> (r: PlayerBitSet)
        ensures
            r@ == self@.union(rhs@),
            r == self.union_spec(rhs),
    {
        let r = PlayerBitSet { set: self.set | rhs.set };
        proof {
            assert forall|i: int| r@.contains(i) == self@.union(rhs@).contains(i) by {
                if 0 <= i < 16 {
                    let j = i as u16;
                    let a = self.set;
                    let b = rhs.set;
                    assert(((a | b) >> j) & 1u16 == 1u16 <==> ((a >> j) & 1u16 == 1u16 || (b >> j)
                        & 1u16 == 1u16)) by (bit_vector);
                }
            }
            assert(r@ =~= self@.union(rhs@));
        }
        r
    }

    /// The set whose word is the bitwise or of the two words.
    pub closed spec fn union_spec(self, rhs: PlayerBitSet) -> PlayerBitSet {
        PlayerBitSet { set: self.set | rhs.set }
    }

    /// The `k`-th marked seat in increasing order.
    pub fn nth(&self, k: usize) -> (r: usize)
        requires
            k < self.seat_seq().len(),
        ensures
            r == self.seat_seq()[k as int],
    {
        let mut seen: usize = 0;
        let mut i: u16 = 0;
        while i < 16
            invariant
                i <= 16,
                seen == seats_below(self.bits(), i as int).len(),
                seen <= k,
                k < seats_below(self.bits(), 16).len(),
            decreases 16 - i,
        {
            proof {
                lemma_seats_below(self.set, i as int);
                lemma_seats_prefix(self.set, (i + 1) as int, 16);
            }
            if (self.set >> i) & 1u16 == 1u16 {
                if seen == k {
                    return i as usize;
                }
                seen = seen + 1;
            }
            i = i + 1;
        }
        proof {
            lemma_seats_below(self.set, 16);
        }
        0
    }
}

impl std::ops::BitOr<PlayerBitSet> for PlayerBitSet {
    type Output = PlayerBitSet;

    /// The seats marked in either set.
    fn bitor(self, rhs: PlayerBitSet) -> (r: PlayerBitSet) {
        self.union(rhs)
    }
}

impl vstd::std_specs::ops::BitOrSpecImpl<PlayerBitSet> for PlayerBitSet {
    open spec fn obeys_bitor_spec() -> bool {
        true
    }

    open spec fn bitor_req(self, rhs: PlayerBitSet) -> bool {
        true
    }

    open spec fn bitor_spec(self, rhs: PlayerBitSet) -> PlayerBitSet {
        self.union_spec(rhs)
    }
}

/// Produces the marked seats of a `PlayerBitSet` in increasing order.
pub struct ActivePlayerBitSetIter {
    set: u16,
}

impl View for ActivePlayerBitSetIter {
    type V = Seq<usize>;

    open spec fn view(&self) -> Seq<usize> {
        seats_below(self.bits(), 16)
    }
}

impl ActivePlayerBitSetIter {
    /// The seats not yet produced, as a word.
    pub closed spec fn bits(self) -> u16 {
        self.set
    }

    /// The next seat, the lowest not yet produced; `None` when none are
    /// left.
    pub fn next(&mut self) -> (r: Option<usize>)
        ensures
            old(self)@.len() == 0 ==> r == None::<usize> && final(self)@ == old(self)@,
            old(self)@.len() > 0 ==> r == Some(old(self)@[0]) && final(self)@ == old(
                self,
            )@.drop_first(),
    {
        if self.set == 0 {
            proof {
                lemma_empty_seats(0, 16);
            }
            return None;
        }
        let ghost x = self.set;
        let t = self.set.trailing_zeros();
        proof {
            axiom_u16_trailing_zeros(x);
        }
        self.set = self.set & !(1u16 << (t as u16));
        proof {
            lemma_pop_lowest_seat(x, t as int, 16);
        }
        Some(t as usize)
    }
}

proof fn lemma_empty_seats(x: u16, n: int)
    requires
        x == 0,
        n <= 16,
    ensures
        seats_below(x, n) == Seq::<usize>::empty(),
    decreases n,
{
    if n > 0 {
        lemma_bit16_facts(0, 0, (n - 1) as u16);
        lemma_empty_seats(x, n - 1);
    }
}

proof fn lemma_below_lowest_seat(x: u16, t: int, n: int)
    requires
        0 <= t <= 16,
        forall|j: int| 0 <= j < t ==> !has_bit16(x, j),
        0 <= n <= t,
    ensures
        seats_below(x, n) == Seq::<usize>::empty(),
    decreases n,
{
    if n > 0 {
        lemma_below_lowest_seat(x, t, n - 1);
    }
}

proof fn lemma_pop_lowest_seat(x: u16, t: int, n: int)
    requires
        0 <= t < 16,
        t == u16_trailing_zeros(x),
        t < n <= 16,
    ensures
        seats_below(x, n).len() > 0,
        seats_below(x, n)[0] == t as usize,
        seats_below(x & !(1u16 << (t as u16)), n) == seats_below(x, n).drop_first(),
    decreases n,
{
    axiom_u16_trailing_zeros(x);
    let y = x & !(1u16 << (t as u16));
    if n == t + 1 {
        assert forall|j: int| 0 <= j < t implies !has_bit16(x, j) by {
            assert((x >> (j as u16)) & 1u16 == 0u16);
        }
        lemma_below_lowest_seat(x, t, t);
        assert forall|j: int| 0 <= j < t + 1 implies !has_bit16(y, j) by {
            lemma_bit16_facts(x, t as u16, j as u16);
            if j < t {
                assert((x >> (j as u16)) & 1u16 == 0u16);
            }
        }
        lemma_below_lowest_seat(y, t, t);
        lemma_below_lowest_seat(y, t + 1, t + 1);
        assert(seats_below(x, n) =~= seq![t as usize]);
    } else {
        lemma_pop_lowest_seat(x, t, n - 1);
        lemma_bit16_facts(x, t as u16, (n - 1) as u16);
        assert(seats_below(y, n) =~= seats_below(x, n).drop_first());
    }
}

} // verus!
