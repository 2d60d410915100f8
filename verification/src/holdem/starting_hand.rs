use vstd::prelude::*;
use crate::cards::card::{all_values, suit_index, suit_of_index, value_of_index, Card, Suit, Value};
use crate::cards::hand::Hand;

verus! {

/// How the suits of a starting hand's two cards relate.
#[derive(Debug, Clone, Copy, PartialEq, Eq, Structural, PartialOrd, Ord, Hash)]
pub enum Suitedness {
    /// Both cards of one suit.
    Suited,
    /// The cards of different suits.
    OffSuit,
    /// No promise about the suits.
    Any,
}

/// The two-card starting hand of holdem, given by two values and how
/// their suits relate. It stands for all the actual hands it can be.
#[derive(Debug, Clone, Copy, PartialEq, Eq, Structural, PartialOrd, Ord, Hash)]
pub struct StartingHand {
    /// The first value.
    pub value_one: Value,
    /// The second value.
    pub value_two: Value,
    /// Which suit combinations to consider.
    pub suited: Suitedness,
}

/// The set of two cards.
pub open spec fn two_cards(a: Card, b: Card) -> Set<Card> {
    Set::empty().insert(a).insert(b)
}

/// The suited hands of two values: one per suit, none for a pair.
pub open spec fn suited_hands(v1: Value, v2: Value) -> Seq<Set<Card>> {
    if v1 == v2 {
        Seq::empty()
    } else {
        Seq::new(
            4,
            |s: int|
                two_cards(
                    Card { value: v1, suit: suit_of_index(s) },
                    Card { value: v2, suit: suit_of_index(s) },
                ),
        )
    }
}

/// The offsuit hands for first suit index `i` and second suit indexes
/// `j` up to 3: the first value in suit `i` with the second in suit `j`,
/// then, unless the values are equal, the suits swapped.
pub open spec fn offsuit_row(v1: Value, v2: Value, i: int, j: int) -> Seq<Set<Card>>
    decreases 4 - j,
{
    if j >= 4 {
        Seq::empty()
    } else {
        let first = seq![two_cards(
            Card { value: v1, suit: suit_of_index(i) },
            Card { value: v2, suit: suit_of_index(j) },
        )];
        let both = if v1 != v2 {
            first.push(
                two_cards(
                    Card { value: v1, suit: suit_of_index(j) },
                    Card { value: v2, suit: suit_of_index(i) },
                ),
            )
        } else {
            first
        };
        both + offsuit_row(v1, v2, i, j + 1)
    }
}

/// The offsuit hands for first suit indexes from `i` up to 3, each paired
/// with the later suits.
pub open spec fn offsuit_from(v1: Value, v2: Value, i: int) -> Seq<Set<Card>>
    decreases 4 - i,
{
    if i >= 4 {
        Seq::empty()
    } else {
        offsuit_row(v1, v2, i, i + 1) + offsuit_from(v1, v2, i + 1)
    }
}

/// All offsuit hands of two values: 6 for a pair, 12 otherwise.
pub open spec fn offsuit_hands(v1: Value, v2: Value) -> Seq<Set<Card>> {
    offsuit_from(v1, v2, 0)
}

/// The suit indexes (first card, second card) of the offsuit hands in
/// the order they are made: for two values each pair of different suits
/// both ways round, for a pair each pair of different suits once.
pub open spec fn offsuit_suit_pairs(v1: Value, v2: Value) -> Seq<(int, int)> {
    if v1 != v2 {
        seq![(0int, 1int), (1, 0), (0, 2), (2, 0), (0, 3), (3, 0), (1, 2), (2, 1), (1, 3), (3, 1), (2, 3), (3, 2)]
    } else {
        seq![(0int, 1int), (0, 2), (0, 3), (1, 2), (1, 3), (2, 3)]
    }
}

/// The hand of the first value in the suit of index `p.0` and the second
/// value in the suit of index `p.1`.
pub open spec fn hand_of_suits(v1: Value, v2: Value, p: (int, int)) -> Set<Card> {
    two_cards(Card { value: v1, suit: suit_of_index(p.0) }, Card { value: v2, suit: suit_of_index(p.1) })
}

/// Two different suit indexes below 4, the lower first for a pair.
pub open spec fn valid_suit_pair(pair: bool, x: (int, int)) -> bool {
    0 <= x.0 < 4 && 0 <= x.1 < 4 && (if pair {
        x.0 < x.1
    } else {
        x.0 != x.1
    })
}

/// The suit indexes `p` and `q` as they are listed: for a pair the lower
/// first.
pub open spec fn slot_key(pair: bool, p: int, q: int) -> (int, int) {
    if pair && p > q {
        (q, p)
    } else {
        (p, q)
    }
}

/// Where the suit indexes `p` (different, both below 4) stand in
/// `offsuit_suit_pairs`: pairs of suits by their lower index, then the
/// higher one, and for two values the swapped order just after.
pub open spec fn suit_pair_slot(pair: bool, p: (int, int)) -> int {
    let lo = if p.0 < p.1 { p.0 } else { p.1 };
    let hi = if p.0 < p.1 { p.1 } else { p.0 };
    if pair {
        (if lo == 0 { 0int } else if lo == 1 { 3int } else { 5int }) + (hi - lo - 1)
    } else {
        (if lo == 0 { 0int } else if lo == 1 { 6int } else { 10int }) + 2 * (hi - lo - 1) + (if p.0
            > p.1 {
            1int
        } else {
            0int
        })
    }
}

/// The offsuit hands, made from their suit indexes.
proof fn lemma_offsuit_table(v1: Value, v2: Value)
    ensures
        offsuit_hands(v1, v2) == offsuit_suit_pairs(v1, v2).map_values(
            |p: (int, int)| hand_of_suits(v1, v2, p),
        ),
{
    reveal_with_fuel(offsuit_row, 5);
    reveal_with_fuel(offsuit_from, 5);
    let t = offsuit_suit_pairs(v1, v2);
    let h = |p: (int, int)| hand_of_suits(v1, v2, p);
    assert(offsuit_from(v1, v2, 4) == Seq::<Set<Card>>::empty());
    assert(offsuit_row(v1, v2, 3, 4) == Seq::<Set<Card>>::empty());
    if v1 != v2 {
        assert(offsuit_row(v1, v2, 2, 3) =~= seq![h(t[10]), h(t[11])]);
        assert(offsuit_row(v1, v2, 1, 2) =~= seq![h(t[6]), h(t[7]), h(t[8]), h(t[9])]);
        assert(offsuit_row(v1, v2, 0, 1) =~= seq![h(t[0]), h(t[1]), h(t[2]), h(t[3]), h(t[4]), h(t[5])]);
    } else {
        assert(offsuit_row(v1, v2, 2, 3) =~= seq![h(t[5])]);
        assert(offsuit_row(v1, v2, 1, 2) =~= seq![h(t[3]), h(t[4])]);
        assert(offsuit_row(v1, v2, 0, 1) =~= seq![h(t[0]), h(t[1]), h(t[2])]);
    }
    assert(offsuit_hands(v1, v2) =~= t.map_values(h));
}

/// Two offsuit hands of the same values made from suit indexes are the
/// same only for the same indexes (or, for a pair, the indexes swapped).
proof fn lemma_hand_of_suits_injective(v1: Value, v2: Value, p: (int, int), q: (int, int))
    requires
        0 <= p.0 < 4 && 0 <= p.1 < 4 && p.0 != p.1,
        0 <= q.0 < 4 && 0 <= q.1 < 4 && q.0 != q.1,
        hand_of_suits(v1, v2, p) == hand_of_suits(v1, v2, q),
    ensures
        v1 != v2 ==> p == q,
        v1 == v2 ==> p == q || (p.0 == q.1 && p.1 == q.0),
{
    let hp = hand_of_suits(v1, v2, p);
    let a = Card { value: v1, suit: suit_of_index(p.0) };
    let b = Card { value: v2, suit: suit_of_index(p.1) };
    let c = Card { value: v1, suit: suit_of_index(q.0) };
    let d = Card { value: v2, suit: suit_of_index(q.1) };
    assert(hp.contains(a) && hp.contains(b));
    assert(hand_of_suits(v1, v2, q).contains(a) && hand_of_suits(v1, v2, q).contains(b));
    assert(hp.contains(c) && hp.contains(d));
    assert(suit_index(suit_of_index(p.0)) == p.0 && suit_index(suit_of_index(p.1)) == p.1);
    assert(suit_index(suit_of_index(q.0)) == q.0 && suit_index(suit_of_index(q.1)) == q.1);
}

/// The offsuit hands of two values: each holds a card of the first value
/// and a card of the second in different suits; no hand comes twice;
/// every such hand is there; and there are 12 of them for two values and
/// 6 for a pair.
pub proof fn lemma_offsuit_hands(v1: Value, v2: Value)
    ensures
        offsuit_hands(v1, v2).len() == (if v1 == v2 {
            6int
        } else {
            12int
        }),
        forall|k: int|
            0 <= k < offsuit_hands(v1, v2).len() ==> exists|a: Card, b: Card|
                a.value == v1 && b.value == v2 && a.suit != b.suit && #[trigger] offsuit_hands(
                    v1,
                    v2,
                )[k] == two_cards(a, b),
        offsuit_hands(v1, v2).no_duplicates(),
        forall|a: Card, b: Card|
            a.value == v1 && b.value == v2 && a.suit != b.suit ==> offsuit_hands(v1, v2).contains(
                #[trigger] two_cards(a, b),
            ),
{
    lemma_offsuit_table(v1, v2);
    let t = offsuit_suit_pairs(v1, v2);
    let hs = offsuit_hands(v1, v2);
    let n = t.len() as int;
    let pair = v1 == v2;
    assert forall|k: int| 0 <= k < n implies #[trigger] valid_suit_pair(pair, t[k]) && suit_pair_slot(pair, t[k]) == k by {
        if k == 0 {
        } else if k == 1 {
        } else if k == 2 {
        } else if k == 3 {
        } else if k == 4 {
        } else if k == 5 {
        } else if k == 6 {
        } else if k == 7 {
        } else if k == 8 {
        } else if k == 9 {
        } else if k == 10 {
        } else {
        }
    }
    assert forall|p: int, q: int| 0 <= p < 4 && 0 <= q < 4 && p != q implies 0 <= #[trigger] suit_pair_slot(
        pair,
        slot_key(pair, p, q),
    ) < n && t[suit_pair_slot(pair, slot_key(pair, p, q))] == slot_key(pair, p, q) by {
        if p == 0 && q == 1 {
        } else if p == 0 && q == 2 {
        } else if p == 0 && q == 3 {
        } else if p == 1 && q == 0 {
        } else if p == 1 && q == 2 {
        } else if p == 1 && q == 3 {
        } else if p == 2 && q == 0 {
        } else if p == 2 && q == 1 {
        } else if p == 2 && q == 3 {
        } else if p == 3 && q == 0 {
        } else if p == 3 && q == 1 {
        } else if p == 3 && q == 2 {
        }
    }
    assert forall|k: int| 0 <= k < hs.len() implies exists|a: Card, b: Card|
        a.value == v1 && b.value == v2 && a.suit != b.suit && #[trigger] hs[k] == two_cards(a, b) by {
        let a = Card { value: v1, suit: suit_of_index(t[k].0) };
        let b = Card { value: v2, suit: suit_of_index(t[k].1) };
        assert(valid_suit_pair(pair, t[k]));
        assert(suit_index(suit_of_index(t[k].0)) == t[k].0);
        assert(suit_index(suit_of_index(t[k].1)) == t[k].1);
        assert(hs[k] == two_cards(a, b));
    }
    assert forall|k: int, l: int| 0 <= k < hs.len() && 0 <= l < hs.len() && k != l implies hs[k]
        != hs[l] by {
        assert(valid_suit_pair(pair, t[k]) && valid_suit_pair(pair, t[l]));
        if hs[k] == hs[l] {
            lemma_hand_of_suits_injective(v1, v2, t[k], t[l]);
            assert(suit_pair_slot(pair, t[k]) == suit_pair_slot(pair, t[l]));
        }
    }
    assert forall|a: Card, b: Card| a.value == v1 && b.value == v2 && a.suit != b.suit implies hs.contains(
        #[trigger] two_cards(a, b),
    ) by {
        let p = suit_index(a.suit) as int;
        let q = suit_index(b.suit) as int;
        let key = slot_key(pair, p, q);
        assert(p != q);
        let k = suit_pair_slot(pair, key);
        assert(0 <= k < n && t[k] == key);
        assert(suit_of_index(p) == a.suit && suit_of_index(q) == b.suit);
        if pair && p > q {
            assert(hs[k] =~= two_cards(a, b));
        } else {
            assert(hs[k] =~= two_cards(a, b));
        }
    }
}

/// The hands a starting hand stands for, in the order they are produced.
pub open spec fn possible_hands_spec(sh: StartingHand) -> Seq<Set<Card>> {
    match sh.suited {
        Suitedness::Suited => suited_hands(sh.value_one, sh.value_two),
        Suitedness::OffSuit => offsuit_hands(sh.value_one, sh.value_two),
        Suitedness::Any => suited_hands(sh.value_one, sh.value_two) + offsuit_hands(sh.value_one, sh.value_two),
    }
}

/// The starting hands with first value index `i` and second value
/// indexes from `j` up to 12, any suits.
pub open spec fn all_from_row(i: int, j: int) -> Seq<StartingHand>
    decreases 13 - j,
{
    if j >= 13 {
        Seq::empty()
    } else {
        seq![StartingHand { value_one: value_of_index(i), value_two: value_of_index(j), suited: Suitedness::Any }]
            + all_from_row(i, j + 1)
    }
}

/// Every unique starting hand with first value index from `i` up: each
/// value with itself and every higher value.
pub open spec fn all_from(i: int) -> Seq<StartingHand>
    decreases 13 - i,
{
    if i >= 13 {
        Seq::empty()
    } else {
        all_from_row(i, i) + all_from(i + 1)
    }
}

/// The views of a sequence of hands.
pub open spec fn hand_views(hs: Seq<Hand>) -> Seq<Set<Card>> {
    hs.map_values(|h: Hand| h@)
}

/// The hand holding two cards.
pub(crate) fn pair_hand(a: Card, b: Card) -> (r: Hand)
    ensures
        r@ == two_cards(a, b),
{
    let mut h = Hand::new();
    h.insert(a);
    h.insert(b);
    h
}

impl StartingHand {
    fn create_suited(&self) -> (r: Vec<Hand>)
        ensures
            hand_views(r@) == suited_hands(self.value_one, self.value_two),
    {
        if self.value_one == self.value_two {
            let r: Vec<Hand> = Vec::new();
            proof {
                assert(hand_views(r@) =~= suited_hands(self.value_one, self.value_two));
            }
            return r;
        }
        let suits = Suit::suits();
        let mut out: Vec<Hand> = Vec::new();
        let mut k: usize = 0;
        while k < 4
            invariant
                k <= 4,
                suits@ == crate::cards::card::all_suits(),
                self.value_one != self.value_two,
                hand_views(out@) == suited_hands(self.value_one, self.value_two).take(k as int),
            decreases 4 - k,
        {
            let s = suits[k];
            proof {
                assert(s == suit_of_index(k as int));
            }
            let h = pair_hand(Card { value: self.value_one, suit: s }, Card { value: self.value_two, suit: s });
            let ghost prev = hand_views(out@);
            out.push(h);
            proof {
                let sh = suited_hands(self.value_one, self.value_two);
                assert(hand_views(out@) =~= prev.push(h@));
                assert(sh[k as int] == h@);
                assert(sh.take(k + 1) =~= sh.take(k as int).push(sh[k as int]));
            }
            k = k + 1;
        }
        proof {
            assert(suited_hands(self.value_one, self.value_two).take(4) =~= suited_hands(self.value_one, self.value_two));
        }
        out
    }

    fn create_offsuit(&self) -> (r: Vec<Hand>)
        ensures
            hand_views(r@) == offsuit_hands(self.value_one, self.value_two),
    {
        let hands: Vec<Hand> = Vec::new();
        let r = self.append_offsuit(hands);
        proof {
            assert(Seq::<Set<Card>>::empty() + offsuit_hands(self.value_one, self.value_two) =~= offsuit_hands(self.value_one, self.value_two));
        }
        r
    }

    fn append_offsuit(&self, hands: Vec<Hand>) -> (r: Vec<Hand>)
        ensures
            hand_views(r@) == hand_views(hands@) + offsuit_hands(self.value_one, self.value_two),
    {
        let mut hands = hands;
        let ghost start = hand_views(hands@);
        let suits = Suit::suits();
        let v1 = self.value_one;
        let v2 = self.value_two;
        let mut i: usize = 0;
        while i < 4
            invariant
                i <= 4,
                suits@ == crate::cards::card::all_suits(),
                v1 == self.value_one,
                v2 == self.value_two,
                start + offsuit_hands(v1, v2) == hand_views(hands@) + offsuit_from(v1, v2, i as int),
            decreases 4 - i,
        {
            let mut j: usize = i + 1;
            proof {
                assert(offsuit_from(v1, v2, i as int) == offsuit_row(v1, v2, i as int, (i + 1) as int) + offsuit_from(v1, v2, (i + 1) as int));
                assert(hand_views(hands@) + offsuit_from(v1, v2, i as int) =~= hand_views(hands@) + offsuit_row(v1, v2, i as int, j as int) + offsuit_from(v1, v2, (i + 1) as int));
            }
            while j < 4
                invariant
                    i < 4,
                    i + 1 <= j <= 4,
                    suits@ == crate::cards::card::all_suits(),
                    v1 == self.value_one,
                    v2 == self.value_two,
                    start + offsuit_hands(v1, v2) == hand_views(hands@) + offsuit_row(v1, v2, i as int, j as int) + offsuit_from(v1, v2, (i + 1) as int),
                decreases 4 - j,
            {
                let ghost before = hand_views(hands@);
                proof {
                    assert(suits@[i as int] == suit_of_index(i as int));
                    assert(suits@[j as int] == suit_of_index(j as int));
                }
                let h1 = pair_hand(Card { value: v1, suit: suits[i] }, Card { value: v2, suit: suits[j] });
                hands.push(h1);
                if v1 != v2 {
                    let h2 = pair_hand(Card { value: v1, suit: suits[j] }, Card { value: v2, suit: suits[i] });
                    hands.push(h2);
                }
                proof {
                    let row = offsuit_row(v1, v2, i as int, j as int);
                    let rest = offsuit_row(v1, v2, i as int, (j + 1) as int);
                    if v1 != v2 {
                        assert(hand_views(hands@) =~= before.push(two_cards(
                            Card { value: v1, suit: suit_of_index(i as int) },
                            Card { value: v2, suit: suit_of_index(j as int) },
                        )).push(two_cards(
                            Card { value: v1, suit: suit_of_index(j as int) },
                            Card { value: v2, suit: suit_of_index(i as int) },
                        )));
                    } else {
                        assert(hand_views(hands@) =~= before.push(two_cards(
                            Card { value: v1, suit: suit_of_index(i as int) },
                            Card { value: v2, suit: suit_of_index(j as int) },
                        )));
                    }
                    assert(before + row + offsuit_from(v1, v2, (i + 1) as int) =~= hand_views(hands@) + rest + offsuit_from(v1, v2, (i + 1) as int));
                }
                j = j + 1;
            }
            proof {
                assert(hand_views(hands@) + offsuit_row(v1, v2, i as int, 4) =~= hand_views(hands@));
            }
            i = i + 1;
        }
        proof {
            assert(hand_views(hands@) + offsuit_from(v1, v2, 4) =~= hand_views(hands@));
        }
        hands
    }

    /// All the actual hands this starting hand stands for: for suited,
    /// one per suit (none for a pair); for offsuit, every pair of
    /// different suits (both ways round unless the values are equal);
    /// for any, the suited hands followed by the offsuit ones.
    pub fn possible_hands(&self) -> (r: Vec<Hand>)
        ensures
            hand_views(r@) == possible_hands_spec(*self),
    {
        match self.suited {
            Suitedness::Suited => self.create_suited(),
            Suitedness::OffSuit => self.create_offsuit(),
            Suitedness::Any => {
                let s = self.create_suited();
                self.append_offsuit(s)
            },
        }
    }

    /// Every unique starting hand: each value with itself and with every
    /// higher value, with any suits.
    pub fn all() -> (r: Vec<StartingHand>)
        ensures
            r@ == all_from(0),
    {
        let mut hands: Vec<StartingHand> = Vec::new();
        let values = Value::values();
        let mut i: usize = 0;
        while i < 13
            invariant
                i <= 13,
                values@ == all_values(),
                all_from(0) == hands@ + all_from(i as int),
            decreases 13 - i,
        {
            let mut j: usize = i;
            proof {
                assert(hands@ + all_from(i as int) =~= hands@ + all_from_row(i as int, i as int) + all_from((i + 1) as int));
            }
            while j < 13
                invariant
                    i < 13,
                    i <= j <= 13,
                    values@ == all_values(),
                    all_from(0) == hands@ + all_from_row(i as int, j as int) + all_from((i + 1) as int),
                decreases 13 - j,
            {
                let ghost before = hands@;
                proof {
                    assert(values@[i as int] == value_of_index(i as int));
                    assert(values@[j as int] == value_of_index(j as int));
                }
                hands.push(StartingHand { value_one: values[i], value_two: values[j], suited: Suitedness::Any });
                proof {
                    assert(before + all_from_row(i as int, j as int) + all_from((i + 1) as int) =~= hands@ + all_from_row(i as int, (j + 1) as int) + all_from((i + 1) as int));
                }
                j = j + 1;
            }
            proof {
                assert(hands@ + all_from_row(i as int, 13) =~= hands@);
            }
            i = i + 1;
        }
        proof {
            assert(hands@ + all_from(13) =~= hands@);
        }
        hands
    }
}

} // verus!
