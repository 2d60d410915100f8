use vstd::prelude::*;
use crate::cards::card::{
    suit_from_char_spec, suit_index, suit_of_index, value_from_char_spec, value_index,
    value_of_index, Card, Suit, Value,
};
use crate::cards::error::RSPokerError;
use crate::cards::hand::Hand;
use crate::holdem::starting_hand::{hand_views, pair_hand, two_cards, Suitedness};
use crate::strings::chars_of;

verus! {

/// An inclusive range of card values.
#[derive(Debug, Clone, Copy, PartialEq, Eq, Structural)]
pub struct InclusiveValueRange {
    /// The lowest value of the range.
    pub start: Value,
    /// The highest value of the range.
    pub end: Value,
}

/// The range of the one value `v`.
pub open spec fn single_range(v: Value) -> InclusiveValueRange {
    InclusiveValueRange { start: v, end: v }
}

/// The range with its ends put in order.
pub open spec fn sorted_range(r: InclusiveValueRange) -> InclusiveValueRange {
    if value_index(r.start) > value_index(r.end) {
        InclusiveValueRange { start: r.end, end: r.start }
    } else {
        r
    }
}

/// Whether `v` lies in the range.
pub open spec fn range_includes(r: InclusiveValueRange, v: Value) -> bool {
    value_index(r.start) <= value_index(v) <= value_index(r.end)
}

/// Ranges are ordered by their start values, then by their end values.
pub open spec fn range_less(a: InclusiveValueRange, b: InclusiveValueRange) -> bool {
    value_index(a.start) < value_index(b.start) || (a.start == b.start && value_index(a.end)
        < value_index(b.end))
}

/// How far apart two values are.
pub open spec fn value_gap(a: Value, b: Value) -> int {
    if value_index(a) >= value_index(b) {
        value_index(a) - value_index(b)
    } else {
        value_index(b) - value_index(a)
    }
}

impl InclusiveValueRange {
    /// Put the ends in order, in case they were given the wrong way round.
    pub fn sort(&mut self)
        ensures
            *final(self) == sorted_range(*old(self)),
    {
        if self.start.to_u8() > self.end.to_u8() {
            let t = self.start;
            self.start = self.end;
            self.end = t;
        }
    }

    /// Whether the value is in the range.
    pub fn contains(&self, v: Value) -> (r: bool)
        ensures
            r == range_includes(*self, v),
    {
        self.start.to_u8() <= v.to_u8() && v.to_u8() <= self.end.to_u8()
    }

    /// Whether the range holds a single value.
    pub fn is_single(&self) -> (r: bool)
        ensures
            r == (self.start == self.end),
    {
        self.start == self.end
    }

    /// Whether this range comes before `other`: by start, then by end.
    fn less_than(&self, other: &InclusiveValueRange) -> (r: bool)
        ensures
            r == range_less(*self, *other),
    {
        let a = self.start.to_u8();
        let b = other.start.to_u8();
        if a < b {
            true
        } else if a == b {
            proof {
                crate::cards::card::lemma_u8_roundtrip(self.start, Suit::Spade);
                crate::cards::card::lemma_u8_roundtrip(other.start, Suit::Spade);
            }
            self.end.to_u8() < other.end.to_u8()
        } else {
            false
        }
    }
}

/// A modifier after the cards of a range.
#[derive(Debug, Clone, Copy, PartialEq, Eq, Structural)]
pub enum Modifier {
    /// `+`: pairs and connectors upwards to aces, or the second card up
    /// to just below the first.
    Plus,
    /// `-`: the two characters after it end the range.
    Range,
    /// `s`: only cards of one suit.
    Suited,
    /// `o`: only cards of different suits.
    Offsuit,
}

/// The modifier a character names, if any.
pub open spec fn modifier_from_char_spec(c: char) -> Option<Modifier> {
    if c == '+' {
        Some(Modifier::Plus)
    } else if c == 's' {
        Some(Modifier::Suited)
    } else if c == 'o' {
        Some(Modifier::Offsuit)
    } else if c == '-' {
        Some(Modifier::Range)
    } else {
        None
    }
}

impl Modifier {
    /// The modifier a character names, or `None`.
    pub fn from_char(c: char) -> (r: Option<Modifier>)
        ensures
            r == modifier_from_char_spec(c),
    {
        match c {
            '+' => Some(Modifier::Plus),
            's' => Some(Modifier::Suited),
            'o' => Some(Modifier::Offsuit),
            '-' => Some(Modifier::Range),
            _ => None,
        }
    }
}

/// What the characters of a range say, before any hand is made.
#[derive(Debug, Clone, Copy)]
pub struct RangeState {
    /// The values the first card may take.
    pub first_range: InclusiveValueRange,
    /// The values the second card may take.
    pub second_range: InclusiveValueRange,
    /// The suit given for the first card.
    pub first_suit: Option<Suit>,
    /// The suit given for the second card.
    pub second_suit: Option<Suit>,
    /// Whether the cards must share a suit, must not, or either.
    pub suited: Suitedness,
    /// The fixed distance between the two values, if there is one.
    pub gap: Option<u8>,
    /// Whether the first value stays fixed while the second ranges.
    pub is_static: bool,
}

/// The value named by the character at `i`, if there is one.
pub open spec fn value_at(s: Seq<char>, i: int) -> Option<Value> {
    if 0 <= i < s.len() {
        value_from_char_spec(s[i])
    } else {
        None
    }
}

/// The suit named by the character at `i`, if there is one.
pub open spec fn suit_at(s: Seq<char>, i: int) -> Option<Suit> {
    if 0 <= i < s.len() {
        suit_from_char_spec(s[i])
    } else {
        None
    }
}

/// The opening of a range: a value, an optional suit, a second value, and
/// a suit for it only if the first card had one. Gives the state and the
/// position after the opening.
pub open spec fn header_spec(s: Seq<char>) -> Result<(RangeState, int), RSPokerError> {
    match value_at(s, 0) {
        None => Err(RSPokerError::TooFewChars),
        Some(v1) => {
            let fs = suit_at(s, 1);
            let p: int = if fs is Some { 2 } else { 1 };
            match value_at(s, p) {
                None => Err(RSPokerError::TooFewChars),
                Some(v2) => {
                    let ss = if fs is Some { suit_at(s, p + 1) } else { None };
                    let q: int = if ss is Some { p + 2 } else { p + 1 };
                    Ok((RangeState {
                        first_range: single_range(v1),
                        second_range: single_range(v2),
                        first_suit: fs,
                        second_suit: ss,
                        suited: Suitedness::Any,
                        gap: None,
                        is_static: false,
                    }, q))
                },
            }
        },
    }
}

/// The state after a `+`.
pub open spec fn plus_spec(st: RangeState) -> Result<RangeState, RSPokerError> {
    if st.gap is Some {
        Err(RSPokerError::InvalidPlusModifier)
    } else {
        let fe = value_index(st.first_range.end) as int;
        let se = value_index(st.second_range.end) as int;
        let ex = value_gap(st.first_range.end, st.second_range.end);
        if ex <= 1 {
            Ok(RangeState {
                first_range: InclusiveValueRange { start: st.first_range.start, end: Value::Ace },
                second_range: InclusiveValueRange {
                    start: st.second_range.start,
                    end: value_of_index(12 - ex),
                },
                gap: Some(ex as u8),
                ..st
            })
        } else if fe < se {
            Err(RSPokerError::InvalidPlusModifier)
        } else {
            Ok(RangeState {
                second_range: InclusiveValueRange {
                    start: st.second_range.start,
                    end: value_of_index(fe - 1),
                },
                ..st
            })
        }
    }
}

/// The state after a `-` followed by the values `fe` and `se`.
pub open spec fn dash_spec(st: RangeState, fe: Value, se: Value) -> Result<RangeState, RSPokerError> {
    let first_gap = value_gap(st.first_range.start, st.second_range.start);
    let second_gap = value_gap(fe, se);
    let is_static = st.first_range.start == fe && st.second_range.start != se;
    if first_gap != second_gap && !is_static {
        Err(RSPokerError::InvalidGap)
    } else {
        Ok(RangeState {
            first_range: InclusiveValueRange { start: st.first_range.start, end: fe },
            second_range: InclusiveValueRange { start: st.second_range.start, end: se },
            gap: Some(
                (if is_static {
                    first_gap
                } else {
                    second_gap
                }) as u8,
            ),
            is_static,
            ..st
        })
    }
}

/// The state once the modifiers from position `p` on are read. Reading
/// stops at the first character that is no modifier; a pair of equal
/// starting values then always counts as pairs.
pub open spec fn modifiers_spec(s: Seq<char>, p: int, st: RangeState) -> Result<
    RangeState,
    RSPokerError,
>
    decreases s.len() - p,
{
    if 0 <= p < s.len() && modifier_from_char_spec(s[p]) is Some {
        match modifier_from_char_spec(s[p])->Some_0 {
            Modifier::Offsuit => {
                if st.first_suit is Some && st.first_suit == st.second_suit {
                    Err(RSPokerError::OffSuitWithMatchingSuit)
                } else {
                    modifiers_spec(s, p + 1, RangeState { suited: Suitedness::OffSuit, ..st })
                }
            },
            Modifier::Suited => {
                if st.first_suit is Some && st.second_suit is Some && st.first_suit
                    != st.second_suit {
                    Err(RSPokerError::SuitedWithNoMatchingSuit)
                } else {
                    modifiers_spec(s, p + 1, RangeState { suited: Suitedness::Suited, ..st })
                }
            },
            Modifier::Plus => match plus_spec(st) {
                Err(e) => Err(e),
                Ok(st2) => modifiers_spec(s, p + 1, st2),
            },
            Modifier::Range => {
                if p + 2 >= s.len() {
                    Err(RSPokerError::TooFewChars)
                } else if value_at(s, p + 1) is None || value_at(s, p + 2) is None {
                    Err(RSPokerError::UnexpectedValueChar)
                } else {
                    match dash_spec(st, value_at(s, p + 1)->Some_0, value_at(s, p + 2)->Some_0) {
                        Err(e) => Err(e),
                        Ok(st2) => modifiers_spec(s, p + 3, st2),
                    }
                }
            },
        }
    } else if value_gap(st.first_range.start, st.second_range.start) == 0 {
        Ok(RangeState { gap: Some(0), ..st })
    } else {
        Ok(st)
    }
}

/// A gap, when there is one, is at most the distance from two to ace.
pub open spec fn gap_bounded(st: RangeState) -> bool {
    st.gap matches Some(g) ==> g <= 12
}

/// Whether the two optional suits are equal.
fn same_suit(a: Option<Suit>, b: Option<Suit>) -> (r: bool)
    ensures
        r == (a == b),
{
    match (a, b) {
        (Some(x), Some(y)) => x == y,
        (None, None) => true,
        _ => false,
    }
}

/// Read the opening of a range.
fn parse_header(s: &Vec<char>) -> (r: Result<(RangeState, usize), RSPokerError>)
    ensures
        match header_spec(s@) {
            Ok((st, q)) => r matches Ok((st2, q2)) && st2 == st && q2 == q && q <= s.len(),
            Err(e) => r == Err::<(RangeState, usize), RSPokerError>(e),
        },
{
    if s.len() == 0 {
        return Err(RSPokerError::TooFewChars);
    }
    let v1 = match Value::from_char(s[0]) {
        Some(v) => v,
        None => {
            return Err(RSPokerError::TooFewChars);
        },
    };
    let mut p: usize = 1;
    let mut first_suit: Option<Suit> = None;
    if 1 < s.len() {
        first_suit = Suit::from_char(s[1]);
        if first_suit.is_some() {
            p = 2;
        }
    }
    if p >= s.len() {
        return Err(RSPokerError::TooFewChars);
    }
    let v2 = match Value::from_char(s[p]) {
        Some(v) => v,
        None => {
            return Err(RSPokerError::TooFewChars);
        },
    };
    p = p + 1;
    let mut second_suit: Option<Suit> = None;
    if first_suit.is_some() && p < s.len() {
        second_suit = Suit::from_char(s[p]);
        if second_suit.is_some() {
            p = p + 1;
        }
    }
    let st = RangeState {
        first_range: InclusiveValueRange { start: v1, end: v1 },
        second_range: InclusiveValueRange { start: v2, end: v2 },
        first_suit,
        second_suit,
        suited: Suitedness::Any,
        gap: None,
        is_static: false,
    };
    Ok((st, p))
}

/// Apply a `+` to the state.
fn apply_plus(st: RangeState) -> (r: Result<RangeState, RSPokerError>)
    requires
        gap_bounded(st),
    ensures
        r == plus_spec(st),
        r matches Ok(st2) ==> gap_bounded(st2),
{
    if st.gap.is_some() {
        return Err(RSPokerError::InvalidPlusModifier);
    }
    let ex = st.first_range.end.gap(&st.second_range.end);
    let fe = st.first_range.end.to_u8();
    let se = st.second_range.end.to_u8();
    if ex <= 1 {
        Ok(RangeState {
            first_range: InclusiveValueRange { start: st.first_range.start, end: Value::Ace },
            second_range: InclusiveValueRange {
                start: st.second_range.start,
                end: Value::from_u8(12 - ex),
            },
            gap: Some(ex),
            ..st
        })
    } else if fe < se {
        Err(RSPokerError::InvalidPlusModifier)
    } else {
        Ok(RangeState {
            second_range: InclusiveValueRange {
                start: st.second_range.start,
                end: Value::from_u8(fe - 1),
            },
            ..st
        })
    }
}

/// Apply a `-` followed by the values `fe` and `se` to the state.
fn apply_dash(st: RangeState, fe: Value, se: Value) -> (r: Result<RangeState, RSPokerError>)
    ensures
        r == dash_spec(st, fe, se),
        r matches Ok(st2) ==> gap_bounded(st2),
{
    let first_gap = st.first_range.start.gap(&st.second_range.start);
    let second_gap = fe.gap(&se);
    let is_static = st.first_range.start == fe && st.second_range.start != se;
    if first_gap != second_gap && !is_static {
        return Err(RSPokerError::InvalidGap);
    }
    Ok(RangeState {
        first_range: InclusiveValueRange { start: st.first_range.start, end: fe },
        second_range: InclusiveValueRange { start: st.second_range.start, end: se },
        gap: Some(
            if is_static {
                first_gap
            } else {
                second_gap
            },
        ),
        is_static,
        ..st
    })
}

/// Read the modifiers from position `p` on.
fn parse_modifiers(s: &Vec<char>, p0: usize, st0: RangeState) -> (r: Result<RangeState, RSPokerError>)
    requires
        p0 <= s.len(),
        gap_bounded(st0),
    ensures
        r == modifiers_spec(s@, p0 as int, st0),
        r matches Ok(st2) ==> gap_bounded(st2),
{
    let mut p = p0;
    let mut st = st0;
    loop
        invariant
            p <= s.len(),
            gap_bounded(st),
            modifiers_spec(s@, p as int, st) == modifiers_spec(s@, p0 as int, st0),
        decreases s.len() - p,
    {
        let m = if p < s.len() {
            Modifier::from_char(s[p])
        } else {
            None
        };
        match m {
            None => {
                if st.first_range.start.gap(&st.second_range.start) == 0 {
                    st.gap = Some(0);
                }
                return Ok(st);
            },
            Some(Modifier::Offsuit) => {
                if st.first_suit.is_some() && same_suit(st.first_suit, st.second_suit) {
                    return Err(RSPokerError::OffSuitWithMatchingSuit);
                }
                st.suited = Suitedness::OffSuit;
                p = p + 1;
            },
            Some(Modifier::Suited) => {
                if st.first_suit.is_some() && st.second_suit.is_some() && !same_suit(
                    st.first_suit,
                    st.second_suit,
                ) {
                    return Err(RSPokerError::SuitedWithNoMatchingSuit);
                }
                st.suited = Suitedness::Suited;
                p = p + 1;
            },
            Some(Modifier::Plus) => {
                match apply_plus(st) {
                    Err(e) => {
                        return Err(e);
                    },
                    Ok(st2) => {
                        st = st2;
                    },
                }
                p = p + 1;
            },
            Some(Modifier::Range) => {
                if s.len() - p <= 2 {
                    return Err(RSPokerError::TooFewChars);
                }
                let fe = Value::from_char(s[p + 1]);
                let se = Value::from_char(s[p + 2]);
                match (fe, se) {
                    (Some(a), Some(b)) => {
                        match apply_dash(st, a, b) {
                            Err(e) => {
                                return Err(e);
                            },
                            Ok(st2) => {
                                st = st2;
                            },
                        }
                    },
                    _ => {
                        return Err(RSPokerError::UnexpectedValueChar);
                    },
                }
                p = p + 3;
            },
        }
    }
}


/// How the value of an iterator's first card is chosen.
#[derive(Debug, Clone, Copy, PartialEq, Eq, Structural)]
pub enum RangeIterValueSpecifier {
    /// A fixed gap above the second card.
    Gap(u8),
    /// Always this value.
    Static(Value),
    /// The value of the second card.
    Pair,
    /// The given value, plus the gap, plus how far the iterator has gone.
    StaticRange(Value, u8),
}

/// A gap in a specifier is at most the distance from two to ace.
pub open spec fn specifier_bounded(v: RangeIterValueSpecifier) -> bool {
    match v {
        RangeIterValueSpecifier::Gap(g) => g <= 12,
        RangeIterValueSpecifier::StaticRange(_, g) => g <= 12,
        _ => true,
    }
}

/// Whether an iterator makes pocket pairs.
pub open spec fn iter_is_pair(v: RangeIterValueSpecifier, r: InclusiveValueRange) -> bool {
    v == RangeIterValueSpecifier::Pair || (r.start == r.end && v
        == RangeIterValueSpecifier::Static(r.start))
}

/// Whether an iterator at offset `o` has another hand.
pub open spec fn iter_has_more(r: InclusiveValueRange, o: int) -> bool {
    o + value_index(r.start) < 13 && value_index(r.end) >= o + value_index(r.start)
}

/// The value of the first card at offset `o`.
pub open spec fn first_value(v: RangeIterValueSpecifier, r: InclusiveValueRange, o: int) -> Value {
    match v {
        RangeIterValueSpecifier::Gap(g) => value_of_index(value_index(r.start) + o + g),
        RangeIterValueSpecifier::Static(x) => x,
        RangeIterValueSpecifier::Pair => value_of_index(value_index(r.start) + o),
        RangeIterValueSpecifier::StaticRange(x, g) => value_of_index(value_index(x) + g + o),
    }
}

/// The value of the second card at offset `o`.
pub open spec fn second_value(r: InclusiveValueRange, o: int) -> Value {
    value_of_index(value_index(r.start) + o)
}

/// The two cards an iterator makes at position `pos`: the offset into
/// the range, then the suit indexes of the two cards.
pub open spec fn item_at(v: RangeIterValueSpecifier, r: InclusiveValueRange, pos: (int, int, int)) -> (
    Card,
    Card,
) {
    (
        Card { value: first_value(v, r, pos.0), suit: suit_of_index(pos.1) },
        Card { value: second_value(r, pos.0), suit: suit_of_index(pos.2) },
    )
}

/// The position after one step: the second suit moves first, then the
/// first suit, then the offset. For pairs the second suit always stays
/// above the first.
pub open spec fn incr_spec(pair: bool, pos: (int, int, int)) -> (int, int, int) {
    let s2a = pos.2 + 1;
    let s1b = if s2a == 4 { pos.1 + 1 } else { pos.1 };
    let s2b = if s2a == 4 {
        if pair {
            pos.1 + 2
        } else {
            0
        }
    } else {
        s2a
    };
    if s1b == 4 || s2b == 4 {
        (pos.0 + 1, 0, if pair { 1 } else { s2b })
    } else {
        (pos.0, s1b, s2b)
    }
}

/// A position whose suit indexes name suits.
pub open spec fn valid_pos(pos: (int, int, int)) -> bool {
    0 <= pos.1 < 4 && 0 <= pos.2 < 4
}

/// The two cards of every hand an iterator yields from position `pos`
/// on, in order.
pub open spec fn iter_items(v: RangeIterValueSpecifier, r: InclusiveValueRange, pos: (int, int, int)) -> Seq<
    (Card, Card),
>
    decreases (13 - pos.0) * 25 + (4 - pos.1) * 5 + (4 - pos.2),
    when valid_pos(pos) && pos.0 <= 13
{
    if !iter_has_more(r, pos.0) {
        Seq::empty()
    } else {
        seq![item_at(v, r, pos)] + iter_items(v, r, incr_spec(iter_is_pair(v, r), pos))
    }
}

/// Walks the two-card hands of a range: for each value of the second
/// card, every pair of suits (for pairs, every pair of different suits).
pub struct RangeIter {
    value_one: RangeIterValueSpecifier,
    range: InclusiveValueRange,
    offset: u8,
    suit_one_offset: u8,
    suit_two_offset: u8,
}

impl RangeIter {
    #[verifier::type_invariant]
    closed spec fn inv(self) -> bool {
        &&& self.offset <= 13
        &&& self.suit_one_offset < 4
        &&& self.suit_two_offset < 4
        &&& specifier_bounded(self.value_one)
    }

    /// How the first card's value is chosen.
    pub closed spec fn specifier(self) -> RangeIterValueSpecifier {
        self.value_one
    }

    /// The range the second card's value runs over.
    pub closed spec fn value_range(self) -> InclusiveValueRange {
        self.range
    }

    /// The offset into the range and the suit indexes of the two cards.
    pub closed spec fn position(self) -> (int, int, int) {
        (self.offset as int, self.suit_one_offset as int, self.suit_two_offset as int)
    }

    /// The two cards of every hand still to come.
    pub open spec fn remaining(self) -> Seq<(Card, Card)> {
        iter_items(self.specifier(), self.value_range(), self.position())
    }

    /// An iterator whose first card always has the value `value`.
    pub fn stat(value: Value, range_two: InclusiveValueRange) -> (r: RangeIter)
        ensures
            r.specifier() == RangeIterValueSpecifier::Static(value),
            r.value_range() == range_two,
            r.position() == (0int, 0int, 0int),
    {
        RangeIter {
            value_one: RangeIterValueSpecifier::Static(value),
            range: range_two,
            offset: 0,
            suit_one_offset: 0,
            suit_two_offset: 0,
        }
    }

    /// An iterator whose first card is `gap` above the second, or, given a
    /// static value, that value plus the gap plus the offset.
    fn gap(gap: u8, range_two: InclusiveValueRange, static_value: Option<Value>) -> (r: RangeIter)
        requires
            gap <= 12,
        ensures
            r.specifier() == (match static_value {
                Some(v) => RangeIterValueSpecifier::StaticRange(v, gap),
                None => RangeIterValueSpecifier::Gap(gap),
            }),
            r.value_range() == range_two,
            r.position() == (0int, 0int, 0int),
    {
        RangeIter {
            value_one: match static_value {
                Some(v) => RangeIterValueSpecifier::StaticRange(v, gap),
                None => RangeIterValueSpecifier::Gap(gap),
            },
            range: range_two,
            offset: 0,
            suit_one_offset: 0,
            suit_two_offset: 0,
        }
    }

    /// An iterator over the pocket pairs of a range.
    fn pair(range: InclusiveValueRange) -> (r: RangeIter)
        ensures
            r.specifier() == RangeIterValueSpecifier::Pair,
            r.value_range() == range,
            r.position() == (0int, 0int, 1int),
    {
        RangeIter {
            value_one: RangeIterValueSpecifier::Pair,
            range,
            offset: 0,
            suit_one_offset: 0,
            suit_two_offset: 1,
        }
    }

    /// Whether this iterator makes pocket pairs.
    fn is_pair(&self) -> (r: bool)
        ensures
            r == iter_is_pair(self.specifier(), self.value_range()),
    {
        self.value_one == RangeIterValueSpecifier::Pair || (self.range.is_single()
            && RangeIterValueSpecifier::Static(self.range.start) == self.value_one)
    }

    /// Whether there is another hand.
    fn has_more(&self) -> (r: bool)
        ensures
            r == iter_has_more(self.value_range(), self.position().0),
    {
        proof {
            use_type_invariant(self);
        }
        let v = self.offset + self.range.start.to_u8();
        v < 13 && self.range.end.to_u8() >= v
    }

    /// Move to the next position: the suits first, then the values.
    fn incr(&mut self)
        requires
            iter_has_more(old(self).value_range(), old(self).position().0),
        ensures
            final(self).position() == incr_spec(
                iter_is_pair(old(self).specifier(), old(self).value_range()),
                old(self).position(),
            ),
            final(self).specifier() == old(self).specifier(),
            final(self).value_range() == old(self).value_range(),
    {
        proof {
            use_type_invariant(&*self);
        }
        let pair = self.is_pair();
        let mut s2 = self.suit_two_offset + 1;
        let mut s1 = self.suit_one_offset;
        let mut offset = self.offset;
        if s2 == 4 {
            s1 = s1 + 1;
            s2 = if pair {
                s1 + 1
            } else {
                0
            };
        }
        if s1 == 4 || s2 == 4 {
            s1 = 0;
            if pair {
                s2 = 1;
            }
            offset = offset + 1;
        }
        self.offset = offset;
        self.suit_one_offset = s1;
        self.suit_two_offset = s2;
    }

    /// The first card at the current position.
    fn first_card(&self) -> (r: Card)
        ensures
            r == item_at(self.specifier(), self.value_range(), self.position()).0,
    {
        proof {
            use_type_invariant(self);
        }
        let v = match self.value_one {
            RangeIterValueSpecifier::Gap(gap) => Value::from_u8(
                self.range.start.to_u8() + self.offset + gap,
            ),
            RangeIterValueSpecifier::Static(value) => value,
            RangeIterValueSpecifier::Pair => Value::from_u8(self.range.start.to_u8() + self.offset),
            RangeIterValueSpecifier::StaticRange(value, gap) => Value::from_u8(
                value.to_u8() + gap + self.offset,
            ),
        };
        Card { value: v, suit: Suit::from_u8(self.suit_one_offset) }
    }

    /// The second card at the current position.
    fn second_card(&self) -> (r: Card)
        ensures
            r == item_at(self.specifier(), self.value_range(), self.position()).1,
    {
        proof {
            use_type_invariant(self);
        }
        Card {
            value: Value::from_u8(self.range.start.to_u8() + self.offset),
            suit: Suit::from_u8(self.suit_two_offset),
        }
    }

    /// The two cards of the next hand, first card first.
    fn next_pair(&mut self) -> (r: Option<(Card, Card)>)
        ensures
            final(self).specifier() == old(self).specifier(),
            final(self).value_range() == old(self).value_range(),
            old(self).remaining().len() == 0 ==> r is None && final(self).position() == old(
                self,
            ).position(),
            old(self).remaining().len() > 0 ==> r == Some(old(self).remaining()[0])
                && final(self).remaining() == old(self).remaining().drop_first(),
    {
        proof {
            use_type_invariant(&*self);
        }
        let ghost pos = self.position();
        let ghost pair = iter_is_pair(self.specifier(), self.value_range());
        if self.has_more() {
            let c0 = self.first_card();
            let c1 = self.second_card();
            self.incr();
            proof {
                use_type_invariant(&*self);
                let v = self.specifier();
                let r = self.value_range();
                assert(iter_items(v, r, pos) == seq![item_at(v, r, pos)] + iter_items(
                    v,
                    r,
                    incr_spec(pair, pos),
                ));
                assert(iter_items(v, r, pos).drop_first() =~= iter_items(
                    v,
                    r,
                    incr_spec(pair, pos),
                ));
            }
            Some((c0, c1))
        } else {
            None
        }
    }

    /// The next hand, if there is one.
    pub fn next(&mut self) -> (r: Option<Hand>)
        ensures
            final(self).specifier() == old(self).specifier(),
            final(self).value_range() == old(self).value_range(),
            old(self).remaining().len() == 0 ==> r is None && final(self).position() == old(
                self,
            ).position(),
            old(self).remaining().len() > 0 ==> (r matches Some(h) && h@ == two_cards(
                old(self).remaining()[0].0,
                old(self).remaining()[0].1,
            )) && final(self).remaining() == old(self).remaining().drop_first(),
    {
        match self.next_pair() {
            Some((a, b)) => Some(pair_hand(a, b)),
            None => None,
        }
    }
}

/// The state with both ranges in order and the higher range first; the
/// suits follow their cards.
pub open spec fn normalize_spec(st: RangeState) -> RangeState {
    let fr = sorted_range(st.first_range);
    let sr = sorted_range(st.second_range);
    if range_less(fr, sr) {
        RangeState {
            first_range: sr,
            second_range: fr,
            first_suit: st.second_suit,
            second_suit: st.first_suit,
            ..st
        }
    } else {
        RangeState { first_range: fr, second_range: sr, ..st }
    }
}

/// The specifier and range of the iterator for a normalized state: pairs
/// for a gap of zero, a gap iterator for any other gap, and otherwise the
/// first value held fixed.
pub open spec fn iter_for(n: RangeState) -> (RangeIterValueSpecifier, InclusiveValueRange) {
    match n.gap {
        Some(g) => if g == 0 {
            (RangeIterValueSpecifier::Pair, n.first_range)
        } else if n.is_static {
            (RangeIterValueSpecifier::StaticRange(n.first_range.end, g), n.second_range)
        } else {
            (RangeIterValueSpecifier::Gap(g), n.second_range)
        },
        None => (RangeIterValueSpecifier::Static(n.first_range.start), n.second_range),
    }
}

/// Where a new iterator starts: pairs never give both cards one suit.
pub open spec fn start_pos(v: RangeIterValueSpecifier) -> (int, int, int) {
    if v == RangeIterValueSpecifier::Pair {
        (0, 0, 1)
    } else {
        (0, 0, 0)
    }
}

/// Whether the suit is the given one, if one is given.
pub open spec fn suit_fits(given: Option<Suit>, s: Suit) -> bool {
    given matches Some(x) ==> s == x
}

/// Whether the two cards `c` belong to the range `n` describes: both
/// values in their ranges, suits as the suitedness asks and as given (for
/// a pair, in either order), and the gap between the values kept.
pub open spec fn keeps(n: RangeState, c: (Card, Card)) -> bool {
    let (h0, h1) = c;
    &&& range_includes(n.first_range, h0.value)
    &&& range_includes(n.second_range, h1.value)
    &&& match n.suited {
        Suitedness::Any => true,
        Suitedness::OffSuit => h0.suit != h1.suit,
        Suitedness::Suited => h0.suit == h1.suit,
    }
    &&& if h0.value == h1.value {
        (suit_fits(n.first_suit, h0.suit) || suit_fits(n.first_suit, h1.suit)) && (suit_fits(
            n.second_suit,
            h0.suit,
        ) || suit_fits(n.second_suit, h1.suit))
    } else {
        suit_fits(n.first_suit, h0.suit) && suit_fits(n.second_suit, h1.suit)
    }
    &&& n.gap matches Some(g) ==> (n.is_static || value_gap(h0.value, h1.value) == g)
}

/// `keeps` as a predicate.
pub open spec fn keep_fn(n: RangeState) -> spec_fn((Card, Card)) -> bool {
    |c: (Card, Card)| keeps(n, c)
}

/// The two cards of each hand of a range, from its state after the
/// modifiers: suited pairs are refused; otherwise the iterator's hands
/// that `keeps` accepts, in the iterator's order.
pub open spec fn finish_spec(st: RangeState) -> Result<Seq<(Card, Card)>, RSPokerError> {
    let n = normalize_spec(st);
    let v = iter_for(n).0;
    let r = iter_for(n).1;
    if iter_is_pair(v, r) && (n.suited == Suitedness::Suited || (n.first_suit is Some
        && n.first_suit == n.second_suit)) {
        Err(RSPokerError::InvalidSuitedPairs)
    } else {
        Ok(iter_items(v, r, start_pos(v)).filter(keep_fn(n)))
    }
}

/// What parsing one range such as "AKs", "TT+", "JT-67s" or "AhKh" gives:
/// the two cards of each hand, first card first.
pub open spec fn parse_one_spec(s: Seq<char>) -> Result<Seq<(Card, Card)>, RSPokerError> {
    match header_spec(s) {
        Err(e) => Err(e),
        Ok(hq) => match modifiers_spec(s, hq.1, hq.0) {
            Err(e) => Err(e),
            Ok(st) => finish_spec(st),
        },
    }
}

/// The hands the card pairs make.
pub open spec fn pair_views(ps: Seq<(Card, Card)>) -> Seq<Set<Card>> {
    ps.map_values(|p: (Card, Card)| two_cards(p.0, p.1))
}

/// Filtering a non-empty sequence looks at its first element, then at
/// the rest.
proof fn lemma_filter_first<A>(s: Seq<A>, p: spec_fn(A) -> bool)
    requires
        s.len() > 0,
    ensures
        s.filter(p) == (if p(s[0]) {
            seq![s[0]]
        } else {
            Seq::empty()
        }) + s.drop_first().filter(p),
{
    assert(s =~= seq![s[0]] + s.drop_first());
    Seq::filter_distributes_over_add(seq![s[0]], s.drop_first(), p);
    reveal_with_fuel(Seq::filter, 2);
    assert(seq![s[0]].drop_last() =~= Seq::<A>::empty());
}

/// Whether the two cards belong to the range; see `keeps`.
fn keeps_exec(n: &RangeState, h0: Card, h1: Card) -> (r: bool)
    ensures
        r == keeps(*n, (h0, h1)),
{
    if !n.first_range.contains(h0.value) || !n.second_range.contains(h1.value) {
        return false;
    }
    let suits_ok = match n.suited {
        Suitedness::Any => true,
        Suitedness::OffSuit => h0.suit != h1.suit,
        Suitedness::Suited => h0.suit == h1.suit,
    };
    if !suits_ok {
        return false;
    }
    let fits = |given: Option<Suit>, s: Suit| -> (b: bool)
        ensures
            b == suit_fits(given, s),
        {
            match given {
                Some(x) => s == x,
                None => true,
            }
        };
    let given_ok = if h0.value == h1.value {
        (fits(n.first_suit, h0.suit) || fits(n.first_suit, h1.suit)) && (fits(
            n.second_suit,
            h0.suit,
        ) || fits(n.second_suit, h1.suit))
    } else {
        fits(n.first_suit, h0.suit) && fits(n.second_suit, h1.suit)
    };
    if !given_ok {
        return false;
    }
    match n.gap {
        Some(g) => n.is_static || h0.value.gap(&h1.value) == g,
        None => true,
    }
}

/// The hands of a range, from its state after the modifiers.
fn make_hands(st: RangeState) -> (r: Result<Vec<Hand>, RSPokerError>)
    requires
        gap_bounded(st),
    ensures
        match finish_spec(st) {
            Ok(ps) => r matches Ok(hs) && hand_views(hs@) == pair_views(ps),
            Err(e) => r == Err::<Vec<Hand>, RSPokerError>(e),
        },
{
    let mut first_range = st.first_range;
    let mut second_range = st.second_range;
    first_range.sort();
    second_range.sort();
    let mut first_suit = st.first_suit;
    let mut second_suit = st.second_suit;
    if first_range.less_than(&second_range) {
        let t = first_range;
        first_range = second_range;
        second_range = t;
        let u = first_suit;
        first_suit = second_suit;
        second_suit = u;
    }
    let n = RangeState { first_range, second_range, first_suit, second_suit, ..st };
    assert(n == normalize_spec(st));
    let static_value = if n.is_static {
        Some(n.first_range.end)
    } else {
        None
    };
    let mut citer = match n.gap {
        Some(g) => if g == 0 {
            RangeIter::pair(n.first_range)
        } else {
            RangeIter::gap(g, n.second_range, static_value)
        },
        None => RangeIter::stat(n.first_range.start, n.second_range),
    };
    let ghost v = iter_for(n).0;
    let ghost r = iter_for(n).1;
    assert(citer.specifier() == v && citer.value_range() == r);
    assert(citer.position() == start_pos(v));
    if citer.is_pair() {
        let explicitly_suited = n.first_suit.is_some() && same_suit(n.first_suit, n.second_suit);
        if n.suited == Suitedness::Suited || explicitly_suited {
            return Err(RSPokerError::InvalidSuitedPairs);
        }
    }
    let ghost total = iter_items(v, r, start_pos(v)).filter(keep_fn(n));
    let ghost mut kept: Seq<(Card, Card)> = Seq::empty();
    let mut out: Vec<Hand> = Vec::new();
    loop
        invariant
            citer.specifier() == v,
            citer.value_range() == r,
            kept + citer.remaining().filter(keep_fn(n)) == total,
            hand_views(out@) == pair_views(kept),
        ensures
            kept == total,
            hand_views(out@) == pair_views(kept),
        decreases citer.remaining().len(),
    {
        let ghost before = citer.remaining();
        match citer.next_pair() {
            None => {
                proof {
                    assert(before =~= Seq::<(Card, Card)>::empty());
                    reveal_with_fuel(Seq::filter, 1);
                    assert(kept + before.filter(keep_fn(n)) =~= kept);
                }
                break;
            },
            Some((a, b)) => {
                proof {
                    lemma_filter_first(before, keep_fn(n));
                }
                if keeps_exec(&n, a, b) {
                    let ghost old_out = out@;
                    let h = pair_hand(a, b);
                    out.push(h);
                    proof {
                        assert(hand_views(out@) =~= hand_views(old_out).push(two_cards(a, b)));
                        assert(pair_views(kept.push((a, b))) =~= pair_views(kept).push(
                            two_cards(a, b),
                        ));
                        assert(kept + before.filter(keep_fn(n)) =~= kept.push((a, b))
                            + citer.remaining().filter(keep_fn(n)));
                        kept = kept.push((a, b));
                    }
                } else {
                    proof {
                        assert(kept + before.filter(keep_fn(n)) =~= kept + citer.remaining().filter(
                            keep_fn(n),
                        ));
                    }
                }
            },
        }
    }
    Ok(out)
}

/// Parse one range given as characters; see `parse_one_spec`.
fn parse_chars(s: &Vec<char>) -> (r: Result<Vec<Hand>, RSPokerError>)
    ensures
        match parse_one_spec(s@) {
            Ok(ps) => r matches Ok(hs) && hand_views(hs@) == pair_views(ps),
            Err(e) => r == Err::<Vec<Hand>, RSPokerError>(e),
        },
{
    let (st, p) = match parse_header(s) {
        Ok(x) => x,
        Err(e) => {
            return Err(e);
        },
    };
    let st2 = match parse_modifiers(s, p, st) {
        Ok(x) => x,
        Err(e) => {
            return Err(e);
        },
    };
    make_hands(st2)
}

/// The state a range string parses into, before its hands are made.
pub open spec fn parsed_state(s: Seq<char>) -> RangeState {
    let hq = header_spec(s)->Ok_0;
    modifiers_spec(s, hq.1, hq.0)->Ok_0
}

/// Every hand a range gives is one the range's own test keeps: each card's
/// value lies in its range, the two suits agree or differ as the
/// suitedness asks, each suit given in the range is honoured, and the gap
/// asked for is kept.
pub proof fn lemma_parse_one_kept(s: Seq<char>)
    requires
        parse_one_spec(s) is Ok,
    ensures
        forall|i: int|
            0 <= i < parse_one_spec(s)->Ok_0.len() ==> keeps(
                normalize_spec(parsed_state(s)),
                #[trigger] parse_one_spec(s)->Ok_0[i],
            ),
{
    let st = parsed_state(s);
    let n = normalize_spec(st);
    let v = iter_for(n).0;
    let r = iter_for(n).1;
    let items = iter_items(v, r, start_pos(v));
    assert forall|i: int| 0 <= i < items.filter(keep_fn(n)).len() implies keeps(
        n,
        #[trigger] items.filter(keep_fn(n))[i],
    ) by {
        items.lemma_filter_pred(keep_fn(n), i);
    }
}

/// The value an iterator gives the first card when the second has value
/// `w`.
pub open spec fn first_for(v: RangeIterValueSpecifier, r: InclusiveValueRange, w: Value) -> Value {
    match v {
        RangeIterValueSpecifier::Gap(g) => value_of_index(value_index(w) + g),
        RangeIterValueSpecifier::Static(x) => x,
        RangeIterValueSpecifier::Pair => w,
        RangeIterValueSpecifier::StaticRange(x, g) => value_of_index(
            value_index(x) + g + value_index(w) - value_index(r.start),
        ),
    }
}

/// Where in the walk a hand stands: its offset into the range, then the
/// suit indexes of its two cards.
pub open spec fn walk_key(r: InclusiveValueRange, c: (Card, Card)) -> (int, int, int) {
    (
        value_index(c.1.value) - value_index(r.start),
        suit_index(c.0.suit) as int,
        suit_index(c.1.suit) as int,
    )
}

/// Lexicographic order on walk positions.
pub open spec fn key_before(a: (int, int, int), b: (int, int, int)) -> bool {
    a.0 < b.0 || (a.0 == b.0 && (a.1 < b.1 || (a.1 == b.1 && a.2 < b.2)))
}

/// What each hand of a walk is: its first value follows from its second
/// value, and for pairs the first card's suit comes before the second's.
pub open spec fn walk_item_ok(v: RangeIterValueSpecifier, r: InclusiveValueRange, c: (Card, Card)) -> bool {
    &&& c.0.value == first_for(v, r, c.1.value)
    &&& v == RangeIterValueSpecifier::Pair ==> suit_index(c.0.suit) < suit_index(c.1.suit)
}

proof fn lemma_value_of_index_clamps(i: int)
    ensures
        value_index(value_of_index(i)) == (if i <= 0 {
            0
        } else if i >= 12 {
            12
        } else {
            i
        }),
{
}

proof fn lemma_suit_of_index_back(i: int)
    requires
        0 <= i < 4,
    ensures
        suit_index(suit_of_index(i)) == i,
{
}

/// A later second value never gets an earlier first value.
proof fn lemma_first_for_monotone(v: RangeIterValueSpecifier, r: InclusiveValueRange, a: Value, b: Value)
    requires
        value_index(a) <= value_index(b),
    ensures
        value_index(first_for(v, r, a)) <= value_index(first_for(v, r, b)),
{
    match v {
        RangeIterValueSpecifier::Gap(g) => {
            lemma_value_of_index_clamps(value_index(a) + g);
            lemma_value_of_index_clamps(value_index(b) + g);
        },
        RangeIterValueSpecifier::StaticRange(x, g) => {
            lemma_value_of_index_clamps(value_index(x) + g + value_index(a) - value_index(r.start));
            lemma_value_of_index_clamps(value_index(x) + g + value_index(b) - value_index(r.start));
        },
        _ => {},
    }
}

/// The hands of a walk from `pos` on: each is what the walk makes at its
/// own position, which is `pos` or later; they come in order of position,
/// so no hand comes twice; and each has the shape `walk_item_ok` says.
proof fn lemma_walk(v: RangeIterValueSpecifier, r: InclusiveValueRange, pos: (int, int, int))
    requires
        valid_pos(pos),
        0 <= pos.0 <= 13,
        v == RangeIterValueSpecifier::Pair ==> pos.1 < pos.2,
    ensures
        forall|i: int|
            0 <= i < iter_items(v, r, pos).len() ==> {
                let c = #[trigger] iter_items(v, r, pos)[i];
                &&& walk_item_ok(v, r, c)
                &&& walk_key(r, c) == pos || key_before(pos, walk_key(r, c))
            },
        forall|i: int, j: int|
            0 <= i < j < iter_items(v, r, pos).len() ==> key_before(
                walk_key(r, #[trigger] iter_items(v, r, pos)[i]),
                walk_key(r, #[trigger] iter_items(v, r, pos)[j]),
            ),
    decreases (13 - pos.0) * 25 + (4 - pos.1) * 5 + (4 - pos.2),
{
    let items = iter_items(v, r, pos);
    if iter_has_more(r, pos.0) {
        let nxt = incr_spec(iter_is_pair(v, r), pos);
        lemma_walk(v, r, nxt);
        let tail = iter_items(v, r, nxt);
        let head = item_at(v, r, pos);
        assert(items == seq![head] + tail);
        lemma_value_of_index_clamps(value_index(r.start) + pos.0);
        lemma_suit_of_index_back(pos.1);
        lemma_suit_of_index_back(pos.2);
        assert(walk_key(r, head) == pos);
        assert(walk_item_ok(v, r, head)) by {
            match v {
                RangeIterValueSpecifier::Gap(g) => {},
                RangeIterValueSpecifier::StaticRange(x, g) => {},
                _ => {},
            }
        }
        assert(key_before(pos, nxt));
        assert forall|i: int| 0 <= i < items.len() implies {
            let c = #[trigger] items[i];
            &&& walk_item_ok(v, r, c)
            &&& walk_key(r, c) == pos || key_before(pos, walk_key(r, c))
        } by {
            if i > 0 {
                assert(items[i] == tail[i - 1]);
            }
        }
        assert forall|i: int, j: int| 0 <= i < j < items.len() implies key_before(
            walk_key(r, #[trigger] items[i]),
            walk_key(r, #[trigger] items[j]),
        ) by {
            assert(items[j] == tail[j - 1]);
            if i > 0 {
                assert(items[i] == tail[i - 1]);
            }
        }
    }
}

/// Keeping some elements of a sequence keeps a relation that held between
/// every element and each later one.
proof fn lemma_filter_pairwise<A>(s: Seq<A>, p: spec_fn(A) -> bool, q: spec_fn(A, A) -> bool)
    requires
        forall|i: int, j: int| 0 <= i < j < s.len() ==> #[trigger] q(s[i], s[j]),
    ensures
        forall|i: int, j: int|
            0 <= i < j < s.filter(p).len() ==> #[trigger] q(s.filter(p)[i], s.filter(p)[j]),
    decreases s.len(),
{
    reveal(Seq::filter);
    if s.len() > 0 {
        let d = s.drop_last();
        assert forall|i: int, j: int| 0 <= i < j < d.len() implies #[trigger] q(d[i], d[j]) by {
            assert(d[i] == s[i] && d[j] == s[j]);
        }
        lemma_filter_pairwise(d, p, q);
        let fd = d.filter(p);
        let f = s.filter(p);
        if p(s.last()) {
            assert(f == fd.push(s.last()));
            assert forall|i: int, j: int| 0 <= i < j < f.len() implies #[trigger] q(f[i], f[j]) by {
                if j < fd.len() {
                    assert(f[i] == fd[i] && f[j] == fd[j]);
                } else {
                    assert(f[i] == fd[i]);
                    assert(fd.contains(fd[i]));
                    d.lemma_filter_contains_rev(p, fd[i]);
                    let k = choose|k: int| 0 <= k < d.len() && d[k] == fd[i];
                    assert(s[k] == d[k]);
                    assert(q(s[k], s[s.len() - 1]));
                }
            }
        }
    }
}

/// The hands a range gives hold two different cards, and no hand comes
/// twice; this holds as long as a hand of two cards of one value only
/// comes from a range of pocket pairs. (A range such as "A2-AA" ends on
/// the ace against itself and gives such a hand: a single card twice.)
pub proof fn lemma_parse_one_distinct(s: Seq<char>)
    requires
        parse_one_spec(s) is Ok,
        forall|i: int|
            0 <= i < parse_one_spec(s)->Ok_0.len() && (#[trigger] parse_one_spec(s)->Ok_0[i]).0.value
                == parse_one_spec(s)->Ok_0[i].1.value ==> normalize_spec(parsed_state(s)).gap
                == Some(0u8),
    ensures
        forall|i: int|
            0 <= i < parse_one_spec(s)->Ok_0.len() ==> (#[trigger] parse_one_spec(s)->Ok_0[i]).0
                != parse_one_spec(s)->Ok_0[i].1,
        pair_views(parse_one_spec(s)->Ok_0).no_duplicates(),
{
    let st = parsed_state(s);
    let n = normalize_spec(st);
    let v = iter_for(n).0;
    let r = iter_for(n).1;
    let items = iter_items(v, r, start_pos(v));
    let res = items.filter(keep_fn(n));
    assert(parse_one_spec(s)->Ok_0 == res);
    lemma_walk(v, r, start_pos(v));
    let q = |a: (Card, Card), b: (Card, Card)| key_before(walk_key(r, a), walk_key(r, b));
    lemma_filter_pairwise(items, keep_fn(n), q);
    assert forall|i: int| 0 <= i < res.len() implies walk_item_ok(v, r, #[trigger] res[i]) by {
        assert(res.contains(res[i]));
        items.lemma_filter_contains_rev(keep_fn(n), res[i]);
    }
    assert forall|i: int| 0 <= i < res.len() implies (#[trigger] res[i]).0 != res[i].1 by {
        assert(walk_item_ok(v, r, res[i]));
        if res[i].0.value == res[i].1.value {
            assert(n.gap == Some(0u8));
        }
    }
    let pv = pair_views(res);
    assert forall|i: int, j: int| 0 <= i < pv.len() && 0 <= j < pv.len() && i != j implies pv[i]
        != pv[j] by {
        let (lo, hi) = if i < j {
            (i, j)
        } else {
            (j, i)
        };
        let a = res[lo];
        let b = res[hi];
        assert(q(a, b));
        assert(walk_item_ok(v, r, a) && walk_item_ok(v, r, b));
        assert(a.0 != a.1 && b.0 != b.1);
        if pv[lo] == pv[hi] {
            assert(two_cards(a.0, a.1).contains(b.0));
            assert(two_cards(a.0, a.1).contains(b.1));
            assert(two_cards(b.0, b.1).contains(a.0));
            if b.0 == a.0 {
                assert(b.1 == a.1);
                assert(a == b);
            } else {
                assert(b.0 == a.1 && b.1 == a.0);
                if a.0.value == a.1.value {
                    assert(n.gap == Some(0u8));
                } else {
                    assert(v != RangeIterValueSpecifier::Pair);
                    if value_index(a.0.value) < value_index(a.1.value) {
                        lemma_first_for_monotone(v, r, a.0.value, a.1.value);
                    } else {
                        lemma_first_for_monotone(v, r, a.1.value, a.0.value);
                    }
                }
            }
        }
    }
}

/// A walk that does not make pairs reaches, within its current offset,
/// every later pair of suit indexes.
proof fn lemma_walk_visits(v: RangeIterValueSpecifier, r: InclusiveValueRange, pos: (int, int, int), q: (
    int,
    int,
    int,
))
    requires
        valid_pos(pos),
        valid_pos(q),
        0 <= pos.0 <= 13,
        !iter_is_pair(v, r),
        iter_has_more(r, pos.0),
        q.0 == pos.0,
        q == pos || key_before(pos, q),
    ensures
        iter_items(v, r, pos).contains(item_at(v, r, q)),
    decreases (13 - pos.0) * 25 + (4 - pos.1) * 5 + (4 - pos.2),
{
    let items = iter_items(v, r, pos);
    let nxt = incr_spec(false, pos);
    let tail = iter_items(v, r, nxt);
    assert(items == seq![item_at(v, r, pos)] + tail);
    if q == pos {
        assert(items[0] == item_at(v, r, q));
    } else {
        lemma_walk_visits(v, r, nxt, q);
        let k = choose|k: int| 0 <= k < tail.len() && tail[k] == item_at(v, r, q);
        assert(items[k + 1] == tail[k]);
    }
}

/// A hand written out card by card, such as "AhKs" or "KsAh", gives that
/// one hand: its two cards are the written cards, each with its written
/// suit, whichever value comes first.
pub proof fn lemma_parse_explicit_hand(x: char, a: char, y: char, b: char)
    requires
        value_from_char_spec(x) is Some,
        suit_from_char_spec(a) is Some,
        value_from_char_spec(y) is Some,
        suit_from_char_spec(b) is Some,
        value_from_char_spec(x) != value_from_char_spec(y),
    ensures
        parse_one_spec(seq![x, a, y, b]) is Ok,
        pair_views(parse_one_spec(seq![x, a, y, b])->Ok_0) == seq![
            two_cards(
                Card { value: value_from_char_spec(x)->Some_0, suit: suit_from_char_spec(a)->Some_0 },
                Card { value: value_from_char_spec(y)->Some_0, suit: suit_from_char_spec(b)->Some_0 },
            ),
        ],
{
    let s = seq![x, a, y, b];
    let vx = value_from_char_spec(x)->Some_0;
    let vy = value_from_char_spec(y)->Some_0;
    let sa = suit_from_char_spec(a)->Some_0;
    let sb = suit_from_char_spec(b)->Some_0;
    let cx = Card { value: vx, suit: sa };
    let cy = Card { value: vy, suit: sb };
    assert(s.len() == 4 && s[0] == x && s[1] == a && s[2] == y && s[3] == b);
    assert(header_spec(s) == Ok::<(RangeState, int), RSPokerError>((RangeState {
        first_range: single_range(vx),
        second_range: single_range(vy),
        first_suit: Some(sa),
        second_suit: Some(sb),
        suited: Suitedness::Any,
        gap: None,
        is_static: false,
    }, 4)));
    let st = parsed_state(s);
    assert(value_index(vx) != value_index(vy));
    assert(value_gap(vx, vy) != 0);
    assert(st == header_spec(s)->Ok_0.0);
    let n = normalize_spec(st);
    let (hi, lo) = if value_index(vx) < value_index(vy) {
        (cy, cx)
    } else {
        (cx, cy)
    };
    assert(n.first_range == single_range(hi.value) && n.second_range == single_range(lo.value));
    assert(n.first_suit == Some(hi.suit) && n.second_suit == Some(lo.suit));
    let v = iter_for(n).0;
    let r = iter_for(n).1;
    assert(v == RangeIterValueSpecifier::Static(hi.value) && r == single_range(lo.value));
    assert(!iter_is_pair(v, r));
    let items = iter_items(v, r, start_pos(v));
    let res = items.filter(keep_fn(n));
    assert(parse_one_spec(s) == Ok::<Seq<(Card, Card)>, RSPokerError>(res));
    // every hand kept is the written one
    lemma_parse_one_kept(s);
    assert forall|i: int| 0 <= i < res.len() implies #[trigger] res[i] == (hi, lo) by {
        assert(keeps(n, res[i]));
        assert(value_index(res[i].0.value) == value_index(hi.value));
        assert(value_index(res[i].1.value) == value_index(lo.value));
    }
    // and it is kept
    let q = (0int, suit_index(hi.suit) as int, suit_index(lo.suit) as int);
    lemma_value_of_index_clamps(value_index(lo.value) as int);
    lemma_walk_visits(v, r, start_pos(v), q);
    assert(item_at(v, r, q) == (hi, lo));
    assert(keeps(n, (hi, lo)));
    let k = choose|k: int| 0 <= k < items.len() && items[k] == (hi, lo);
    items.lemma_filter_contains(keep_fn(n), k);
    // so it is the only hand
    lemma_parse_one_distinct(s);
    let pv = pair_views(res);
    assert(two_cards(hi, lo) =~= two_cards(cx, cy));
    assert(res.len() >= 1);
    if res.len() > 1 {
        assert(res[0] == res[1]);
        assert(pv[0] == pv[1]);
    }
    assert(pv =~= seq![two_cards(cx, cy)]);
}

/// The order of the two values of a plain range does not matter: "AK"
/// and "KA" give the same hands, in the same order.
pub proof fn lemma_parse_one_symmetric(a: char, b: char)
    requires
        value_from_char_spec(a) is Some,
        value_from_char_spec(b) is Some,
    ensures
        parse_one_spec(seq![a, b]) == parse_one_spec(seq![b, a]),
{
    let s1 = seq![a, b];
    let s2 = seq![b, a];
    assert(suit_from_char_spec(a) is None && suit_from_char_spec(b) is None);
    assert(s1.len() == 2 && s2.len() == 2);
    let st1 = header_spec(s1)->Ok_0.0;
    let st2 = header_spec(s2)->Ok_0.0;
    assert(header_spec(s1)->Ok_0.1 == 2);
    assert(header_spec(s2)->Ok_0.1 == 2);
    let m1 = modifiers_spec(s1, 2, st1)->Ok_0;
    let m2 = modifiers_spec(s2, 2, st2)->Ok_0;
    assert(normalize_spec(m1) == normalize_spec(m2));
}

/// Whether `c` is white space in the sense of Unicode's White_Space
/// property, as `char::is_whitespace` documents it.
pub open spec fn is_white_space(c: char) -> bool {
    let u = c as u32;
    ||| 0x09 <= u <= 0x0D
    ||| u == 0x20
    ||| u == 0x85
    ||| u == 0xA0
    ||| u == 0x1680
    ||| 0x2000 <= u <= 0x200A
    ||| u == 0x2028
    ||| u == 0x2029
    ||| u == 0x202F
    ||| u == 0x205F
    ||| u == 0x3000
}

/// Whether `c` is white space; see `is_white_space`.
fn is_whitespace(c: char) -> (r: bool)
    ensures
        r == is_white_space(c),
{
    let u = c as u32;
    (0x09 <= u && u <= 0x0D) || u == 0x20 || u == 0x85 || u == 0xA0 || u == 0x1680 || (0x2000
        <= u && u <= 0x200A) || u == 0x2028 || u == 0x2029 || u == 0x202F || u == 0x205F || u
        == 0x3000
}

/// The characters without their leading white space.
pub open spec fn trim_start_spec(s: Seq<char>) -> Seq<char>
    decreases s.len(),
{
    if s.len() > 0 && is_white_space(s[0]) {
        trim_start_spec(s.drop_first())
    } else {
        s
    }
}

/// The characters without their trailing white space.
pub open spec fn trim_end_spec(s: Seq<char>) -> Seq<char>
    decreases s.len(),
{
    if s.len() > 0 && is_white_space(s.last()) {
        trim_end_spec(s.drop_last())
    } else {
        s
    }
}

/// The characters without leading or trailing white space.
pub open spec fn trim_spec(s: Seq<char>) -> Seq<char> {
    trim_end_spec(trim_start_spec(s))
}

/// The pieces between the commas, in order; no comma gives one piece.
pub open spec fn split_commas(s: Seq<char>) -> Seq<Seq<char>>
    decreases s.len(),
{
    if s.len() == 0 {
        seq![Seq::empty()]
    } else {
        let rest = split_commas(s.drop_last());
        if s.last() == ',' {
            rest.push(Seq::empty())
        } else {
            rest.update(rest.len() - 1, rest.last().push(s.last()))
        }
    }
}

/// The hands of the ranges given as pieces, each trimmed, in order; the
/// first piece that fails gives its error.
pub open spec fn parse_pieces_spec(ps: Seq<Seq<char>>) -> Result<Seq<Set<Card>>, RSPokerError>
    decreases ps.len(),
{
    if ps.len() == 0 {
        Ok(Seq::empty())
    } else {
        match parse_one_spec(trim_spec(ps[0])) {
            Err(e) => Err(e),
            Ok(v) => match parse_pieces_spec(ps.drop_first()) {
                Err(e) => Err(e),
                Ok(w) => Ok(pair_views(v) + w),
            },
        }
    }
}

/// What parsing a comma separated list of ranges gives, before equal
/// hands are merged.
pub open spec fn parse_many_spec(s: Seq<char>) -> Result<Seq<Set<Card>>, RSPokerError> {
    parse_pieces_spec(split_commas(s))
}

/// The sequence with each element kept only where it first occurs.
pub open spec fn dedup_spec<A>(s: Seq<A>) -> Seq<A>
    decreases s.len(),
{
    if s.len() == 0 {
        s
    } else {
        let d = dedup_spec(s.drop_last());
        if d.contains(s.last()) {
            d
        } else {
            d.push(s.last())
        }
    }
}

/// Keeping first occurrences leaves no element twice and loses none.
pub proof fn lemma_dedup<A>(s: Seq<A>)
    ensures
        dedup_spec(s).no_duplicates(),
        dedup_spec(s).to_set() == s.to_set(),
    decreases s.len(),
{
    if s.len() > 0 {
        let d = dedup_spec(s.drop_last());
        lemma_dedup(s.drop_last());
        assert(s =~= s.drop_last().push(s.last()));
        s.drop_last().lemma_push_to_set_commute(s.last());
        if !d.contains(s.last()) {
            d.lemma_push_to_set_commute(s.last());
            assert forall|i: int, j: int| 0 <= i < j < d.push(s.last()).len() implies d.push(
                s.last(),
            )[i] != d.push(s.last())[j] by {
                if j == d.len() {
                    assert(d.contains(d[i]));
                }
            }
        } else {
            assert(d.to_set().contains(s.last()));
            assert(d.to_set().insert(s.last()) =~= d.to_set());
        }
    } else {
        assert(s.to_set() =~= Set::<A>::empty());
        assert(dedup_spec(s).to_set() =~= Set::<A>::empty());
    }
}

/// The characters without leading or trailing white space.
fn trim_chars(s: &Vec<char>) -> (r: Vec<char>)
    ensures
        r@ == trim_spec(s@),
{
    let mut i: usize = 0;
    assert(s@.skip(0) =~= s@);
    while i < s.len() && is_whitespace(s[i])
        invariant
            i <= s.len(),
            trim_start_spec(s@) == trim_start_spec(s@.skip(i as int)),
        decreases s.len() - i,
    {
        proof {
            assert(s@.skip(i as int).drop_first() =~= s@.skip(i + 1));
        }
        i = i + 1;
    }
    let ghost t = s@.skip(i as int);
    assert(trim_start_spec(s@) == t);
    let mut j: usize = s.len();
    proof {
        assert(t =~= s@.subrange(i as int, j as int));
    }
    while j > i && is_whitespace(s[j - 1])
        invariant
            i <= j <= s.len(),
            trim_end_spec(t) == trim_end_spec(s@.subrange(i as int, j as int)),
        decreases j,
    {
        proof {
            assert(s@.subrange(i as int, j as int).drop_last() =~= s@.subrange(
                i as int,
                j - 1,
            ));
        }
        j = j - 1;
    }
    let mut out: Vec<char> = Vec::new();
    let mut k: usize = i;
    while k < j
        invariant
            i <= k <= j <= s.len(),
            out@ == s@.subrange(i as int, k as int),
        decreases j - k,
    {
        out.push(s[k]);
        proof {
            assert(out@ =~= s@.subrange(i as int, k + 1));
        }
        k = k + 1;
    }
    out
}

/// The views of the pieces.
pub open spec fn piece_views(ps: Seq<Vec<char>>) -> Seq<Seq<char>> {
    ps.map_values(|v: Vec<char>| v@)
}

/// Split the characters at each comma.
fn split_at_commas(s: &Vec<char>) -> (r: Vec<Vec<char>>)
    ensures
        piece_views(r@) == split_commas(s@),
{
    let mut pieces: Vec<Vec<char>> = Vec::new();
    let mut cur: Vec<char> = Vec::new();
    let mut i: usize = 0;
    proof {
        assert(s@.take(0) =~= Seq::<char>::empty());
        assert(piece_views(pieces@).push(cur@) =~= split_commas(s@.take(0)));
    }
    while i < s.len()
        invariant
            i <= s.len(),
            piece_views(pieces@).push(cur@) == split_commas(s@.take(i as int)),
        decreases s.len() - i,
    {
        let ghost pv = piece_views(pieces@);
        let ghost cv = cur@;
        proof {
            assert(s@.take(i + 1).drop_last() =~= s@.take(i as int));
        }
        if s[i] == ',' {
            pieces.push(cur);
            cur = Vec::new();
            proof {
                assert(piece_views(pieces@) =~= pv.push(cv));
                assert(piece_views(pieces@).push(cur@) =~= pv.push(cv).push(Seq::empty()));
            }
        } else {
            cur.push(s[i]);
            proof {
                assert(piece_views(pieces@).push(cur@) =~= pv.push(cv).update(
                    pv.push(cv).len() - 1,
                    cv.push(s@[i as int]),
                ));
            }
        }
        i = i + 1;
    }
    let ghost pv = piece_views(pieces@);
    let ghost cv = cur@;
    pieces.push(cur);
    proof {
        assert(s@.take(s.len() as int) =~= s@);
        assert(piece_views(pieces@) =~= pv.push(cv));
    }
    pieces
}

/// Parses hand ranges such as "AKo", "TT+", "JT-67s" or "KK+,A2s+" into
/// the hands they hold.
pub struct RangeParser;

impl RangeParser {
    /// All the hands of one range. A range is two values, each optionally
    /// followed by a suit (the second only if the first has one), then
    /// modifiers: `s` suited, `o` offsuit, `+` upwards, and `-` with two
    /// more values ending a range whose gap stays constant.
    pub fn parse_one(r_str: &str) -> (r: Result<Vec<Hand>, RSPokerError>)
        ensures
            match parse_one_spec(r_str@) {
                Ok(ps) => r matches Ok(hs) && hand_views(hs@) == pair_views(ps),
                Err(e) => r == Err::<Vec<Hand>, RSPokerError>(e),
            },
    {
        let chars = chars_of(r_str);
        parse_chars(&chars)
    }

    /// All the hands of a comma separated list of ranges, each hand once,
    /// in the order it first appears. The first range that fails to parse
    /// gives the error.
    pub fn parse_many(r_str: &str) -> (r: Result<Vec<Hand>, RSPokerError>)
        ensures
            match parse_many_spec(r_str@) {
                Ok(hs) => r matches Ok(v) && hand_views(v@) == dedup_spec(hs),
                Err(e) => r == Err::<Vec<Hand>, RSPokerError>(e),
            },
            r matches Ok(v) ==> hand_views(v@).no_duplicates(),
            r matches Ok(v) ==> parse_many_spec(r_str@) matches Ok(hs) && hand_views(v@).to_set()
                == hs.to_set(),
    {
        let chars = chars_of(r_str);
        let pieces = split_at_commas(&chars);
        let ghost ps = piece_views(pieces@);
        let mut all: Vec<Hand> = Vec::new();
        let mut i: usize = 0;
        proof {
            assert(ps.skip(0) =~= ps);
            assert(hand_views(all@) =~= Seq::<Set<Card>>::empty());
            match parse_pieces_spec(ps) {
                Ok(w) => {
                    assert(hand_views(all@) + w =~= w);
                },
                Err(e) => {},
            }
        }
        while i < pieces.len()
            invariant
                i <= pieces.len(),
                ps == piece_views(pieces@),
                ps == split_commas(r_str@),
                parse_pieces_spec(ps) == (match parse_pieces_spec(ps.skip(i as int)) {
                    Ok(w) => Ok(hand_views(all@) + w),
                    Err(e) => Err(e),
                }),
            decreases pieces.len() - i,
        {
            proof {
                assert(ps.skip(i as int)[0] == ps[i as int]);
                assert(ps.skip(i as int).drop_first() =~= ps.skip(i + 1));
            }
            let piece = trim_chars(&pieces[i]);
            match parse_chars(&piece) {
                Err(e) => {
                    return Err(e);
                },
                Ok(hs) => {
                    let ghost before = hand_views(all@);
                    let mut k: usize = 0;
                    while k < hs.len()
                        invariant
                            k <= hs.len(),
                            hand_views(all@) == before + hand_views(hs@.take(k as int)),
                        decreases hs.len() - k,
                    {
                        let ghost prev = hand_views(all@);
                        all.push(hs[k]);
                        proof {
                            assert(hand_views(all@) =~= prev.push(hs@[k as int]@));
                            assert(hand_views(hs@.take(k + 1)) =~= hand_views(hs@.take(k as int)).push(
                                hs@[k as int]@,
                            ));
                            assert(hand_views(all@) =~= before + hand_views(hs@.take(k + 1)));
                        }
                        k = k + 1;
                    }
                    proof {
                        assert(hs@.take(hs.len() as int) =~= hs@);
                        match parse_pieces_spec(ps.skip(i + 1)) {
                            Ok(w) => {
                                assert(hand_views(all@) + w =~= before + (hand_views(hs@) + w));
                            },
                            Err(e) => {},
                        }
                    }
                },
            }
            i = i + 1;
        }
        proof {
            assert(ps.skip(i as int) =~= Seq::<Seq<char>>::empty());
        }
        let ghost total = hand_views(all@);
        assert(parse_pieces_spec(ps) == Ok::<Seq<Set<Card>>, RSPokerError>(total));
        let mut out: Vec<Hand> = Vec::new();
        let mut i: usize = 0;
        while i < all.len()
            invariant
                i <= all.len(),
                total == hand_views(all@),
                hand_views(out@) == dedup_spec(total.take(i as int)),
            decreases all.len() - i,
        {
            let h = all[i];
            let mut found = false;
            let mut j: usize = 0;
            while j < out.len()
                invariant
                    j <= out.len(),
                    found == hand_views(out@).take(j as int).contains(h@),
                decreases out.len() - j,
            {
                let same = out[j].same_cards(&h);
                proof {
                    let a = hand_views(out@).take(j as int);
                    let b = a.push(out@[j as int]@);
                    assert(hand_views(out@).take(j + 1) =~= b);
                    if a.contains(h@) {
                        let k = choose|k: int| 0 <= k < a.len() && a[k] == h@;
                        assert(b[k] == h@);
                    }
                    if out@[j as int]@ == h@ {
                        assert(b[a.len() as int] == h@);
                    }
                    if b.contains(h@) {
                        let k = choose|k: int| 0 <= k < b.len() && b[k] == h@;
                        if k < a.len() {
                            assert(a[k] == h@);
                        }
                    }
                }
                found = found || same;
                j = j + 1;
            }
            proof {
                assert(hand_views(out@).take(out.len() as int) =~= hand_views(out@));
                assert(total.take(i + 1).drop_last() =~= total.take(i as int));
                assert(total.take(i + 1).last() == h@);
            }
            if !found {
                let ghost old_views = hand_views(out@);
                out.push(h);
                proof {
                    assert(hand_views(out@) =~= old_views.push(h@));
                }
            }
            i = i + 1;
        }
        proof {
            assert(total.take(all.len() as int) =~= total);
            lemma_dedup(total);
        }
        Ok(out)
    }
}

} // verus!
