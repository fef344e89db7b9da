use vstd::prelude::*;
use vstd::seq_lib::group_to_multiset_ensures;
use crate::card::{
    Card,
    Suit,
    Value,
    value_index,
    value_at,
    lemma_value_index_round_trip,
    lemma_value_at_round_trip,
};

verus! {

/// A run of equal values within a hand: a pair, a triple or a quad.
#[derive(PartialEq, Eq, Structural, Debug, Clone, Copy)]
pub struct SameKind {
    pub value: Value,
    pub amount: usize,
}

impl SameKind {
    /// Orders groups by amount, then by value.
    pub fn compare(&self, other: &SameKind) -> (r: core::cmp::Ordering)
        ensures
            r == (if self.amount < other.amount {
                core::cmp::Ordering::Less
            } else if self.amount > other.amount {
                core::cmp::Ordering::Greater
            } else if value_index(self.value) < value_index(other.value) {
                core::cmp::Ordering::Less
            } else if value_index(self.value) > value_index(other.value) {
                core::cmp::Ordering::Greater
            } else {
                core::cmp::Ordering::Equal
            }),
    {
        if self.amount < other.amount {
            core::cmp::Ordering::Less
        } else if self.amount > other.amount {
            core::cmp::Ordering::Greater
        } else {
            let a = self.value.index();
            let b = other.value.index();
            if a < b {
                core::cmp::Ordering::Less
            } else if a > b {
                core::cmp::Ordering::Greater
            } else {
                core::cmp::Ordering::Equal
            }
        }
    }
}

/// A fixed-size set of cards.
#[derive(PartialEq, Eq, Debug, Clone)]
pub struct Deck<const N: usize> {
    pub cards: [Card; N],
}

/// The high card and suit of a straight flush.
#[derive(PartialEq, Eq, Structural, Debug, Clone, Copy)]
pub struct StraightFlushDetails {
    pub high: Value,
    pub suit: Suit,
}

impl From<Card> for StraightFlushDetails {
    fn from(card: Card) -> (r: StraightFlushDetails)
        ensures
            r == (StraightFlushDetails { high: card.value, suit: card.suit }),
    {
        StraightFlushDetails { high: card.value, suit: card.suit }
    }
}

impl vstd::std_specs::convert::FromSpecImpl<Card> for StraightFlushDetails {
    open spec fn obeys_from_spec() -> bool {
        true
    }

    open spec fn from_spec(card: Card) -> StraightFlushDetails {
        StraightFlushDetails { high: card.value, suit: card.suit }
    }
}

/// The rank of a five-card hand, weakest category first.
#[derive(PartialEq, Eq, Structural, Debug, Clone, Copy)]
pub enum Rank {
    HighCard(Value),
    Pair(Value),
    TwoPair { a: Value, b: Value },
    ThreeOfAKind(Value),
    Straight { high: Value, suit: Suit },
    /// Stores the value of the highest card in the flush.
    Flush(Value),
    FullHouse { three_of_a_kind: Value, pair: Value },
    FourOfAKind(Value),
    StraightFlush(StraightFlushDetails),
    RoyalFlush(Suit),
}

/// How many cards of the hand carry value `v`, whatever their suit.
pub open spec fn count_value(s: Seq<Card>, v: Value) -> nat {
    let m = s.to_multiset();
    m.count(Card { suit: Suit::Heart, value: v }) + m.count(Card { suit: Suit::Spade, value: v })
        + m.count(Card { suit: Suit::Club, value: v }) + m.count(
        Card { suit: Suit::Diamond, value: v },
    )
}

/// How many cards of the hand carry the value at distance `i` from Two.
pub open spec fn count_index(s: Seq<Card>, i: int) -> nat {
    count_value(s, value_at(i))
}

/// All cards share the suit of the first.
pub open spec fn is_flush(s: Seq<Card>) -> bool {
    forall|i: int| 0 <= i < s.len() ==> #[trigger] s[i].suit == s[0].suit
}

/// The first card of highest value.
pub open spec fn high_card(s: Seq<Card>) -> Card
    decreases s.len(),
{
    if s.len() <= 1 {
        s[0]
    } else {
        let h = high_card(s.drop_last());
        if value_index(s.last().value) > value_index(h.value) {
            s.last()
        } else {
            h
        }
    }
}

/// The highest value in the hand, as a distance from Two.
pub open spec fn high_index(s: Seq<Card>) -> int {
    value_index(high_card(s).value)
}

/// Five consecutive values, the highest one of the hand on top, each held by
/// exactly one card. An Ace never counts below Two.
pub open spec fn is_straight(s: Seq<Card>) -> bool {
    high_index(s) >= 4 && forall|j: int| 0 <= j < 5 ==> #[trigger] count_index(s, high_index(s) - j) == 1
}

/// The highest value below the distance `below` that exactly `n` cards carry.
pub open spec fn highest_with_count(s: Seq<Card>, n: nat, below: int) -> Option<Value>
    decreases below,
{
    if below <= 0 {
        None
    } else if count_index(s, below - 1) == n {
        Some(value_at(below - 1))
    } else {
        highest_with_count(s, n, below - 1)
    }
}

/// The second pair of a hand, below its highest pair.
pub open spec fn second_pair(s: Seq<Card>) -> Option<Value> {
    match highest_with_count(s, 2, 13) {
        Some(p) => highest_with_count(s, 2, value_index(p)),
        None => None,
    }
}

/// The rank of a hand, by the first rule that matches.
pub open spec fn rank_of(s: Seq<Card>) -> Rank {
    let flush = is_flush(s);
    let straight = is_straight(s);
    let high = high_card(s);
    if flush && straight {
        if high.value == Value::Ace {
            Rank::RoyalFlush(s[0].suit)
        } else {
            Rank::StraightFlush(StraightFlushDetails { high: high.value, suit: s[0].suit })
        }
    } else if highest_with_count(s, 4, 13) is Some {
        Rank::FourOfAKind(highest_with_count(s, 4, 13)->0)
    } else if highest_with_count(s, 3, 13) is Some && highest_with_count(s, 2, 13) is Some {
        Rank::FullHouse {
            three_of_a_kind: highest_with_count(s, 3, 13)->0,
            pair: highest_with_count(s, 2, 13)->0,
        }
    } else if flush {
        Rank::Flush(high.value)
    } else if straight {
        Rank::Straight { high: high.value, suit: high.suit }
    } else if highest_with_count(s, 3, 13) is Some {
        Rank::ThreeOfAKind(highest_with_count(s, 3, 13)->0)
    } else if highest_with_count(s, 2, 13) is Some && second_pair(s) is Some {
        Rank::TwoPair { a: highest_with_count(s, 2, 13)->0, b: second_pair(s)->0 }
    } else if highest_with_count(s, 2, 13) is Some {
        Rank::Pair(highest_with_count(s, 2, 13)->0)
    } else {
        Rank::HighCard(high.value)
    }
}

proof fn lemma_count_push(s: Seq<Card>, c: Card, v: Value)
    ensures
        count_value(s.push(c), v) == count_value(s, v) + if c.value == v { 1nat } else { 0nat },
{
    broadcast use group_to_multiset_ensures;

    assert(s.push(c).to_multiset() =~= s.to_multiset().insert(c));
}

/// Finds the highest value below `below` with exactly `n` cards, from the
/// per-value counts of a hand.
fn highest_with(counts: &Vec<u8>, n: u8, below: u8, Ghost(s): Ghost<Seq<Card>>) -> (r: Option<u8>)
    requires
        below <= 13,
        counts@.len() == 13,
        forall|j: int| 0 <= j < 13 ==> counts@[j] as nat == #[trigger] count_index(s, j),
    ensures
        match r {
            Some(i) => i < below && highest_with_count(s, n as nat, below as int) == Some(value_at(i as int)),
            None => highest_with_count(s, n as nat, below as int) is None,
        },
{
    let mut i: u8 = below;
    while i > 0
        invariant
            i <= below <= 13,
            counts@.len() == 13,
            forall|j: int| 0 <= j < 13 ==> counts@[j] as nat == #[trigger] count_index(s, j),
            highest_with_count(s, n as nat, below as int) == highest_with_count(s, n as nat, i as int),
        decreases i,
    {
        if counts[(i - 1) as usize] == n {
            return Some(i - 1);
        }
        i = i - 1;
    }
    None
}

/// Classifies five cards into their rank. One pass over the cards counts
/// each value, checks the suits and finds the high card; the groups of equal
/// value are then read off the counts from Ace down. The order in which the
/// cards are given does not matter.
pub fn compute_rank(cards: Vec<Card>) -> (r: Rank)
    requires
        cards@.len() == 5,
    ensures
        r == rank_of(cards@),
{
    let ghost s = cards@;
    // per-value counts, flush and the first card of highest value
    let mut counts: Vec<u8> = vec![0u8; 13];
    let mut flush = true;
    let mut high = cards[0];
    let mut i: usize = 0;
    proof {
        broadcast use group_to_multiset_ensures;

        assert forall|j: int| 0 <= j < 13 implies counts@[j] as nat == #[trigger] count_index(
            s.take(0),
            j,
        ) by {
            let m = s.take(0).to_multiset();
            assert(!s.take(0).contains(Card { suit: Suit::Heart, value: value_at(j) }));
            assert(!s.take(0).contains(Card { suit: Suit::Spade, value: value_at(j) }));
            assert(!s.take(0).contains(Card { suit: Suit::Club, value: value_at(j) }));
            assert(!s.take(0).contains(Card { suit: Suit::Diamond, value: value_at(j) }));
        }
    }
    while i < 5
        invariant
            s == cards@,
            s.len() == 5,
            0 <= i <= 5,
            counts@.len() == 13,
            forall|j: int| 0 <= j < 13 ==> counts@[j] as nat == #[trigger] count_index(s.take(i as int), j),
            flush == (forall|k: int| 0 <= k < i ==> #[trigger] s[k].suit == s[0].suit),
            i > 0 ==> high == high_card(s.take(i as int)),
            i == 0 ==> high == s[0],
        decreases 5 - i,
    {
        let card = cards[i];
        let vi = card.value.index() as usize;
        proof {
            lemma_value_index_round_trip(card.value);
            assert(s.take(i + 1) == s.take(i as int).push(card));
            assert forall|j: int| 0 <= j < 13 implies count_index(s.take(i + 1), j) == count_index(
                s.take(i as int),
                j,
            ) + if j == vi as int { 1nat } else { 0nat } by {
                lemma_count_push(s.take(i as int), card, value_at(j));
                lemma_value_at_round_trip(j);
            }
            assert(count_index(s.take(i as int), vi as int) <= i) by {
                lemma_count_bound(s.take(i as int), value_at(vi as int));
            }
            if i > 0 {
                assert(s.take(i + 1).drop_last() == s.take(i as int));
            }
        }
        let ghost before = counts@;
        counts.set(vi, counts[vi] + 1);
        assert forall|j: int| 0 <= j < 13 implies counts@[j] as nat == #[trigger] count_index(
            s.take(i + 1),
            j,
        ) by {
            assert(before[j] as nat == count_index(s.take(i as int), j));
        }
        if card.suit != cards[0].suit {
            flush = false;
        }
        if i > 0 && card.value.index() > high.value.index() {
            high = card;
        }
        i = i + 1;
    }
    assert(s.take(5) == s);
    let hi = high.value.index();
    let mut straight = hi >= 4;
    if straight {
        let mut j: u8 = 0;
        while j < 5
            invariant
                4 <= hi < 13,
                hi as int == high_index(s),
                0 <= j <= 5,
                counts@.len() == 13,
                forall|k: int| 0 <= k < 13 ==> counts@[k] as nat == #[trigger] count_index(s, k),
                straight == (forall|k: int| 0 <= k < j ==> #[trigger] count_index(s, high_index(s) - k) == 1),
            decreases 5 - j,
        {
            assert(counts@[(hi - j) as int] as nat == count_index(s, high_index(s) - j));
            if counts[(hi - j) as usize] != 1 {
                straight = false;
            }
            j = j + 1;
        }
    }
    assert(straight == is_straight(s));
    if flush && straight {
        if high.value == Value::Ace {
            return Rank::RoyalFlush(cards[0].suit);
        } else {
            return Rank::StraightFlush(StraightFlushDetails { high: high.value, suit: cards[0].suit });
        }
    }
    let four = highest_with(&counts, 4, 13, Ghost(s));
    let three = highest_with(&counts, 3, 13, Ghost(s));
    let pair = highest_with(&counts, 2, 13, Ghost(s));
    if let Some(v) = four {
        return Rank::FourOfAKind(Value::from_index(v));
    }
    if let Some(t) = three {
        if let Some(p) = pair {
            return Rank::FullHouse { three_of_a_kind: Value::from_index(t), pair: Value::from_index(p) };
        }
    }
    if flush {
        return Rank::Flush(high.value);
    }
    if straight {
        return Rank::Straight { high: high.value, suit: high.suit };
    }
    if let Some(t) = three {
        return Rank::ThreeOfAKind(Value::from_index(t));
    }
    if let Some(p) = pair {
        let second = highest_with(&counts, 2, p, Ghost(s));
        proof {
            lemma_value_index_round_trip(value_at(p as int));
        }
        if let Some(q) = second {
            return Rank::TwoPair { a: Value::from_index(p), b: Value::from_index(q) };
        }
        return Rank::Pair(Value::from_index(p));
    }
    Rank::HighCard(high.value)
}

proof fn lemma_count_bound(s: Seq<Card>, v: Value)
    ensures
        count_value(s, v) <= s.len(),
    decreases s.len(),
{
    if s.len() == 0 {
        broadcast use group_to_multiset_ensures;

        assert(s.to_multiset().len() == 0);
    } else {
        lemma_count_bound(s.drop_last(), v);
        lemma_count_push(s.drop_last(), s.last(), v);
        assert(s.drop_last().push(s.last()) == s);
    }
}

} // verus!

verus! {

proof fn lemma_high_card(s: Seq<Card>)
    requires
        s.len() >= 1,
    ensures
        s.contains(high_card(s)),
        forall|i: int| 0 <= i < s.len() ==> value_index(#[trigger] s[i].value) <= high_index(s),
    decreases s.len(),
{
    if s.len() > 1 {
        lemma_high_card(s.drop_last());
        let h = high_card(s.drop_last());
        let k = choose|k: int| 0 <= k < s.drop_last().len() && s.drop_last()[k] == h;
        assert(s[k] == h);
        assert(s[s.len() - 1] == s.last());
        assert forall|i: int| 0 <= i < s.len() implies value_index(#[trigger] s[i].value)
            <= high_index(s) by {
            if i < s.len() - 1 {
                assert(s[i] == s.drop_last()[i]);
            }
        }
    } else {
        assert(s[0] == high_card(s));
    }
}

proof fn lemma_highest_with_count_same(a: Seq<Card>, b: Seq<Card>, n: nat, below: int)
    requires
        a.to_multiset() == b.to_multiset(),
    ensures
        highest_with_count(a, n, below) == highest_with_count(b, n, below),
    decreases below,
{
    if below > 0 {
        lemma_highest_with_count_same(a, b, n, below - 1);
    }
}

/// Cards that appear in the same hand are equal when the hand holds only one
/// card of their value.
proof fn lemma_single_of_value(s: Seq<Card>, x: Card, y: Card)
    requires
        s.contains(x),
        s.contains(y),
        x.value == y.value,
        count_value(s, x.value) == 1,
    ensures
        x == y,
{
    broadcast use group_to_multiset_ensures;

    assert(s.to_multiset().len() == s.len());
    assert(s.to_multiset().count(x) > 0);
    assert(s.to_multiset().count(y) > 0);
}

/// The rank of a hand does not depend on the order in which its cards are given:
/// two hands that hold the same cards, each as often, have the same rank.
pub proof fn lemma_rank_order_independent(a: Seq<Card>, b: Seq<Card>)
    requires
        a.len() == 5,
        a.to_multiset() == b.to_multiset(),
    ensures
        rank_of(a) == rank_of(b),
{
    broadcast use group_to_multiset_ensures;

    assert(a.to_multiset().len() == a.len());
    assert(b.to_multiset().len() == b.len());
    assert(b.len() == 5);
    a.to_multiset_ensures();
    b.to_multiset_ensures();
    assert forall|x: Card| a.contains(x) <==> b.contains(x) by {
        assert(a.to_multiset().count(x) == b.to_multiset().count(x));
        if a.contains(x) {
            assert(a.to_multiset().count(x) > 0);
        }
        if b.contains(x) {
            assert(b.to_multiset().count(x) > 0);
        }
    }
    lemma_high_card(a);
    lemma_high_card(b);
    let ha = high_card(a);
    let hb = high_card(b);
    assert(b.contains(ha));
    assert(a.contains(hb));
    let ia = choose|k: int| 0 <= k < b.len() && b[k] == ha;
    let ib = choose|k: int| 0 <= k < a.len() && a[k] == hb;
    assert(value_index(b[ia].value) <= high_index(b));
    assert(value_index(a[ib].value) <= high_index(a));
    assert(high_index(a) == high_index(b));
    assert(ha.value == hb.value) by {
        lemma_value_index_round_trip(ha.value);
        lemma_value_index_round_trip(hb.value);
    }
    assert(a.contains(a[0]) && b.contains(b[0]));
    assert(a.contains(b[0]) && b.contains(a[0]));
    assert(is_flush(a) == is_flush(b)) by {
        if is_flush(a) {
            assert forall|i: int| 0 <= i < b.len() implies #[trigger] b[i].suit == b[0].suit by {
                assert(a.contains(b[i]));
                let j = choose|j: int| 0 <= j < a.len() && a[j] == b[i];
                let j0 = choose|j: int| 0 <= j < a.len() && a[j] == b[0];
                assert(a[j].suit == a[0].suit);
                assert(a[j0].suit == a[0].suit);
            }
        }
        if is_flush(b) {
            assert forall|i: int| 0 <= i < a.len() implies #[trigger] a[i].suit == a[0].suit by {
                assert(b.contains(a[i]));
                let j = choose|j: int| 0 <= j < b.len() && b[j] == a[i];
                let j0 = choose|j: int| 0 <= j < b.len() && b[j] == a[0];
                assert(b[j].suit == b[0].suit);
                assert(b[j0].suit == b[0].suit);
            }
        }
    }
    assert(is_straight(a) == is_straight(b)) by {
        assert forall|j: int| #[trigger] count_index(a, j) == count_index(b, j) by {}
        if is_straight(a) {
            assert forall|j: int| 0 <= j < 5 implies #[trigger] count_index(b, high_index(b) - j) == 1 by {
                assert(count_index(a, high_index(a) - j) == 1);
            }
        }
        if is_straight(b) {
            assert forall|j: int| 0 <= j < 5 implies #[trigger] count_index(a, high_index(a) - j) == 1 by {
                assert(count_index(b, high_index(b) - j) == 1);
            }
        }
    }
    lemma_highest_with_count_same(a, b, 4, 13);
    lemma_highest_with_count_same(a, b, 3, 13);
    lemma_highest_with_count_same(a, b, 2, 13);
    if highest_with_count(a, 2, 13) is Some {
        lemma_highest_with_count_same(a, b, 2, value_index(highest_with_count(a, 2, 13)->0));
    }
    if is_flush(a) {
        let j0 = choose|j: int| 0 <= j < a.len() && a[j] == b[0];
        assert(a[j0].suit == a[0].suit);
    }
    if is_straight(a) {
        assert(count_index(a, high_index(a) - 0) == 1);
        lemma_value_index_round_trip(ha.value);
        lemma_single_of_value(a, ha, hb);
    }
}

} // verus!

verus! {

/// The category of a rank: 0 for a high card up to 9 for a royal flush.
pub open spec fn category(r: Rank) -> int {
    match r {
        Rank::HighCard(_) => 0,
        Rank::Pair(_) => 1,
        Rank::TwoPair { .. } => 2,
        Rank::ThreeOfAKind(_) => 3,
        Rank::Straight { .. } => 4,
        Rank::Flush(_) => 5,
        Rank::FullHouse { .. } => 6,
        Rank::FourOfAKind(_) => 7,
        Rank::StraightFlush(_) => 8,
        Rank::RoyalFlush(_) => 9,
    }
}

/// The value that decides first between two ranks of one category.
/// Suits never decide; all royal flushes are equally strong.
pub open spec fn primary(r: Rank) -> int {
    match r {
        Rank::HighCard(v) => value_index(v),
        Rank::Pair(v) => value_index(v),
        Rank::TwoPair { a, .. } => value_index(a),
        Rank::ThreeOfAKind(v) => value_index(v),
        Rank::Straight { high, .. } => value_index(high),
        Rank::Flush(v) => value_index(v),
        Rank::FullHouse { three_of_a_kind, .. } => value_index(three_of_a_kind),
        Rank::FourOfAKind(v) => value_index(v),
        Rank::StraightFlush(d) => value_index(d.high),
        Rank::RoyalFlush(_) => 0,
    }
}

/// The value that decides next: the lower pair of two pairs, the pair of a full house.
pub open spec fn secondary(r: Rank) -> int {
    match r {
        Rank::TwoPair { b, .. } => value_index(b),
        Rank::FullHouse { pair, .. } => value_index(pair),
        _ => 0,
    }
}

/// Compares two ranks by strength: category, then primary, then secondary value.
pub open spec fn strength_cmp(a: Rank, b: Rank) -> core::cmp::Ordering {
    if category(a) != category(b) {
        if category(a) < category(b) {
            core::cmp::Ordering::Less
        } else {
            core::cmp::Ordering::Greater
        }
    } else if primary(a) != primary(b) {
        if primary(a) < primary(b) {
            core::cmp::Ordering::Less
        } else {
            core::cmp::Ordering::Greater
        }
    } else if secondary(a) != secondary(b) {
        if secondary(a) < secondary(b) {
            core::cmp::Ordering::Less
        } else {
            core::cmp::Ordering::Greater
        }
    } else {
        core::cmp::Ordering::Equal
    }
}

/// `a` is weaker than `b`.
pub open spec fn weaker(a: Rank, b: Rank) -> bool {
    strength_cmp(a, b) == core::cmp::Ordering::Less
}

impl Rank {
    fn category(&self) -> (r: u8)
        ensures
            r as int == category(*self),
    {
        match self {
            Rank::HighCard(_) => 0,
            Rank::Pair(_) => 1,
            Rank::TwoPair { .. } => 2,
            Rank::ThreeOfAKind(_) => 3,
            Rank::Straight { .. } => 4,
            Rank::Flush(_) => 5,
            Rank::FullHouse { .. } => 6,
            Rank::FourOfAKind(_) => 7,
            Rank::StraightFlush(_) => 8,
            Rank::RoyalFlush(_) => 9,
        }
    }

    fn primary(&self) -> (r: u8)
        ensures
            r as int == primary(*self),
    {
        match self {
            Rank::HighCard(v) => v.index(),
            Rank::Pair(v) => v.index(),
            Rank::TwoPair { a, .. } => a.index(),
            Rank::ThreeOfAKind(v) => v.index(),
            Rank::Straight { high, .. } => high.index(),
            Rank::Flush(v) => v.index(),
            Rank::FullHouse { three_of_a_kind, .. } => three_of_a_kind.index(),
            Rank::FourOfAKind(v) => v.index(),
            Rank::StraightFlush(d) => d.high.index(),
            Rank::RoyalFlush(_) => 0,
        }
    }

    fn secondary(&self) -> (r: u8)
        ensures
            r as int == secondary(*self),
    {
        match self {
            Rank::TwoPair { b, .. } => b.index(),
            Rank::FullHouse { pair, .. } => pair.index(),
            _ => 0,
        }
    }

    /// Compares two ranks by hand strength.
    pub fn compare(&self, other: &Rank) -> (r: core::cmp::Ordering)
        ensures
            r == strength_cmp(*self, *other),
    {
        let (ca, cb) = (self.category(), other.category());
        if ca != cb {
            return if ca < cb {
                core::cmp::Ordering::Less
            } else {
                core::cmp::Ordering::Greater
            };
        }
        let (pa, pb) = (self.primary(), other.primary());
        if pa != pb {
            return if pa < pb {
                core::cmp::Ordering::Less
            } else {
                core::cmp::Ordering::Greater
            };
        }
        let (sa, sb) = (self.secondary(), other.secondary());
        if sa != sb {
            if sa < sb {
                core::cmp::Ordering::Less
            } else {
                core::cmp::Ordering::Greater
            }
        } else {
            core::cmp::Ordering::Equal
        }
    }
}

/// Strength is a total order on ranks: the categories rank high card, pair,
/// two pair, three of a kind, straight, flush, full house, four of a kind,
/// straight flush and royal flush, weakest first; within a category the
/// stored values decide, the higher group first, and suits never do.
pub proof fn lemma_strength_total_order(a: Rank, b: Rank, c: Rank)
    ensures
        category(a) < category(b) ==> weaker(a, b),
        category(a) == category(b) && primary(a) < primary(b) ==> weaker(a, b),
        category(a) == category(b) && primary(a) == primary(b) && secondary(a) < secondary(b)
            ==> weaker(a, b),
        strength_cmp(a, a) == core::cmp::Ordering::Equal,
        weaker(a, b) <==> strength_cmp(b, a) == core::cmp::Ordering::Greater,
        weaker(a, b) || weaker(b, a) || strength_cmp(a, b) == core::cmp::Ordering::Equal,
        !(weaker(a, b) && weaker(b, a)),
        weaker(a, b) && weaker(b, c) ==> weaker(a, c),
        category(Rank::HighCard(Value::Ace)) < category(Rank::Pair(Value::Two)),
        category(Rank::Pair(Value::Ace)) < category(Rank::TwoPair { a: Value::Three, b: Value::Two }),
        category(Rank::TwoPair { a: Value::Ace, b: Value::King }) < category(Rank::ThreeOfAKind(Value::Two)),
        category(Rank::ThreeOfAKind(Value::Ace)) < category(Rank::Straight { high: Value::Six, suit: Suit::Heart }),
        category(Rank::Straight { high: Value::Ace, suit: Suit::Heart }) < category(Rank::Flush(Value::Seven)),
        category(Rank::Flush(Value::Ace)) < category(Rank::FullHouse { three_of_a_kind: Value::Two, pair: Value::Three }),
        category(Rank::FullHouse { three_of_a_kind: Value::Ace, pair: Value::King })
            < category(Rank::FourOfAKind(Value::Two)),
        category(Rank::FourOfAKind(Value::Ace)) < category(
            Rank::StraightFlush(StraightFlushDetails { high: Value::Six, suit: Suit::Heart }),
        ),
        category(Rank::StraightFlush(StraightFlushDetails { high: Value::King, suit: Suit::Heart }))
            < category(Rank::RoyalFlush(Suit::Heart)),
        strength_cmp(Rank::RoyalFlush(Suit::Heart), Rank::RoyalFlush(Suit::Spade))
            == core::cmp::Ordering::Equal,
{
}

} // verus!
