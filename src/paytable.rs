use vstd::prelude::*;
use crate::card::{Value, value_index};
use crate::rank::Rank;

verus! {

/// What each hand category pays. Pairs pay only from `min_pair` upwards.
#[derive(PartialEq, Eq, Structural, Debug, Clone, Copy)]
pub struct Paytable {
    pub min_pair: Value,
    pub pair: u16,
    pub two_pair: u16,
    pub three_of_a_kind: u16,
    pub straight: u16,
    pub flush: u16,
    pub full_house: u16,
    pub four_of_a_kind: u16,
    pub straight_flush: u16,
    pub royal_flush: u16,
}

/// The largest payout of any table.
pub const MAX_PAYOUT: u16 = 65535;

impl Paytable {
    /// What the table pays for a rank.
    pub open spec fn score_of(self, r: Rank) -> int {
        match r {
            Rank::HighCard(_) => 0,
            Rank::Pair(v) => if value_index(v) >= value_index(self.min_pair) {
                self.pair as int
            } else {
                0
            },
            Rank::TwoPair { .. } => self.two_pair as int,
            Rank::ThreeOfAKind(_) => self.three_of_a_kind as int,
            Rank::Straight { .. } => self.straight as int,
            Rank::Flush(_) => self.flush as int,
            Rank::FullHouse { .. } => self.full_house as int,
            Rank::FourOfAKind(_) => self.four_of_a_kind as int,
            Rank::StraightFlush(_) => self.straight_flush as int,
            Rank::RoyalFlush(_) => self.royal_flush as int,
        }
    }

    /// Jacks or Better: a pair of jacks or better 1, two pair 2, three of a
    /// kind 3, straight 4, flush 6, full house 9, four of a kind 25,
    /// straight flush 50, royal flush 250.
    pub open spec fn jacks_or_better_spec() -> Paytable {
        Paytable {
            min_pair: Value::Jack,
            pair: 1,
            two_pair: 2,
            three_of_a_kind: 3,
            straight: 4,
            flush: 6,
            full_house: 9,
            four_of_a_kind: 25,
            straight_flush: 50,
            royal_flush: 250,
        }
    }

    /// The Jacks-or-Better table.
    pub fn jacks_or_better() -> (t: Paytable)
        ensures
            t == Paytable::jacks_or_better_spec(),
    {
        Paytable {
            min_pair: Value::Jack,
            pair: 1,
            two_pair: 2,
            three_of_a_kind: 3,
            straight: 4,
            flush: 6,
            full_house: 9,
            four_of_a_kind: 25,
            straight_flush: 50,
            royal_flush: 250,
        }
    }

    /// What the table pays for a rank.
    pub fn score(&self, r: &Rank) -> (s: u16)
        ensures
            s as int == self.score_of(*r),
    {
        match r {
            Rank::HighCard(_) => 0,
            Rank::Pair(v) => if v.index() >= self.min_pair.index() {
                self.pair
            } else {
                0
            },
            Rank::TwoPair { .. } => self.two_pair,
            Rank::ThreeOfAKind(_) => self.three_of_a_kind,
            Rank::Straight { .. } => self.straight,
            Rank::Flush(_) => self.flush,
            Rank::FullHouse { .. } => self.full_house,
            Rank::FourOfAKind(_) => self.four_of_a_kind,
            Rank::StraightFlush(_) => self.straight_flush,
            Rank::RoyalFlush(_) => self.royal_flush,
        }
    }
}

/// What the Jacks-or-Better table pays for a rank.
pub fn calculate_score(class: Rank) -> (s: u16)
    ensures
        s as int == Paytable::jacks_or_better_spec().score_of(class),
{
    Paytable::jacks_or_better().score(&class)
}

} // verus!
