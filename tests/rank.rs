use poker_strategy::card::{Card, Suit, Value};
use poker_strategy::rank::{compute_rank, Rank, SameKind, StraightFlushDetails};
use std::cmp::Ordering;

fn card(s: &str) -> Card {
    let mut chars = s.chars();
    let v = chars.next().unwrap();
    let u = chars.next().unwrap();
    Card::try_from((v, u)).unwrap()
}

fn hand(cards: &[&str]) -> Vec<Card> {
    cards.iter().map(|c| card(c)).collect()
}

fn permutations(items: &[Card]) -> Vec<Vec<Card>> {
    if items.len() <= 1 {
        return vec![items.to_vec()];
    }
    let mut out = Vec::new();
    for i in 0..items.len() {
        let mut rest = items.to_vec();
        let first = rest.remove(i);
        for mut tail in permutations(&rest) {
            tail.insert(0, first);
            out.push(tail);
        }
    }
    out
}

#[test]
fn royal_flush_of_spades() {
    assert_eq!(compute_rank(hand(&["AS", "KS", "QS", "JS", "TS"])), Rank::RoyalFlush(Suit::Spade));
}

#[test]
fn mixed_suit_straight() {
    assert_eq!(
        compute_rank(hand(&["9H", "8S", "7C", "6D", "5H"])),
        Rank::Straight { high: Value::Nine, suit: Suit::Heart }
    );
}

#[test]
fn four_nines() {
    assert_eq!(compute_rank(hand(&["9H", "9S", "9C", "9D", "2H"])), Rank::FourOfAKind(Value::Nine));
}

#[test]
fn gap_is_no_straight() {
    assert_eq!(compute_rank(hand(&["2H", "3S", "4C", "5D", "7H"])), Rank::HighCard(Value::Seven));
}

#[test]
fn ace_is_never_low() {
    assert_eq!(compute_rank(hand(&["AH", "2S", "3C", "4D", "5H"])), Rank::HighCard(Value::Ace));
}

#[test]
fn straight_flush_below_ace() {
    assert_eq!(
        compute_rank(hand(&["9D", "KD", "QD", "JD", "TD"])),
        Rank::StraightFlush(StraightFlushDetails { high: Value::King, suit: Suit::Diamond })
    );
    assert_eq!(
        compute_rank(hand(&["6C", "2C", "3C", "4C", "5C"])),
        Rank::StraightFlush(StraightFlushDetails { high: Value::Six, suit: Suit::Club })
    );
}

#[test]
fn full_house_and_two_pair() {
    assert_eq!(
        compute_rank(hand(&["3H", "KS", "3C", "KD", "3D"])),
        Rank::FullHouse { three_of_a_kind: Value::Three, pair: Value::King }
    );
    assert_eq!(
        compute_rank(hand(&["3H", "KS", "3C", "KD", "7D"])),
        Rank::TwoPair { a: Value::King, b: Value::Three }
    );
}

#[test]
fn flush_three_pair_high() {
    assert_eq!(compute_rank(hand(&["2H", "9H", "JH", "4H", "7H"])), Rank::Flush(Value::Jack));
    assert_eq!(compute_rank(hand(&["8H", "8S", "8C", "KD", "2D"])), Rank::ThreeOfAKind(Value::Eight));
    assert_eq!(compute_rank(hand(&["QH", "3S", "QC", "KD", "2D"])), Rank::Pair(Value::Queen));
    assert_eq!(compute_rank(hand(&["QH", "3S", "9C", "KD", "2D"])), Rank::HighCard(Value::King));
}

#[test]
fn rank_ignores_card_order() {
    let hands = [
        hand(&["AS", "KS", "QS", "JS", "TS"]),
        hand(&["9H", "8S", "7C", "6D", "5H"]),
        hand(&["3H", "KS", "3C", "KD", "3D"]),
        hand(&["3H", "KS", "3C", "KD", "7D"]),
        hand(&["QH", "3S", "QC", "KD", "2D"]),
        hand(&["2H", "9H", "JH", "4H", "7H"]),
    ];
    for h in hands.iter() {
        let expected = compute_rank(h.clone());
        let all = permutations(h);
        assert_eq!(all.len(), 120);
        for p in all {
            assert_eq!(compute_rank(p), expected);
        }
    }
}

#[test]
fn strength_follows_the_categories() {
    let ladder = [
        Rank::HighCard(Value::Ace),
        Rank::Pair(Value::Two),
        Rank::Pair(Value::Ace),
        Rank::TwoPair { a: Value::Four, b: Value::Two },
        Rank::TwoPair { a: Value::Four, b: Value::Three },
        Rank::ThreeOfAKind(Value::Two),
        Rank::Straight { high: Value::Six, suit: Suit::Club },
        Rank::Flush(Value::Seven),
        Rank::FullHouse { three_of_a_kind: Value::Two, pair: Value::Ace },
        Rank::FullHouse { three_of_a_kind: Value::Three, pair: Value::Two },
        Rank::FourOfAKind(Value::Two),
        Rank::StraightFlush(StraightFlushDetails { high: Value::Six, suit: Suit::Heart }),
        Rank::StraightFlush(StraightFlushDetails { high: Value::King, suit: Suit::Heart }),
        Rank::RoyalFlush(Suit::Diamond),
    ];
    for i in 0..ladder.len() {
        for j in 0..ladder.len() {
            assert_eq!(ladder[i].compare(&ladder[j]), i.cmp(&j), "{:?} vs {:?}", ladder[i], ladder[j]);
        }
    }
    assert_eq!(Rank::RoyalFlush(Suit::Heart).compare(&Rank::RoyalFlush(Suit::Spade)), Ordering::Equal);
    assert_eq!(
        Rank::Straight { high: Value::Nine, suit: Suit::Heart }
            .compare(&Rank::Straight { high: Value::Nine, suit: Suit::Club }),
        Ordering::Equal
    );
}

#[test]
fn same_kind_orders_by_amount_then_value() {
    let pair_ace = SameKind { value: Value::Ace, amount: 2 };
    let trip_two = SameKind { value: Value::Two, amount: 3 };
    let pair_two = SameKind { value: Value::Two, amount: 2 };
    assert_eq!(pair_ace.compare(&trip_two), Ordering::Less);
    assert_eq!(pair_ace.compare(&pair_two), Ordering::Greater);
    assert_eq!(pair_two.compare(&pair_two), Ordering::Equal);
}

#[test]
fn straight_flush_details_from_card() {
    let d = StraightFlushDetails::from(card("QD"));
    assert_eq!(d, StraightFlushDetails { high: Value::Queen, suit: Suit::Diamond });
}
