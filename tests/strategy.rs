use poker_strategy::block::{ComputationBlock, ComputedBlock, ComputedMove, Pattern};
use poker_strategy::card::{Card, Suit, Value};
use poker_strategy::paytable::{calculate_score, Paytable};
use poker_strategy::rank::{Rank, StraightFlushDetails};
use poker_strategy::strategy::{calculate_avg_score, calculate_optimal, compute_combinations};

fn card(s: &str) -> Card {
    let mut chars = s.chars();
    let v = chars.next().unwrap();
    let u = chars.next().unwrap();
    Card::try_from((v, u)).unwrap()
}

fn cards(list: &[&str]) -> Vec<Card> {
    list.iter().map(|c| card(c)).collect()
}

fn pattern(list: &[&str]) -> Pattern {
    let v = cards(list);
    [v[0], v[1], v[2], v[3], v[4]]
}

fn rest_of_deck(shown: &Pattern) -> Vec<Card> {
    Card::full_deck().into_iter().filter(|c| !shown.contains(c)).collect()
}

#[test]
fn jacks_or_better_scores() {
    assert_eq!(calculate_score(Rank::HighCard(Value::Ace)), 0);
    assert_eq!(calculate_score(Rank::Pair(Value::Ten)), 0);
    assert_eq!(calculate_score(Rank::Pair(Value::Jack)), 1);
    assert_eq!(calculate_score(Rank::Pair(Value::Ace)), 1);
    assert_eq!(calculate_score(Rank::TwoPair { a: Value::Three, b: Value::Two }), 2);
    assert_eq!(calculate_score(Rank::ThreeOfAKind(Value::Two)), 3);
    assert_eq!(calculate_score(Rank::Straight { high: Value::Six, suit: Suit::Club }), 4);
    assert_eq!(calculate_score(Rank::Flush(Value::Seven)), 6);
    assert_eq!(calculate_score(Rank::FullHouse { three_of_a_kind: Value::Two, pair: Value::Three }), 9);
    assert_eq!(calculate_score(Rank::FourOfAKind(Value::Two)), 25);
    assert_eq!(
        calculate_score(Rank::StraightFlush(StraightFlushDetails { high: Value::King, suit: Suit::Club })),
        50
    );
    assert_eq!(calculate_score(Rank::RoyalFlush(Suit::Heart)), 250);
}

#[test]
fn average_over_every_draw() {
    let t = Paytable::jacks_or_better();
    let kept = cards(&["JH", "JS", "2C", "5D"]);
    let e = calculate_avg_score(&t, &kept, &cards(&["JC", "3H"]));
    // JC gives three jacks (3), 3H a pair of jacks (1)
    assert_eq!((e.total, e.draws), (4, 2));
    let kept = cards(&["JH", "JS", "2C"]);
    let e = calculate_avg_score(&t, &kept, &cards(&["JC", "3H", "2D"]));
    // JC 3H: three jacks 3; JC 2D: full house 9; 3H 2D: two pair 2
    assert_eq!((e.total, e.draws), (14, 3));
}

#[test]
fn keeping_all_five_has_one_draw() {
    let t = Paytable::jacks_or_better();
    let kept = cards(&["AS", "KS", "QS", "JS", "TS"]);
    let e = calculate_avg_score(&t, &kept, &cards(&["2H", "3H"]));
    assert_eq!((e.total, e.draws), (250, 1));
}

#[test]
fn a_custom_table_changes_the_average() {
    let mut t = Paytable::jacks_or_better();
    t.three_of_a_kind = 10;
    t.min_pair = Value::Two;
    let kept = cards(&["JH", "JS", "2C", "5D"]);
    let e = calculate_avg_score(&t, &kept, &cards(&["JC", "3H"]));
    assert_eq!((e.total, e.draws), (11, 2));
    let a = calculate_avg_score(&t, &cards(&["4H", "4S", "2C", "5D"]), &cards(&["9C", "3H"]));
    assert_eq!((a.total, a.draws), (2, 2));
}

#[test]
fn royal_flush_is_kept_whole() {
    let t = Paytable::jacks_or_better();
    let shown = pattern(&["AS", "KS", "QS", "JS", "TS"]);
    let m = calculate_optimal(&t, &cards(&["2H", "3H", "4D", "7C", "9D"]), &shown);
    assert_eq!(m.pattern, shown);
    assert_eq!(m.keep, vec![0, 1, 2, 3, 4]);
}

#[test]
fn ties_keep_the_first_option() {
    // every option scores zero, so none improves on keeping nothing
    let t = Paytable::jacks_or_better();
    let shown = pattern(&["2H", "5S", "9C", "JD", "KH"]);
    let m = calculate_optimal(&t, &cards(&["3C", "4D", "7S", "8H", "QD"]), &shown);
    assert_eq!(m.keep, Vec::<usize>::new());
}

#[test]
fn jack_pair_is_kept() {
    let t = Paytable::jacks_or_better();
    let shown = pattern(&["JH", "JS", "2C", "5D", "9H"]);
    let remaining = rest_of_deck(&shown);
    assert_eq!(remaining.len(), 47);
    let m = calculate_optimal(&t, &remaining, &shown);
    assert_eq!(m.pattern, shown);
    assert_eq!(m.keep, vec![0, 1]);
}

#[test]
fn block_moves_follow_the_patterns() {
    let t = Paytable::jacks_or_better();
    let deck = cards(&["AS", "KS", "QS", "JS", "TS", "2H", "3D", "4C", "8H", "9H"]);
    let a = pattern(&["AS", "KS", "QS", "JS", "TS"]);
    let b = pattern(&["2H", "3D", "4C", "8H", "9H"]);
    let block = ComputationBlock { patterns: vec![a, b] };
    let done = compute_combinations(&t, &deck, &block.patterns);
    assert_eq!(done.moves.len(), 2);
    assert_eq!(done.moves[0].pattern, a);
    assert_eq!(done.moves[0].keep, vec![0, 1, 2, 3, 4]);
    assert_eq!(done.moves[1].pattern, b);
    assert_eq!(done.moves[1].keep, Vec::<usize>::new());
    assert!(done.answers(&block));
    let other = ComputedBlock { moves: vec![done.moves[1].clone(), done.moves[0].clone()] };
    assert!(!other.answers(&block));
}

#[test]
fn moves_are_equal_by_pattern() {
    let p = pattern(&["JH", "JS", "2C", "5D", "9H"]);
    let q = pattern(&["JS", "JH", "2C", "5D", "9H"]);
    let a = ComputedMove { pattern: p, keep: vec![0, 1] };
    let b = ComputedMove { pattern: p, keep: vec![] };
    let c = ComputedMove { pattern: q, keep: vec![0, 1] };
    assert!(a == b);
    assert!(a != c);
}
