use poker_strategy::block::{ComputedBlock, ComputedMove, Pattern};
use poker_strategy::card::Card;
use poker_strategy::coordinator::{pattern_code, Checkpoint, Coordinator};
use poker_strategy::protocol::LAST_SENT_TIMEOUT;

fn card(s: &str) -> Card {
    let mut chars = s.chars();
    let v = chars.next().unwrap();
    let u = chars.next().unwrap();
    Card::try_from((v, u)).unwrap()
}

fn pattern(list: [&str; 5]) -> Pattern {
    [card(list[0]), card(list[1]), card(list[2]), card(list[3]), card(list[4])]
}

fn three() -> Vec<Pattern> {
    vec![
        pattern(["AS", "KS", "QS", "JS", "TS"]),
        pattern(["2H", "3D", "4C", "8H", "9H"]),
        pattern(["JH", "JS", "2C", "5D", "9H"]),
    ]
}

fn keeps_of(cp: &Checkpoint) -> Vec<(Pattern, Vec<usize>)> {
    cp.completed.iter().map(|m| (m.pattern, m.keep.clone())).collect()
}

#[test]
fn totals_stay_constant() {
    let ps = three();
    let mut c = Coordinator::new(ps.clone());
    assert_eq!(c.counts(), (3, 0));
    let b = c.request_block(2, 1_000, LAST_SENT_TIMEOUT);
    assert_eq!(b.patterns.len(), 2);
    assert_eq!(c.counts(), (3, 0));
    c.submit_block(&ComputedBlock { moves: vec![ComputedMove { pattern: ps[0], keep: vec![0, 1, 2, 3, 4] }] });
    assert_eq!(c.counts(), (2, 1));
    let (o, d) = c.counts();
    assert_eq!(o + d, 3);
}

#[test]
fn resubmission_changes_nothing() {
    let ps = three();
    let mut c = Coordinator::new(ps.clone());
    let block = ComputedBlock {
        moves: vec![
            ComputedMove { pattern: ps[2], keep: vec![0, 1] },
            ComputedMove { pattern: ps[2], keep: vec![4] },
        ],
    };
    c.submit_block(&block);
    let once = c.to_checkpoint();
    c.submit_block(&block);
    let twice = c.to_checkpoint();
    assert_eq!(once.outstanding, twice.outstanding);
    assert_eq!(keeps_of(&once), keeps_of(&twice));
    // the first move for a pattern wins
    assert_eq!(keeps_of(&twice), vec![(ps[2], vec![0, 1])]);
    assert_eq!(c.counts(), (2, 1));
}

#[test]
fn unknown_or_reordered_patterns_are_dropped() {
    let ps = three();
    let mut c = Coordinator::new(ps.clone());
    let reordered = pattern(["JS", "JH", "2C", "5D", "9H"]);
    let unknown = pattern(["2S", "3S", "4S", "5S", "7D"]);
    c.submit_block(&ComputedBlock {
        moves: vec![ComputedMove { pattern: reordered, keep: vec![] }, ComputedMove { pattern: unknown, keep: vec![] }],
    });
    assert_eq!(c.counts(), (3, 0));
}

#[test]
fn block_is_bounded_and_outstanding() {
    let ps = three();
    let mut c = Coordinator::new(ps.clone());
    c.submit_block(&ComputedBlock { moves: vec![ComputedMove { pattern: ps[1], keep: vec![] }] });
    for n in 0..5 {
        let b = c.request_block(n, 10_000_000 * (n as u128 + 1), LAST_SENT_TIMEOUT);
        assert!(b.patterns.len() <= n);
        assert_eq!(b.patterns.len(), n.min(2));
        for p in b.patterns.iter() {
            assert!(*p == ps[0] || *p == ps[2]);
        }
    }
}

#[test]
fn leased_patterns_come_back_when_fresh_ones_run_out() {
    let ps = three();
    let mut c = Coordinator::new(ps.clone());
    let first = c.request_block(2, 1_000, LAST_SENT_TIMEOUT);
    assert_eq!(first.patterns.len(), 2);
    // one never-leased pattern is left; the rest of the demand is met by leased ones
    let second = c.request_block(2, 2_000, LAST_SENT_TIMEOUT);
    assert_eq!(second.patterns.len(), 2);
    let never: Vec<&Pattern> = ps.iter().filter(|p| !first.patterns.contains(p)).collect();
    assert_eq!(never.len(), 1);
    assert_eq!(second.patterns[0], *never[0]);
    assert!(first.patterns.contains(&second.patterns[1]));
    // once the lease has run out, every pattern is fresh again
    let third = c.request_block(3, 2_000 + LAST_SENT_TIMEOUT + 1, LAST_SENT_TIMEOUT);
    assert_eq!(third.patterns.len(), 3);
    for p in ps.iter() {
        assert!(third.patterns.contains(p));
    }
}

#[test]
fn recent_lease_is_skipped_while_fresh_ones_remain() {
    let ps = three();
    let mut c = Coordinator::new(ps.clone());
    let first = c.request_block(1, 5_000, LAST_SENT_TIMEOUT);
    let second = c.request_block(2, 6_000, LAST_SENT_TIMEOUT);
    assert_eq!(second.patterns.len(), 2);
    assert!(!second.patterns.contains(&first.patterns[0]));
}

#[test]
fn checkpoint_round_trip() {
    let ps = three();
    let mut c = Coordinator::new(ps.clone());
    c.submit_block(&ComputedBlock { moves: vec![ComputedMove { pattern: ps[1], keep: vec![2, 3] }] });
    let saved = c.to_checkpoint();
    assert_eq!(saved.outstanding, vec![ps[0], ps[2]]);
    let restored = Coordinator::from_checkpoint(&saved);
    let again = restored.to_checkpoint();
    assert_eq!(again.outstanding, saved.outstanding);
    assert_eq!(keeps_of(&again), keeps_of(&saved));
    assert_eq!(restored.counts(), c.counts());
}

#[test]
fn pattern_numbers_depend_on_position() {
    let a = pattern(["JH", "JS", "2C", "5D", "9H"]);
    let b = pattern(["JS", "JH", "2C", "5D", "9H"]);
    assert_ne!(pattern_code(&a), pattern_code(&b));
    let first = pattern(["2H", "2H", "2H", "2H", "2H"]);
    assert_eq!(pattern_code(&first), 0);
    let last = pattern(["AD", "AD", "AD", "AD", "AD"]);
    assert_eq!(pattern_code(&last), 51 * (1 + 64 + 4096 + 262144 + 16777216));
}

#[test]
fn fresh_covers_every_hand() {
    let c = Coordinator::fresh();
    assert_eq!(c.counts(), (2_598_960, 0));
    let cp = c.to_checkpoint();
    let deck = Card::full_deck();
    assert_eq!(cp.outstanding[0], [deck[0], deck[1], deck[2], deck[3], deck[4]]);
    assert_eq!(cp.outstanding[2_598_959], [deck[47], deck[48], deck[49], deck[50], deck[51]]);
}
