use vstd::prelude::*;
use vstd::arithmetic::power2::{pow2, lemma2_to64, lemma2_to64_rest};
use crate::block::{ComputedBlock, ComputedMove, Pattern, copy_positions};
use crate::card::Card;
use crate::combine::{combos, combinations_of, lemma_combos};
use crate::paytable::{Paytable, MAX_PAYOUT};
use crate::rank::{compute_rank, rank_of};

verus! {

/// A deck holds at most this many cards.
pub const DECK_LIMIT: usize = 52;

/// The summed payout over all ways to complete a hand, and how many ways
/// there are. The expected score is `total / draws`.
#[derive(PartialEq, Eq, Structural, Debug, Clone, Copy)]
pub struct ExpectedScore {
    pub total: u128,
    pub draws: u128,
}

impl ExpectedScore {
    /// Bounds that every expectation over a deck of at most 52 cards meets.
    pub open spec fn bounded(self) -> bool {
        &&& self.draws <= pow2(52)
        &&& self.total <= MAX_PAYOUT as int * self.draws
    }

    /// This expectation is strictly higher than `other`'s.
    pub fn exceeds(&self, other: &ExpectedScore) -> (r: bool)
        requires
            self.bounded(),
            other.bounded(),
        ensures
            r == (self.total * other.draws > other.total * self.draws),
    {
        proof {
            lemma2_to64_rest();
            let (t1, d1, t2, d2) = (self.total as int, self.draws as int, other.total as int, other.draws as int);
            assert(t1 * d2 <= 65535 * 0x10000000000000 * 0x10000000000000) by (nonlinear_arith)
                requires t1 <= 65535 * d1, d1 <= 0x10000000000000, 0 <= d2 <= 0x10000000000000, 0 <= t1;
            assert(t2 * d1 <= 65535 * 0x10000000000000 * 0x10000000000000) by (nonlinear_arith)
                requires t2 <= 65535 * d2, d2 <= 0x10000000000000, 0 <= d1 <= 0x10000000000000, 0 <= t2;
        }
        self.total * other.draws > other.total * self.draws
    }
}

/// The ways to complete the kept cards to five from the remaining deck.
pub open spec fn draws_for(kept: Seq<Card>, remaining: Seq<Card>) -> Seq<Seq<Card>> {
    combos(remaining, (5 - kept.len()) as nat)
}

/// The summed payout of the kept cards completed by each draw.
pub open spec fn total_score(t: Paytable, kept: Seq<Card>, draws: Seq<Seq<Card>>) -> int
    decreases draws.len(),
{
    if draws.len() == 0 {
        0
    } else {
        total_score(t, kept, draws.drop_last()) + t.score_of(rank_of(kept + draws.last()))
    }
}

/// Joins two runs of cards.
fn join(a: &Vec<Card>, b: &Vec<Card>) -> (r: Vec<Card>)
    ensures
        r@ == a@ + b@,
{
    let mut r: Vec<Card> = Vec::new();
    let mut i: usize = 0;
    while i < a.len()
        invariant
            0 <= i <= a@.len(),
            r@ == a@.take(i as int),
        decreases a@.len() - i,
    {
        r.push(a[i]);
        i = i + 1;
        assert(r@ =~= a@.take(i as int));
    }
    let mut j: usize = 0;
    while j < b.len()
        invariant
            0 <= j <= b@.len(),
            r@ == a@ + b@.take(j as int),
        decreases b@.len() - j,
    {
        r.push(b[j]);
        j = j + 1;
        assert(r@ =~= a@ + b@.take(j as int));
    }
    assert(b@.take(b@.len() as int) =~= b@);
    r
}

/// The expected score of keeping `kept` and drawing the rest from `remaining`,
/// over every way to draw, under the table `t`.
pub fn calculate_avg_score(t: &Paytable, kept: &Vec<Card>, remaining: &Vec<Card>) -> (e: ExpectedScore)
    requires
        kept@.len() <= 5,
        remaining@.len() <= DECK_LIMIT,
    ensures
        e.total == total_score(*t, kept@, draws_for(kept@, remaining@)),
        e.draws == draws_for(kept@, remaining@).len(),
        e.bounded(),
{
    let need = 5 - kept.len();
    let draws = combinations_of(remaining, need);
    let ghost all = draws_for(kept@, remaining@);
    proof {
        lemma_combos(remaining@, need as nat);
        if remaining@.len() < 52 {
            vstd::arithmetic::power2::lemma_pow2_strictly_increases(remaining@.len(), 52);
        }
        lemma2_to64();
        lemma2_to64_rest();
    }
    let mut total: u128 = 0;
    let mut i: usize = 0;
    while i < draws.len()
        invariant
            0 <= i <= draws@.len(),
            draws@.len() == all.len(),
            all.len() <= pow2(52),
            pow2(52) == 0x10000000000000,
            forall|k: int| 0 <= k < draws@.len() ==> #[trigger] draws@[k]@ == all[k],
            forall|k: int| 0 <= k < all.len() ==> (#[trigger] all[k]).len() == need,
            need == 5 - kept@.len(),
            all == draws_for(kept@, remaining@),
            total == total_score(*t, kept@, all.take(i as int)),
            total <= MAX_PAYOUT as int * i,
        decreases draws@.len() - i,
    {
        let hand = join(kept, &draws[i]);
        assert(draws@[i as int]@ == all[i as int]);
        let score = t.score(&compute_rank(hand));
        proof {
            assert(all.take(i + 1).drop_last() =~= all.take(i as int));
            assert(all.take(i + 1).last() == all[i as int]);
        }
        total = total + score as u128;
        i = i + 1;
    }
    assert(all.take(draws@.len() as int) =~= all);
    ExpectedScore { total, draws: draws.len() as u128 }
}

/// The positions of a shown hand.
pub open spec fn positions() -> Seq<usize> {
    seq![0usize, 1, 2, 3, 4]
}

/// The ways to keep cards of a shown hand: first by how many are kept, from
/// none to all five, then in lexicographic order of positions.
pub open spec fn options_upto(k: nat) -> Seq<Seq<usize>>
    decreases k,
{
    if k == 0 {
        Seq::empty()
    } else {
        options_upto((k - 1) as nat) + combos(positions(), (k - 1) as nat)
    }
}

/// Every way to keep cards of a shown hand, in the order they are tried.
pub open spec fn keep_options() -> Seq<Seq<usize>> {
    options_upto(6)
}

/// The cards at the given positions of a shown hand.
pub open spec fn picked(shown: Seq<Card>, keep: Seq<usize>) -> Seq<Card> {
    keep.map_values(|i: usize| shown[i as int])
}

/// The summed payout of keeping the cards at positions `o`.
pub open spec fn option_total(t: Paytable, shown: Seq<Card>, remaining: Seq<Card>, o: Seq<usize>) -> int {
    total_score(t, picked(shown, o), draws_for(picked(shown, o), remaining))
}

/// The number of ways to draw after keeping the cards at positions `o`.
pub open spec fn option_draws(shown: Seq<Card>, remaining: Seq<Card>, o: Seq<usize>) -> int {
    draws_for(picked(shown, o), remaining).len() as int
}

/// The best choice among the options, tried in order: an option replaces
/// the one held so far only when its expected score is strictly higher.
/// Before any option, nothing is kept, at an expected score of zero.
pub open spec fn best_of(t: Paytable, shown: Seq<Card>, remaining: Seq<Card>, opts: Seq<Seq<usize>>) -> (
    Seq<usize>,
    int,
    int,
)
    decreases opts.len(),
{
    if opts.len() == 0 {
        (Seq::empty(), 0, 1)
    } else {
        let (keep, total, draws) = best_of(t, shown, remaining, opts.drop_last());
        let o = opts.last();
        let o_total = option_total(t, shown, remaining, o);
        let o_draws = option_draws(shown, remaining, o);
        if o_total * draws > total * o_draws {
            (o, o_total, o_draws)
        } else {
            (keep, total, draws)
        }
    }
}

/// The positions of the shown hand whose keeping gives the highest expected
/// score; among equal scores the first option tried wins.
pub open spec fn optimal_keep(t: Paytable, shown: Seq<Card>, remaining: Seq<Card>) -> Seq<usize> {
    best_of(t, shown, remaining, keep_options()).0
}

fn pick(shown: &Pattern, keep: &Vec<usize>) -> (r: Vec<Card>)
    requires
        forall|k: int| 0 <= k < keep@.len() ==> keep@[k] < 5,
    ensures
        r@ == picked(shown@, keep@),
{
    let mut r: Vec<Card> = Vec::new();
    let mut i: usize = 0;
    while i < keep.len()
        invariant
            0 <= i <= keep@.len(),
            forall|k: int| 0 <= k < keep@.len() ==> keep@[k] < 5,
            r@ == picked(shown@, keep@.take(i as int)),
        decreases keep@.len() - i,
    {
        r.push(shown[keep[i]]);
        i = i + 1;
        assert(r@ =~= picked(shown@, keep@.take(i as int)));
    }
    assert(keep@.take(keep@.len() as int) =~= keep@);
    r
}

/// Finds which cards of the shown hand to keep for the highest expected
/// score, drawing from `remaining`.
pub fn calculate_optimal(t: &Paytable, remaining: &Vec<Card>, shown: &Pattern) -> (m: ComputedMove)
    requires
        remaining@.len() <= DECK_LIMIT,
    ensures
        m.pattern == *shown,
        m.keep@ == optimal_keep(*t, shown@, remaining@),
{
    let mut idx: Vec<usize> = Vec::new();
    idx.push(0);
    idx.push(1);
    idx.push(2);
    idx.push(3);
    idx.push(4);
    assert(idx@ =~= positions());
    let mut best: Vec<usize> = Vec::new();
    let mut best_score = ExpectedScore { total: 0, draws: 1 };
    proof {
        lemma2_to64();
        lemma2_to64_rest();
        assert(options_upto(0) =~= Seq::<Seq<usize>>::empty());
    }
    let mut k: usize = 0;
    while k <= 5
        invariant
            0 <= k <= 6,
            idx@ == positions(),
            best_score.bounded(),
            (best@, best_score.total as int, best_score.draws as int) == best_of(
                *t,
                shown@,
                remaining@,
                options_upto(k as nat),
            ),
            remaining@.len() <= DECK_LIMIT,
        decreases 6 - k,
    {
        let opts = combinations_of(&idx, k);
        let ghost these = combos(positions(), k as nat);
        proof {
            lemma_combos(positions(), k as nat);
            assert(these.take(0) =~= Seq::<Seq<usize>>::empty());
            assert(options_upto(k as nat) + these.take(0) =~= options_upto(k as nat));
        }
        let mut j: usize = 0;
        while j < opts.len()
            invariant
                0 <= k <= 5,
                0 <= j <= opts@.len(),
                idx@ == positions(),
                these == combos(positions(), k as nat),
                opts@.len() == these.len(),
                forall|i: int| 0 <= i < opts@.len() ==> #[trigger] opts@[i]@ == these[i],
                forall|i: int, l: int|
                    0 <= i < these.len() && 0 <= l < k ==> positions().contains(#[trigger] these[i][l]),
                forall|i: int| 0 <= i < these.len() ==> (#[trigger] these[i]).len() == k,
                best_score.bounded(),
                (best@, best_score.total as int, best_score.draws as int) == best_of(
                    *t,
                    shown@,
                    remaining@,
                    options_upto(k as nat) + these.take(j as int),
                ),
                remaining@.len() <= DECK_LIMIT,
            decreases opts@.len() - j,
        {
            let ghost o = these[j as int];
            assert(opts@[j as int]@ == o);
            assert forall|l: int| 0 <= l < o.len() implies o[l] < 5 by {
                assert(positions().contains(these[j as int][l]));
            }
            let kept = pick(shown, &opts[j]);
            let score = calculate_avg_score(t, &kept, remaining);
            proof {
                let prefix = options_upto(k as nat) + these.take(j + 1);
                assert(prefix.drop_last() =~= options_upto(k as nat) + these.take(j as int));
                assert(prefix.last() == o);
            }
            if score.exceeds(&best_score) {
                best = copy_positions(&opts[j]);
                best_score = score;
            }
            j = j + 1;
        }
        assert(these.take(opts@.len() as int) =~= these);
        assert(options_upto((k + 1) as nat) == options_upto(k as nat) + these);
        k = k + 1;
    }
    ComputedMove { pattern: *shown, keep: best }
}

/// The deck without the cards of the shown hand, in deck order.
pub open spec fn remaining_after(deck: Seq<Card>, shown: Seq<Card>) -> Seq<Card>
    decreases deck.len(),
{
    if deck.len() == 0 {
        Seq::empty()
    } else {
        let rest = remaining_after(deck.drop_last(), shown);
        if shown.contains(deck.last()) {
            rest
        } else {
            rest.push(deck.last())
        }
    }
}

fn shows(shown: &Pattern, c: &Card) -> (r: bool)
    ensures
        r == shown@.contains(*c),
{
    let mut i: usize = 0;
    while i < 5
        invariant
            0 <= i <= 5,
            shown@.len() == 5,
            forall|k: int| 0 <= k < i ==> shown@[k] != *c,
        decreases 5 - i,
    {
        if shown[i] == *c {
            return true;
        }
        i = i + 1;
    }
    false
}

fn remove_shown(deck: &Vec<Card>, shown: &Pattern) -> (r: Vec<Card>)
    ensures
        r@ == remaining_after(deck@, shown@),
        r@.len() <= deck@.len(),
{
    let mut r: Vec<Card> = Vec::new();
    let mut i: usize = 0;
    while i < deck.len()
        invariant
            0 <= i <= deck@.len(),
            r@ == remaining_after(deck@.take(i as int), shown@),
            r@.len() <= i,
        decreases deck@.len() - i,
    {
        assert(deck@.take(i + 1).drop_last() =~= deck@.take(i as int));
        if !shows(shown, &deck[i]) {
            r.push(deck[i]);
        }
        i = i + 1;
    }
    assert(deck@.take(deck@.len() as int) =~= deck@);
    r
}

/// Computes the best move for each pattern of a block, drawing from the deck
/// without that pattern's cards. The moves come in the order of the patterns.
pub fn compute_combinations(t: &Paytable, deck: &Vec<Card>, combinations: &Vec<Pattern>) -> (b: ComputedBlock)
    requires
        deck@.len() <= DECK_LIMIT,
    ensures
        b.moves@.len() == combinations@.len(),
        forall|i: int|
            0 <= i < combinations@.len() ==> (#[trigger] b.moves@[i]).pattern == combinations@[i]
                && b.moves@[i].keep@ == optimal_keep(*t, combinations@[i]@, remaining_after(deck@, combinations@[i]@)),
{
    let mut moves: Vec<ComputedMove> = Vec::new();
    let mut i: usize = 0;
    while i < combinations.len()
        invariant
            0 <= i <= combinations@.len(),
            deck@.len() <= DECK_LIMIT,
            moves@.len() == i,
            forall|k: int|
                0 <= k < i ==> (#[trigger] moves@[k]).pattern == combinations@[k]
                    && moves@[k].keep@ == optimal_keep(*t, combinations@[k]@, remaining_after(deck@, combinations@[k]@)),
        decreases combinations@.len() - i,
    {
        let remaining = remove_shown(deck, &combinations[i]);
        let m = calculate_optimal(t, &remaining, &combinations[i]);
        moves.push(m);
        i = i + 1;
    }
    ComputedBlock { moves }
}

proof fn lemma_total_nonnegative(t: Paytable, kept: Seq<Card>, draws: Seq<Seq<Card>>)
    ensures
        total_score(t, kept, draws) >= 0,
    decreases draws.len(),
{
    if draws.len() > 0 {
        lemma_total_nonnegative(t, kept, draws.drop_last());
    }
}

/// No option tried has a higher expected score than the one chosen:
/// `total / draws` of every option is at most that of the choice, whose
/// number of draws is positive.
pub proof fn lemma_best_is_maximal(t: Paytable, shown: Seq<Card>, remaining: Seq<Card>, opts: Seq<Seq<usize>>)
    ensures
        best_of(t, shown, remaining, opts).2 > 0,
        best_of(t, shown, remaining, opts).1 >= 0,
        forall|k: int|
            0 <= k < opts.len() ==> #[trigger] option_total(t, shown, remaining, opts[k]) * best_of(
                t,
                shown,
                remaining,
                opts,
            ).2 <= best_of(t, shown, remaining, opts).1 * option_draws(shown, remaining, opts[k]),
    decreases opts.len(),
{
    if opts.len() > 0 {
        let prev = opts.drop_last();
        lemma_best_is_maximal(t, shown, remaining, prev);
        let (keep, bt, bd) = best_of(t, shown, remaining, prev);
        let o = opts.last();
        let ot = option_total(t, shown, remaining, o);
        let od = option_draws(shown, remaining, o);
        lemma_total_nonnegative(t, picked(shown, o), draws_for(picked(shown, o), remaining));
        let (_, nt, nd) = best_of(t, shown, remaining, opts);
        if ot * bd > bt * od {
            assert(od > 0) by {
                if od == 0 {
                    assert(draws_for(picked(shown, o), remaining).len() == 0);
                    assert(ot == 0);
                    assert(ot * bd == 0);
                    assert(bt * od == 0);
                }
            }
            assert forall|k: int| 0 <= k < opts.len() implies #[trigger] option_total(
                t,
                shown,
                remaining,
                opts[k],
            ) * nd <= nt * option_draws(shown, remaining, opts[k]) by {
                if k < opts.len() - 1 {
                    assert(opts[k] == prev[k]);
                    let kt = option_total(t, shown, remaining, prev[k]);
                    let kd = option_draws(shown, remaining, prev[k]);
                    assert(kt * bd <= bt * kd);
                    assert(kd >= 0);
                    assert(kt * od <= ot * kd) by (nonlinear_arith)
                        requires
                            kt * bd <= bt * kd,
                            bt * od < ot * bd,
                            bd > 0,
                            od > 0,
                            kd >= 0,
                    ;
                } else {
                    assert(opts[k] == o);
                }
            }
        } else {
            assert forall|k: int| 0 <= k < opts.len() implies #[trigger] option_total(
                t,
                shown,
                remaining,
                opts[k],
            ) * nd <= nt * option_draws(shown, remaining, opts[k]) by {
                if k < opts.len() - 1 {
                    assert(opts[k] == prev[k]);
                } else {
                    assert(opts[k] == o);
                }
            }
        }
    }
}

} // verus!
