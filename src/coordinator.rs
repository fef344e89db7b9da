use vstd::prelude::*;
use std::collections::HashMap;
use crate::block::{ComputedBlock, ComputedMove, Pattern, same_pattern, copy_positions};
use crate::card::{Card, Suit, suit_index, value_index};
use crate::block::ComputationBlock;
use crate::card::deck_order;
use crate::combine::{combos, combinations_of, lemma_combos, lemma_combos_len, lemma_five_of_fifty_two};
use crate::lease::{selection, stamped, select_block, stamp, shuffle, lemma_selection};

verus! {

broadcast use vstd::std_specs::hash::group_hash_axioms;

/// A number for each card of the deck, below 52.
pub open spec fn card_code(c: Card) -> int {
    suit_index(c.suit) * 13 + value_index(c.value)
}

/// A number for each pattern: the card codes of its five positions as
/// base-64 digits, the first position lowest.
pub open spec fn code_of(p: Seq<Card>) -> int {
    card_code(p[0]) + 64 * card_code(p[1]) + 4096 * card_code(p[2]) + 262144 * card_code(p[3])
        + 16777216 * card_code(p[4])
}

fn card_number(c: &Card) -> (r: u64)
    ensures
        r as int == card_code(*c),
        r < 52,
{
    let s: u64 = match c.suit {
        Suit::Heart => 0,
        Suit::Spade => 1,
        Suit::Club => 2,
        Suit::Diamond => 3,
    };
    s * 13 + c.value.index() as u64
}

/// The number of a pattern.
pub fn pattern_code(p: &Pattern) -> (r: u64)
    ensures
        r as int == code_of(p@),
{
    card_number(&p[0]) + 64 * card_number(&p[1]) + 4096 * card_number(&p[2]) + 262144 * card_number(
        &p[3],
    ) + 16777216 * card_number(&p[4])
}

/// What is known of each pattern: `None` while it is outstanding, or the
/// positions to keep once its move is in.
pub open spec fn status_view(keeps: Seq<Option<Vec<usize>>>) -> Seq<Option<Seq<usize>>> {
    keeps.map_values(|o: Option<Vec<usize>>| match o {
        Some(v) => Some(v@),
        None => None,
    })
}

/// The cards of each pattern.
pub open spec fn patterns_view(ps: Seq<Pattern>) -> Seq<Seq<Card>> {
    ps.map_values(|p: Pattern| p@)
}

/// How many patterns have their move in.
pub open spec fn completed_count(st: Seq<Option<Seq<usize>>>) -> nat
    decreases st.len(),
{
    if st.len() == 0 {
        0
    } else {
        completed_count(st.drop_last()) + if st.last() is Some { 1nat } else { 0nat }
    }
}

/// How many patterns are still outstanding.
pub open spec fn outstanding_count(st: Seq<Option<Seq<usize>>>) -> nat
    decreases st.len(),
{
    if st.len() == 0 {
        0
    } else {
        outstanding_count(st.drop_last()) + if st.last() is None { 1nat } else { 0nat }
    }
}

/// Every number in the index leads to a pattern of that number among the
/// first `n`, and each of those patterns' numbers is in the index.
pub closed spec fn slots_wf(slots: Map<u64, usize>, ps: Seq<Pattern>, n: int) -> bool {
    &&& forall|k: u64| #[trigger] slots.contains_key(k) ==> slots[k] < n && code_of(ps[slots[k] as int]@)
        == k as int
    &&& forall|i: int| 0 <= i < n ==> slots.contains_key(#[trigger] code_of(ps[i]@) as u64)
}

/// Pattern numbers fit in 30 bits.
pub proof fn lemma_code_bound(p: Seq<Card>)
    ensures
        0 <= code_of(p) < 0x40000000,
{
    assert(0 <= card_code(p[0]) < 52 && 0 <= card_code(p[1]) < 52 && 0 <= card_code(p[2]) < 52 && 0
        <= card_code(p[3]) < 52 && 0 <= card_code(p[4]) < 52) by {
        crate::card::lemma_value_index_round_trip(p[0].value);
        crate::card::lemma_value_index_round_trip(p[1].value);
        crate::card::lemma_value_index_round_trip(p[2].value);
        crate::card::lemma_value_index_round_trip(p[3].value);
        crate::card::lemma_value_index_round_trip(p[4].value);
        crate::card::lemma_suit_index_round_trip(p[0].suit);
        crate::card::lemma_suit_index_round_trip(p[1].suit);
        crate::card::lemma_suit_index_round_trip(p[2].suit);
        crate::card::lemma_suit_index_round_trip(p[3].suit);
        crate::card::lemma_suit_index_round_trip(p[4].suit);
    }
}

/// Builds the index from pattern numbers to positions.
fn index_patterns(patterns: &Vec<Pattern>) -> (slots: HashMap<u64, usize>)
    ensures
        slots_wf(slots@, patterns@, patterns@.len() as int),
{
    let mut slots: HashMap<u64, usize> = HashMap::new();
    let mut i: usize = 0;
    while i < patterns.len()
        invariant
            0 <= i <= patterns@.len(),
            slots_wf(slots@, patterns@, i as int),
        decreases patterns@.len() - i,
    {
        let code = pattern_code(&patterns[i]);
        proof {
            lemma_code_bound(patterns@[i as int]@);
        }
        slots.insert(code, i);
        proof {
            assert forall|k: u64| #[trigger] slots@.contains_key(k) implies slots@[k] < i + 1 && code_of(
                patterns@[slots@[k] as int]@,
            ) == k as int by {}
            assert forall|m: int| 0 <= m < i + 1 implies slots@.contains_key(
                #[trigger] code_of(patterns@[m]@) as u64,
            ) by {}
        }
        i = i + 1;
    }
    slots
}

/// The work coordinator: a fixed list of patterns, each either outstanding or
/// completed with a move, the time each was last handed out, and an index
/// from pattern numbers to positions.
pub struct Coordinator {
    patterns: Vec<Pattern>,
    keeps: Vec<Option<Vec<usize>>>,
    leases: Vec<Option<u128>>,
    slots: HashMap<u64, usize>,
}

impl Coordinator {
    /// The patterns, in their fixed order.
    pub closed spec fn patterns(self) -> Seq<Seq<Card>> {
        patterns_view(self.patterns@)
    }

    /// For each pattern, `None` while outstanding, else the positions kept.
    pub closed spec fn status(self) -> Seq<Option<Seq<usize>>> {
        status_view(self.keeps@)
    }

    /// For each pattern, when it was last handed out, if ever.
    pub closed spec fn leases(self) -> Seq<Option<u128>> {
        self.leases@
    }

    /// The position at which a submitted pattern is recorded, if any.
    pub closed spec fn slot_of(self, p: Seq<Card>) -> Option<int> {
        let k = code_of(p) as u64;
        if 0 <= code_of(p) < 0x40000000 && self.slots@.contains_key(k) && 0 <= self.slots@[k] < self.patterns@.len()
            && self.patterns@[self.slots@[k] as int]@ == p {
            Some(self.slots@[k] as int)
        } else {
            None
        }
    }

    pub closed spec fn wf(self) -> bool {
        &&& self.keeps@.len() == self.patterns@.len()
        &&& self.leases@.len() == self.patterns@.len()
        &&& slots_wf(self.slots@, self.patterns@, self.patterns@.len() as int)
    }

    /// The sizes of the views agree, and a recorded slot holds the pattern.
    pub proof fn lemma_wf(self)
        requires
            self.wf(),
        ensures
            self.status().len() == self.patterns().len(),
            self.leases().len() == self.patterns().len(),
            forall|p: Seq<Card>| #[trigger] self.slot_of(p) is Some ==> 0 <= self.slot_of(p)->0
                < self.patterns().len() && self.patterns()[self.slot_of(p)->0] == p,
    {
    }

    /// The pattern is at an outstanding position.
    pub open spec fn is_outstanding(self, p: Seq<Card>) -> bool {
        exists|i: int| 0 <= i < self.patterns().len() && self.status()[i] is None && #[trigger] self.patterns()[i] == p
    }

    /// What a move does to the status: it completes its pattern if that
    /// pattern is known and still outstanding, and is dropped otherwise.
    pub open spec fn apply_move(self, st: Seq<Option<Seq<usize>>>, m: ComputedMove) -> Seq<Option<Seq<usize>>> {
        match self.slot_of(m.pattern@) {
            Some(i) => if st[i] is None {
                st.update(i, Some(m.keep@))
            } else {
                st
            },
            None => st,
        }
    }

    /// The status after the moves, applied in order.
    pub open spec fn after_moves(self, st: Seq<Option<Seq<usize>>>, moves: Seq<ComputedMove>) -> Seq<
        Option<Seq<usize>>,
    >
        decreases moves.len(),
    {
        if moves.len() == 0 {
            st
        } else {
            self.apply_move(self.after_moves(st, moves.drop_last()), moves.last())
        }
    }

    /// A coordinator for the given patterns, all outstanding, none handed out.
    pub fn new(patterns: Vec<Pattern>) -> (c: Coordinator)
        ensures
            c.wf(),
            c.patterns() == patterns_view(patterns@),
            c.status() == Seq::new(patterns@.len(), |i: int| None::<Seq<usize>>),
            c.leases() == Seq::new(patterns@.len(), |i: int| None::<u128>),
    {
        let mut keeps: Vec<Option<Vec<usize>>> = Vec::new();
        let mut leases: Vec<Option<u128>> = Vec::new();
        let mut i: usize = 0;
        while i < patterns.len()
            invariant
                0 <= i <= patterns@.len(),
                keeps@.len() == i,
                leases@.len() == i,
                forall|k: int| 0 <= k < i ==> keeps@[k] is None,
                forall|k: int| 0 <= k < i ==> leases@[k] is None,
            decreases patterns@.len() - i,
        {
            keeps.push(None);
            leases.push(None);
            i = i + 1;
        }
        let slots = index_patterns(&patterns);
        let c = Coordinator { patterns, keeps, leases, slots };
        assert(c.status() =~= Seq::new(c.patterns@.len(), |i: int| None::<Seq<usize>>));
        assert(c.leases() =~= Seq::new(c.patterns@.len(), |i: int| None::<u128>));
        c
    }

    /// How many patterns are outstanding and how many completed. Together
    /// they are always all of the patterns.
    pub fn counts(&self) -> (r: (usize, usize))
        requires
            self.wf(),
        ensures
            r.0 == outstanding_count(self.status()),
            r.1 == completed_count(self.status()),
            r.0 + r.1 == self.patterns().len(),
    {
        let ghost st = self.status();
        let mut o: usize = 0;
        let mut d: usize = 0;
        let mut i: usize = 0;
        while i < self.keeps.len()
            invariant
                0 <= i <= self.keeps@.len(),
                st == status_view(self.keeps@),
                st.len() == self.keeps@.len(),
                o == outstanding_count(st.take(i as int)),
                d == completed_count(st.take(i as int)),
                o + d == i,
            decreases self.keeps@.len() - i,
        {
            assert(st.take(i + 1).drop_last() =~= st.take(i as int));
            if self.keeps[i].is_some() {
                d = d + 1;
            } else {
                o = o + 1;
            }
            i = i + 1;
        }
        assert(st.take(st.len() as int) =~= st);
        (o, d)
    }

    /// Takes in a worker's moves. Each completes its pattern if that pattern
    /// is still outstanding; a move for a pattern that is unknown or already
    /// completed is dropped. Nothing else changes.
    pub fn submit_block(&mut self, block: &ComputedBlock)
        requires
            old(self).wf(),
        ensures
            final(self).wf(),
            final(self).patterns() == old(self).patterns(),
            final(self).leases() == old(self).leases(),
            forall|p: Seq<Card>| #[trigger] final(self).slot_of(p) == old(self).slot_of(p),
            final(self).status() == old(self).after_moves(old(self).status(), block.moves@),
    {
        let ghost start = *self;
        let mut j: usize = 0;
        while j < block.moves.len()
            invariant
                0 <= j <= block.moves@.len(),
                self.wf(),
                self.patterns == start.patterns,
                self.leases == start.leases,
                self.slots == start.slots,
                start.wf(),
                self.status() == start.after_moves(start.status(), block.moves@.take(j as int)),
            decreases block.moves@.len() - j,
        {
            let m = &block.moves[j];
            proof {
                assert(block.moves@.take(j + 1).drop_last() =~= block.moves@.take(j as int));
                assert(block.moves@.take(j + 1).last() == *m);
                assert(self.status().len() == self.keeps@.len());
            }
            let code = pattern_code(&m.pattern);
            match self.slots.get(&code) {
                Some(i) => {
                    let i = *i;
                    if same_pattern(&self.patterns[i], &m.pattern) && self.keeps[i].is_none() {
                        let keep = copy_positions(&m.keep);
                        self.keeps.set(i, Some(keep));
                        assert(self.status() =~= start.after_moves(
                            start.status(),
                            block.moves@.take(j + 1),
                        ));
                    } else {
                        assert(self.status() =~= start.after_moves(
                            start.status(),
                            block.moves@.take(j + 1),
                        ));
                    }
                },
                None => {},
            }
            j = j + 1;
        }
        assert(block.moves@.take(block.moves@.len() as int) =~= block.moves@);
    }
}

impl Coordinator {
    proof fn lemma_after_moves_shape(self, st: Seq<Option<Seq<usize>>>, moves: Seq<ComputedMove>)
        requires
            self.wf(),
            st.len() == self.patterns().len(),
        ensures
            self.after_moves(st, moves).len() == st.len(),
            forall|i: int| 0 <= i < st.len() && st[i] is Some ==> #[trigger] self.after_moves(st, moves)[i] == st[i],
            forall|k: int|
                0 <= k < moves.len() && self.slot_of(#[trigger] moves[k].pattern@) is Some ==> self.after_moves(
                    st,
                    moves,
                )[self.slot_of(moves[k].pattern@)->0] is Some,
        decreases moves.len(),
    {
        self.lemma_wf();
        if moves.len() > 0 {
            let rest = moves.drop_last();
            self.lemma_after_moves_shape(st, rest);
            let mid = self.after_moves(st, rest);
            assert forall|k: int|
                0 <= k < moves.len() && self.slot_of(#[trigger] moves[k].pattern@) is Some implies self.after_moves(
                st,
                moves,
            )[self.slot_of(moves[k].pattern@)->0] is Some by {
                let i = self.slot_of(moves[k].pattern@)->0;
                let last = moves.last();
                if k < moves.len() - 1 {
                    assert(moves[k] == rest[k]);
                    assert(self.slot_of(rest[k].pattern@) is Some);
                    assert(mid[i] is Some);
                    match self.slot_of(last.pattern@) {
                        Some(j) => {
                            if mid[j] is None {
                                assert(j != i);
                                assert(mid.update(j, Some(last.keep@))[i] == mid[i]);
                            }
                        },
                        None => {},
                    }
                } else {
                    assert(moves[k] == last);
                }
            }
        }
    }

    proof fn lemma_after_moves_settled(self, st: Seq<Option<Seq<usize>>>, moves: Seq<ComputedMove>)
        requires
            self.wf(),
            st.len() == self.patterns().len(),
            forall|k: int|
                0 <= k < moves.len() && self.slot_of(#[trigger] moves[k].pattern@) is Some ==> st[self.slot_of(
                    moves[k].pattern@,
                )->0] is Some,
        ensures
            self.after_moves(st, moves) == st,
        decreases moves.len(),
    {
        if moves.len() > 0 {
            let rest = moves.drop_last();
            assert forall|k: int|
                0 <= k < rest.len() && self.slot_of(#[trigger] rest[k].pattern@) is Some implies st[self.slot_of(
                rest[k].pattern@,
            )->0] is Some by {
                assert(rest[k] == moves[k]);
                assert(self.slot_of(moves[k].pattern@) is Some);
            }
            self.lemma_after_moves_settled(st, rest);
            assert(moves.last() == moves[moves.len() - 1]);
        }
    }

    /// Submitting the same moves a second time changes nothing: the status
    /// after two submissions is the status after one.
    pub proof fn lemma_submit_idempotent(self, st: Seq<Option<Seq<usize>>>, moves: Seq<ComputedMove>)
        requires
            self.wf(),
            st.len() == self.patterns().len(),
        ensures
            self.after_moves(self.after_moves(st, moves), moves) == self.after_moves(st, moves),
    {
        self.lemma_after_moves_shape(st, moves);
        self.lemma_after_moves_settled(self.after_moves(st, moves), moves);
    }
}

/// The positions of the outstanding patterns, in order.
pub open spec fn outstanding_positions(st: Seq<Option<Seq<usize>>>) -> Seq<usize>
    decreases st.len(),
{
    if st.len() == 0 {
        Seq::empty()
    } else {
        let r = outstanding_positions(st.drop_last());
        if st.last() is None {
            r.push((st.len() - 1) as usize)
        } else {
            r
        }
    }
}

proof fn lemma_outstanding_positions(st: Seq<Option<Seq<usize>>>)
    requires
        st.len() <= usize::MAX,
    ensures
        forall|x: usize| #[trigger] outstanding_positions(st).contains(x) ==> x < st.len() && st[x as int] is None,
    decreases st.len(),
{
    if st.len() > 0 {
        let rest = st.drop_last();
        lemma_outstanding_positions(rest);
        let r = outstanding_positions(rest);
        assert forall|x: usize| #[trigger] outstanding_positions(st).contains(x) implies x < st.len()
            && st[x as int] is None by {
            if st.last() is None {
                let pushed = r.push((st.len() - 1) as usize);
                let k = choose|k: int| 0 <= k < pushed.len() && #[trigger] pushed[k] == x;
                if k < r.len() {
                    assert(r[k] == x);
                    assert(r.contains(x));
                    assert(rest[x as int] == st[x as int]);
                }
            } else {
                assert(r.contains(x));
                assert(rest[x as int] == st[x as int]);
            }
        }
    }
}

impl Coordinator {
    fn outstanding(&self) -> (r: Vec<usize>)
        requires
            self.wf(),
        ensures
            r@ == outstanding_positions(self.status()),
    {
        let ghost st = self.status();
        let mut r: Vec<usize> = Vec::new();
        let mut i: usize = 0;
        while i < self.keeps.len()
            invariant
                0 <= i <= self.keeps@.len(),
                st == status_view(self.keeps@),
                r@ == outstanding_positions(st.take(i as int)),
            decreases self.keeps@.len() - i,
        {
            assert(st.take(i + 1).drop_last() =~= st.take(i as int));
            if self.keeps[i].is_none() {
                r.push(i);
            }
            i = i + 1;
        }
        assert(st.take(st.len() as int) =~= st);
        r
    }

    /// Hands out up to `n` outstanding patterns at time `now`, under leases
    /// of length `dur`. The outstanding patterns are taken in a random order;
    /// those whose lease has expired come first, and only when they run out
    /// are recently handed out ones offered again, the last set aside first.
    /// The patterns handed out are stamped with `now`; nothing else changes.
    pub fn request_block(&mut self, n: usize, now: u128, dur: u128) -> (b: ComputationBlock)
        requires
            old(self).wf(),
        ensures
            final(self).wf(),
            final(self).patterns() == old(self).patterns(),
            final(self).status() == old(self).status(),
            forall|p: Seq<Card>| #[trigger] final(self).slot_of(p) == old(self).slot_of(p),
            exists|order: Seq<usize>|
                #![trigger order.to_multiset()]
                order.to_multiset() == outstanding_positions(old(self).status()).to_multiset() && {
                    let sel = selection(old(self).leases(), order, n as nat, now, dur);
                    &&& b.patterns@.len() == sel.len()
                    &&& forall|k: int| 0 <= k < sel.len() ==> #[trigger] b.patterns@[k]@ == old(self).patterns()[sel[k] as int]
                    &&& final(self).leases() == stamped(old(self).leases(), sel, now)
                },
            b.patterns@.len() <= n,
            forall|k: int| 0 <= k < b.patterns@.len() ==> old(self).is_outstanding(#[trigger] b.patterns@[k]@),
    {
        let ghost start = *self;
        let total = self.keeps.len();
        let mut cands = self.outstanding();
        let ghost before = cands@;
        shuffle(&mut cands);
        proof {
            let st = self.status();
            lemma_outstanding_positions(st);
            broadcast use vstd::seq_lib::group_to_multiset_ensures;

            assert(cands@.to_multiset().len() == cands@.len());
            assert(before.to_multiset().len() == before.len());
            assert forall|i: int| 0 <= i < cands@.len() implies #[trigger] cands@[i] < self.leases@.len() by {
                assert(cands@.to_multiset().count(cands@[i]) > 0);
                assert(before.to_multiset().count(cands@[i]) > 0);
                assert(before.contains(cands@[i]));
            }
        }
        let sel = select_block(&self.leases, &cands, n, now, dur);
        proof {
            lemma_selection(self.leases@, cands@, n as nat, now, dur);
        }
        stamp(&mut self.leases, &sel, now);
        let mut patterns: Vec<Pattern> = Vec::new();
        let mut k: usize = 0;
        while k < sel.len()
            invariant
                0 <= k <= sel@.len(),
                self.patterns == start.patterns,
                self.keeps == start.keeps,
                self.slots == start.slots,
                start.wf(),
                self.leases@.len() == start.leases@.len(),
                forall|j: int| 0 <= j < sel@.len() ==> cands@.contains(#[trigger] sel@[j]),
                forall|i: int| 0 <= i < cands@.len() ==> #[trigger] cands@[i] < start.leases@.len(),
                patterns@.len() == k,
                forall|j: int| 0 <= j < k ==> #[trigger] patterns@[j]@ == start.patterns()[sel@[j] as int],
            decreases sel@.len() - k,
        {
            assert(cands@.contains(sel@[k as int]));
            patterns.push(self.patterns[sel[k]]);
            k = k + 1;
        }
        let blk = ComputationBlock { patterns };
        proof {
            let st = start.status();
            lemma_outstanding_positions(st);
            broadcast use vstd::seq_lib::group_to_multiset_ensures;

            assert(cands@.to_multiset().len() == cands@.len());
            assert(before.to_multiset().len() == before.len());
            assert(start == *old(self));
            assert forall|j: int| 0 <= j < blk.patterns@.len() implies old(self).is_outstanding(
                #[trigger] blk.patterns@[j]@,
            ) by {
                let x = sel@[j];
                assert(cands@.contains(x));
                assert(cands@.to_multiset().count(x) > 0);
                assert(before.to_multiset().count(x) > 0);
                assert(before.contains(x));
                assert(st[x as int] is None);
                assert(0 <= x < old(self).patterns().len() && old(self).status()[x as int] is None
                    && blk.patterns@[j]@ == old(self).patterns()[x as int]);
            }
        }
        blk
    }
}

/// The outstanding patterns, in order.
pub open spec fn outstanding_of(ps: Seq<Seq<Card>>, st: Seq<Option<Seq<usize>>>) -> Seq<Seq<Card>>
    decreases ps.len(),
{
    if ps.len() == 0 || st.len() == 0 {
        Seq::empty()
    } else {
        let r = outstanding_of(ps.drop_last(), st.drop_last());
        if st.last() is None {
            r.push(ps.last())
        } else {
            r
        }
    }
}

/// The completed patterns with the positions kept, in order.
pub open spec fn completed_of(ps: Seq<Seq<Card>>, st: Seq<Option<Seq<usize>>>) -> Seq<(Seq<Card>, Seq<usize>)>
    decreases ps.len(),
{
    if ps.len() == 0 || st.len() == 0 {
        Seq::empty()
    } else {
        let r = completed_of(ps.drop_last(), st.drop_last());
        if st.last() is Some {
            r.push((ps.last(), st.last()->0))
        } else {
            r
        }
    }
}

/// The moves as pairs of pattern and positions kept.
pub open spec fn moves_view(ms: Seq<ComputedMove>) -> Seq<(Seq<Card>, Seq<usize>)> {
    ms.map_values(|m: ComputedMove| (m.pattern@, m.keep@))
}

/// A durable record of the coordinator's progress: the outstanding patterns
/// and the completed moves.
#[derive(Debug, Clone)]
pub struct Checkpoint {
    pub outstanding: Vec<Pattern>,
    pub completed: Vec<ComputedMove>,
}

impl Coordinator {
    /// The checkpoint records exactly this coordinator's outstanding patterns
    /// and completed moves, each in position order.
    pub open spec fn saved_as(self, cp: Checkpoint) -> bool {
        &&& patterns_view(cp.outstanding@) == outstanding_of(self.patterns(), self.status())
        &&& moves_view(cp.completed@) == completed_of(self.patterns(), self.status())
    }

    /// A fresh coordinator over every five-card hand of the deck, each as the
    /// cards in deck order, the hands in lexicographic order of deck positions.
    pub fn fresh() -> (c: Coordinator)
        ensures
            c.wf(),
            c.patterns() == combos(deck_order(), 5),
            c.status() == Seq::new(c.patterns().len(), |i: int| None::<Seq<usize>>),
            c.leases() == Seq::new(c.patterns().len(), |i: int| None::<u128>),
    {
        let deck = Card::full_deck();
        let hands = combinations_of(&deck, 5);
        proof {
            lemma_combos(deck@, 5);
        }
        let mut patterns: Vec<Pattern> = Vec::new();
        let mut i: usize = 0;
        while i < hands.len()
            invariant
                0 <= i <= hands@.len(),
                deck@ == deck_order(),
                hands@.len() == combos(deck@, 5).len(),
                forall|k: int| 0 <= k < hands@.len() ==> #[trigger] hands@[k]@ == combos(deck@, 5)[k],
                forall|k: int| 0 <= k < combos(deck@, 5).len() ==> (#[trigger] combos(deck@, 5)[k]).len() == 5,
                patterns_view(patterns@) == combos(deck@, 5).take(i as int),
            decreases hands@.len() - i,
        {
            let h = &hands[i];
            assert(h@ == combos(deck@, 5)[i as int]);
            let p: Pattern = [h[0], h[1], h[2], h[3], h[4]];
            assert(p@ =~= h@);
            let ghost before = patterns@;
            patterns.push(p);
            assert(patterns@ == before.push(p));
            assert(patterns_view(patterns@) =~= patterns_view(before).push(p@));
            assert(combos(deck@, 5).take(i + 1) =~= combos(deck@, 5).take(i as int).push(combos(deck@, 5)[i as int]));
            i = i + 1;
        }
        assert(combos(deck@, 5).take(hands@.len() as int) =~= combos(deck@, 5));
        Coordinator::new(patterns)
    }

    /// Records the outstanding patterns and completed moves.
    pub fn to_checkpoint(&self) -> (cp: Checkpoint)
        requires
            self.wf(),
        ensures
            self.saved_as(cp),
    {
        let ghost ps = self.patterns();
        let ghost st = self.status();
        let mut outstanding: Vec<Pattern> = Vec::new();
        let mut completed: Vec<ComputedMove> = Vec::new();
        let mut i: usize = 0;
        while i < self.patterns.len()
            invariant
                0 <= i <= self.patterns@.len(),
                self.wf(),
                ps == self.patterns(),
                st == self.status(),
                patterns_view(outstanding@) == outstanding_of(ps.take(i as int), st.take(i as int)),
                moves_view(completed@) == completed_of(ps.take(i as int), st.take(i as int)),
            decreases self.patterns@.len() - i,
        {
            assert(ps.take(i + 1).drop_last() =~= ps.take(i as int));
            assert(st.take(i + 1).drop_last() =~= st.take(i as int));
            match &self.keeps[i] {
                None => {
                    outstanding.push(self.patterns[i]);
                    assert(patterns_view(outstanding@) =~= outstanding_of(ps.take(i + 1), st.take(i + 1)));
                },
                Some(keep) => {
                    let m = ComputedMove { pattern: self.patterns[i], keep: copy_positions(keep) };
                    completed.push(m);
                    assert(moves_view(completed@) =~= completed_of(ps.take(i + 1), st.take(i + 1)));
                },
            }
            i = i + 1;
        }
        assert(ps.take(ps.len() as int) =~= ps);
        assert(st.take(st.len() as int) =~= st);
        Checkpoint { outstanding, completed }
    }

    /// Restores a coordinator from a checkpoint: its outstanding patterns
    /// first, then its completed moves, none handed out.
    pub fn from_checkpoint(cp: &Checkpoint) -> (c: Coordinator)
        ensures
            c.wf(),
            c.saved_as(*cp),
            c.leases() == Seq::new(c.patterns().len(), |i: int| None::<u128>),
    {
        let mut patterns: Vec<Pattern> = Vec::new();
        let mut keeps: Vec<Option<Vec<usize>>> = Vec::new();
        let mut leases: Vec<Option<u128>> = Vec::new();
        let mut i: usize = 0;
        while i < cp.outstanding.len()
            invariant
                0 <= i <= cp.outstanding@.len(),
                patterns@.len() == keeps@.len() && keeps@.len() == leases@.len(),
                forall|k: int| 0 <= k < leases@.len() ==> leases@[k] is None,
                outstanding_of(patterns_view(patterns@), status_view(keeps@)) == patterns_view(cp.outstanding@).take(i as int),
                completed_of(patterns_view(patterns@), status_view(keeps@)) == Seq::<(Seq<Card>, Seq<usize>)>::empty(),
            decreases cp.outstanding@.len() - i,
        {
            let ghost (ps_before, st_before) = (patterns_view(patterns@), status_view(keeps@));
            patterns.push(cp.outstanding[i]);
            keeps.push(None);
            leases.push(None);
            proof {
                assert(patterns_view(patterns@).drop_last() =~= ps_before);
                assert(status_view(keeps@).drop_last() =~= st_before);
                assert(outstanding_of(patterns_view(patterns@), status_view(keeps@)) =~= patterns_view(
                    cp.outstanding@,
                ).take(i + 1));
            }
            i = i + 1;
        }
        assert(patterns_view(cp.outstanding@).take(cp.outstanding@.len() as int) =~= patterns_view(cp.outstanding@));
        let mut j: usize = 0;
        while j < cp.completed.len()
            invariant
                0 <= j <= cp.completed@.len(),
                patterns@.len() == keeps@.len() && keeps@.len() == leases@.len(),
                forall|k: int| 0 <= k < leases@.len() ==> leases@[k] is None,
                outstanding_of(patterns_view(patterns@), status_view(keeps@)) == patterns_view(cp.outstanding@),
                completed_of(patterns_view(patterns@), status_view(keeps@)) == moves_view(cp.completed@).take(j as int),
            decreases cp.completed@.len() - j,
        {
            let ghost (ps_before, st_before) = (patterns_view(patterns@), status_view(keeps@));
            let m = &cp.completed[j];
            patterns.push(m.pattern);
            keeps.push(Some(copy_positions(&m.keep)));
            leases.push(None);
            proof {
                assert(patterns_view(patterns@).drop_last() =~= ps_before);
                assert(status_view(keeps@).drop_last() =~= st_before);
                assert(completed_of(patterns_view(patterns@), status_view(keeps@)) =~= moves_view(
                    cp.completed@,
                ).take(j + 1));
            }
            j = j + 1;
        }
        assert(moves_view(cp.completed@).take(cp.completed@.len() as int) =~= moves_view(cp.completed@));
        let slots = index_patterns(&patterns);
        let c = Coordinator { patterns, keeps, leases, slots };
        assert(c.leases() =~= Seq::new(c.patterns().len(), |i: int| None::<u128>));
        c
    }
}

/// Saving a coordinator and restoring it from the checkpoint reproduces the
/// same outstanding patterns and the same completed moves.
pub proof fn lemma_checkpoint_round_trip(saved: Coordinator, cp: Checkpoint, restored: Coordinator)
    requires
        saved.saved_as(cp),
        restored.saved_as(cp),
    ensures
        outstanding_of(restored.patterns(), restored.status()) == outstanding_of(saved.patterns(), saved.status()),
        completed_of(restored.patterns(), restored.status()) == completed_of(saved.patterns(), saved.status()),
{
}

/// Each pattern is counted once, as outstanding or as completed.
pub proof fn lemma_counts_partition(st: Seq<Option<Seq<usize>>>)
    ensures
        outstanding_count(st) + completed_count(st) == st.len(),
    decreases st.len(),
{
    if st.len() > 0 {
        lemma_counts_partition(st.drop_last());
    }
}

/// Requests and submissions never create or destroy a pattern: between two
/// states over the same patterns, outstanding and completed together stay the
/// same, and from a fresh start over the whole deck they are always 2,598,960.
pub proof fn lemma_total_is_invariant(before: Coordinator, after: Coordinator)
    requires
        before.wf(),
        after.wf(),
        after.patterns() == before.patterns(),
    ensures
        outstanding_count(after.status()) + completed_count(after.status()) == outstanding_count(
            before.status(),
        ) + completed_count(before.status()),
        before.patterns() == combos(deck_order(), 5) ==> outstanding_count(after.status()) + completed_count(
            after.status(),
        ) == 2598960,
{
    before.lemma_wf();
    after.lemma_wf();
    lemma_counts_partition(before.status());
    lemma_counts_partition(after.status());
    lemma_combos_len(deck_order(), 5);
    lemma_five_of_fifty_two();
}

} // verus!
