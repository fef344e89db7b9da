use vstd::prelude::*;
use crate::card::Card;

verus! {

/// One concrete five-card hand; the order of its cards is significant.
pub type Pattern = [Card; 5];

/// Compares two patterns position by position.
pub fn same_pattern(a: &Pattern, b: &Pattern) -> (r: bool)
    ensures
        r == (a@ == b@),
{
    let mut i: usize = 0;
    while i < 5
        invariant
            0 <= i <= 5,
            a@.len() == 5 && b@.len() == 5,
            forall|k: int| 0 <= k < i ==> a@[k] == b@[k],
        decreases 5 - i,
    {
        if a[i] != b[i] {
            return false;
        }
        i = i + 1;
    }
    assert(a@ =~= b@);
    true
}

/// Copies a list of positions.
pub fn copy_positions(v: &Vec<usize>) -> (r: Vec<usize>)
    ensures
        r@ == v@,
{
    let mut r: Vec<usize> = Vec::new();
    let mut i: usize = 0;
    while i < v.len()
        invariant
            0 <= i <= v@.len(),
            r@ == v@.take(i as int),
        decreases v@.len() - i,
    {
        r.push(v[i]);
        i = i + 1;
        assert(r@ =~= v@.take(i as int));
    }
    assert(v@.take(v@.len() as int) =~= v@);
    r
}

/// The patterns handed to a worker.
#[derive(Debug, Clone)]
pub struct ComputationBlock {
    pub patterns: Vec<Pattern>,
}

/// The cards of a pattern that a worker would keep, as positions into it.
#[derive(Debug, Clone)]
pub struct ComputedMove {
    /// The pattern of cards shown.
    pub pattern: Pattern,
    /// The positions of the cards to keep.
    pub keep: Vec<usize>,
}

/// Two moves are the same entry when they are for the same pattern,
/// whatever they keep.
impl PartialEq for ComputedMove {
    fn eq(&self, other: &ComputedMove) -> (r: bool)
        ensures
            r == (self.pattern@ == other.pattern@),
    {
        same_pattern(&self.pattern, &other.pattern)
    }
}

impl vstd::std_specs::cmp::PartialEqSpecImpl for ComputedMove {
    open spec fn obeys_eq_spec() -> bool {
        true
    }

    open spec fn eq_spec(&self, other: &ComputedMove) -> bool {
        self.pattern@ == other.pattern@
    }
}

/// A worker's answer to a computation block.
#[derive(Debug, Clone)]
pub struct ComputedBlock {
    pub moves: Vec<ComputedMove>,
}

/// The patterns that a computed block answers, in order.
pub open spec fn answered(b: ComputedBlock) -> Seq<Seq<Card>> {
    b.moves@.map_values(|m: ComputedMove| m.pattern@)
}

impl ComputedBlock {
    /// The block answers exactly the given patterns, in their order.
    pub fn answers(&self, block: &ComputationBlock) -> (r: bool)
        ensures
            r == (answered(*self) == block.patterns@.map_values(|p: Pattern| p@)),
    {
        let ghost want = block.patterns@.map_values(|p: Pattern| p@);
        if self.moves.len() != block.patterns.len() {
            assert(answered(*self).len() != want.len());
            return false;
        }
        let mut i: usize = 0;
        while i < self.moves.len()
            invariant
                0 <= i <= self.moves@.len(),
                self.moves@.len() == block.patterns@.len(),
                want == block.patterns@.map_values(|p: Pattern| p@),
                forall|k: int| 0 <= k < i ==> answered(*self)[k] == want[k],
            decreases self.moves@.len() - i,
        {
            if !same_pattern(&self.moves[i].pattern, &block.patterns[i]) {
                assert(answered(*self)[i as int] != want[i as int]);
                return false;
            }
            i = i + 1;
        }
        assert(answered(*self) =~= want);
        true
    }
}

} // verus!
