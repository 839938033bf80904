//! Feedback from inside the target, alongside what a run did through the protocol.
//!
//! The behaviour signature says what a run drew out of the target; an observer says what it
//! touched in there. The two coexist: a program earns a corpus slot by being new to either.
use vstd::prelude::*;

verus! {

/// What a run touched inside the target.
pub trait Observer {
    /// Clear what the previous run left, so that the next run's record is its own.
    fn reset(&mut self);

    /// Take in what the run touched. Returns whether it reached anything no earlier run had.
    fn observe(&mut self) -> bool;

    /// How much any run has reached so far, in the observer's own unit.
    fn seen(&self) -> usize;

    fn name(&self) -> &'static str;
}

/// No feedback from inside the target, which is the case for a binary that is not
/// instrumented: the behaviour signature is then all there is.
pub struct NoObserver;

impl Observer for NoObserver {
    fn reset(&mut self) {
    }

    fn observe(&mut self) -> (b: bool)
        ensures
            !b,
    {
        false
    }

    fn seen(&self) -> (n: usize)
        ensures
            n == 0,
    {
        0
    }

    fn name(&self) -> (n: &'static str)
        ensures
            n@ == "none"@,
    {
        "none"
    }
}

/// How many regions `seen` marks as reached.
pub open spec fn regions_seen(seen: Seq<bool>) -> nat
    decreases seen.len(),
{
    if seen.len() == 0 {
        0
    } else {
        regions_seen(seen.drop_last()) + if seen.last() { 1nat } else { 0nat }
    }
}

proof fn lemma_regions_seen_bound(seen: Seq<bool>)
    ensures
        regions_seen(seen) <= seen.len(),
    decreases seen.len(),
{
    if seen.len() > 0 {
        lemma_regions_seen_bound(seen.drop_last());
    }
}

proof fn lemma_regions_seen_mark(seen: Seq<bool>, i: int)
    requires
        0 <= i < seen.len(),
        !seen[i],
    ensures
        regions_seen(seen.update(i, true)) == regions_seen(seen) + 1,
    decreases seen.len(),
{
    let marked = seen.update(i, true);
    if i == seen.len() - 1 {
        assert(marked.drop_last() =~= seen.drop_last());
    } else {
        lemma_regions_seen_mark(seen.drop_last(), i);
        assert(marked.drop_last() =~= seen.drop_last().update(i, true));
    }
}

/// Region coverage from the compiler's own instrumentation: which of the binary's code
/// regions any run has reached.
///
/// Built with `-C instrument-coverage`, every crate in the binary counts how often each of its
/// code regions ran, in one array the profiler runtime owns. Each run hands in what that array
/// held when it ended; a region counts as reached when its counter is not zero.
pub struct LlvmCoverage {
    /// Which regions any run has reached.
    seen: Vec<bool>,
    seen_count: usize,
}

impl LlvmCoverage {
    /// Which regions any run has reached, one flag per region.
    pub closed spec fn spec_seen(&self) -> Seq<bool> {
        self.seen@
    }

    pub closed spec fn wf(&self) -> bool {
        self.seen_count == regions_seen(self.seen@)
    }

    /// Coverage of `regions` regions, none of them reached yet.
    pub fn new(regions: usize) -> (c: Self)
        ensures
            c.wf(),
            c.spec_seen() == Seq::new(regions as nat, |i: int| false),
    {
        let mut seen: Vec<bool> = Vec::new();
        let mut i: usize = 0;
        while i < regions
            invariant
                i <= regions,
                seen@ == Seq::new(i as nat, |k: int| false),
                regions_seen(seen@) == 0,
            decreases regions - i,
        {
            proof {
                assert(seen@.push(false).drop_last() =~= seen@);
            }
            seen.push(false);
            i = i + 1;
            assert(seen@ =~= Seq::new(i as nat, |k: int| false));
        }
        LlvmCoverage { seen, seen_count: 0 }
    }

    /// How many regions the counters cover.
    pub fn regions(&self) -> (n: usize)
        ensures
            n == self.spec_seen().len(),
    {
        self.seen.len()
    }

    /// The regions that ran, by what the counters hold since the last reset.
    pub fn hits(&self, counters: &[u64]) -> (hit: Vec<usize>)
        requires
            counters@.len() == self.spec_seen().len(),
        ensures
            forall|k: int| 0 <= k < hit@.len() ==> (#[trigger] hit@[k]) < counters@.len() && counters@[hit@[k] as int] != 0,
            forall|k: int, j: int| 0 <= k < j < hit@.len() ==> hit@[k] < hit@[j],
            forall|r: int| 0 <= r < counters@.len() && counters@[r] != 0 ==> exists|k: int| 0 <= k < hit@.len() && hit@[k] == r,
    {
        let mut hit: Vec<usize> = Vec::new();
        let mut i: usize = 0;
        while i < counters.len()
            invariant
                i <= counters@.len(),
                forall|k: int| 0 <= k < hit@.len() ==> (#[trigger] hit@[k]) < i && counters@[hit@[k] as int] != 0,
                forall|k: int, j: int| 0 <= k < j < hit@.len() ==> hit@[k] < hit@[j],
                forall|r: int| 0 <= r < i && counters@[r] != 0 ==> exists|k: int| 0 <= k < hit@.len() && hit@[k] == r,
            decreases counters@.len() - i,
        {
            if counters[i] != 0 {
                let ghost before = hit@;
                hit.push(i);
                proof {
                    assert forall|r: int| 0 <= r < i + 1 && counters@[r] != 0 implies exists|k: int| 0 <= k < hit@.len() && hit@[k] == r by {
                        if r == i {
                            assert(hit@[before.len() as int] == r);
                        } else {
                            let k = choose|k: int| 0 <= k < before.len() && before[k] == r;
                            assert(hit@[k] == r);
                        }
                    }
                }
            }
            i = i + 1;
        }
        hit
    }

    /// Take in what a run's counters hold. Returns whether it reached a region no earlier run
    /// had.
    pub fn observe(&mut self, counters: &[u64]) -> (new: bool)
        requires
            old(self).wf(),
            counters@.len() == old(self).spec_seen().len(),
        ensures
            final(self).wf(),
            final(self).spec_seen().len() == old(self).spec_seen().len(),
            forall|r: int| 0 <= r < counters@.len() ==> #[trigger] final(self).spec_seen()[r] == (old(self).spec_seen()[r] || counters@[r] != 0),
            new == exists|r: int| 0 <= r < counters@.len() && !old(self).spec_seen()[r] && counters@[r] != 0,
    {
        let ghost before = self.seen@;
        let mut new = false;
        let mut i: usize = 0;
        while i < counters.len()
            invariant
                i <= counters@.len(),
                counters@.len() == before.len(),
                self.seen@.len() == before.len(),
                self.seen_count == regions_seen(self.seen@),
                forall|r: int| 0 <= r < i ==> #[trigger] self.seen@[r] == (before[r] || counters@[r] != 0),
                forall|r: int| i <= r < before.len() ==> #[trigger] self.seen@[r] == before[r],
                new == exists|r: int| 0 <= r < i && !before[r] && counters@[r] != 0,
            decreases counters@.len() - i,
        {
            if !self.seen[i] && counters[i] != 0 {
                proof {
                    lemma_regions_seen_mark(self.seen@, i as int);
                    lemma_regions_seen_bound(self.seen@.update(i as int, true));
                }
                self.seen.set(i, true);
                self.seen_count = self.seen_count + 1;
                new = true;
            }
            i = i + 1;
        }
        new
    }

    /// How many regions any run has reached.
    pub fn seen(&self) -> (n: usize)
        requires
            self.wf(),
        ensures
            n == regions_seen(self.spec_seen()),
    {
        self.seen_count
    }

    pub fn name(&self) -> (n: &'static str)
        ensures
            n@ == "llvm-coverage"@,
    {
        "llvm-coverage"
    }
}

} // verus!
