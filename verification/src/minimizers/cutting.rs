use vstd::prelude::*;

use crate::minimizers::{acceptable, acceptable_view, Minimizer};
use crate::mutators::within_limits;
use crate::program::{lemma_kept_len, without_marked, Program, ProgramView};

verus! {

/// The marks that drop the last `length` of `total` instructions.
pub open spec fn suffix_marks(total: nat, length: nat) -> Seq<bool> {
    Seq::new(total, |i: int| i >= total - length)
}

/// The lengths a cut of `start` instructions goes through when each is rejected: `start`, half
/// of it, half of that, down to one.
pub open spec fn halving(start: nat, length: nat) -> bool
    decreases start,
{
    start > 0 && (length == start || halving(start / 2, length))
}

/// `p` without its last `length` instructions.
pub open spec fn cut_view(p: ProgramView, length: nat) -> ProgramView {
    ProgramView {
        context: p.context,
        instructions: without_marked(p.instructions, suffix_marks(p.instructions.len(), length)),
    }
}

/// The acceptable cuts of `p` whose lengths a run of rejections from `start` goes through.
pub open spec fn cuts_from(p: ProgramView, start: nat) -> Set<ProgramView> {
    Set::new(|q: ProgramView| exists|length: nat| #[trigger] halving(start, length) && q == cut_view(p, length) && acceptable_view(q))
}

/// The cuts a cutting minimizer tries on `p`: half of it off the end, then a quarter, and so
/// on down to one instruction, each one the builder accepts.
pub open spec fn cut_family(p: ProgramView) -> Set<ProgramView> {
    cuts_from(p, p.instructions.len() / 2)
}

proof fn lemma_cuts_step(p: ProgramView, start: nat)
    requires
        start > 0,
    ensures
        forall|q: ProgramView| #[trigger] cuts_from(p, start).contains(q)
            ==> q == cut_view(p, start) || cuts_from(p, start / 2).contains(q),
        acceptable_view(cut_view(p, start)) ==> cuts_from(p, start).contains(cut_view(p, start)),
        forall|q: ProgramView| #[trigger] cuts_from(p, start / 2).contains(q) ==> cuts_from(p, start).contains(q),
{
    assert forall|q: ProgramView| #[trigger] cuts_from(p, start / 2).contains(q) implies cuts_from(p, start).contains(q) by {
        let length = choose|length: nat| #[trigger] halving(start / 2, length) && q == cut_view(p, length) && acceptable_view(q);
        assert(halving(start, length));
    }
    assert forall|q: ProgramView| #[trigger] cuts_from(p, start).contains(q)
        implies q == cut_view(p, start) || cuts_from(p, start / 2).contains(q) by {
        let length = choose|length: nat| #[trigger] halving(start, length) && q == cut_view(p, length) && acceptable_view(q);
        if length != start {
            assert(halving(start / 2, length));
        }
    }
    if acceptable_view(cut_view(p, start)) {
        assert(halving(start, start));
    }
}

proof fn lemma_no_cuts_from_nothing(p: ProgramView)
    ensures
        forall|q: ProgramView| !(#[trigger] cuts_from(p, 0).contains(q)),
{
    assert forall|q: ProgramView| !(#[trigger] cuts_from(p, 0).contains(q)) by {
        if cuts_from(p, 0).contains(q) {
            let length = choose|length: nat| #[trigger] halving(0, length) && q == cut_view(p, length) && acceptable_view(q);
        }
    }
}

/// Removes a run of instructions from the end, halving the run each time it is rejected.
///
/// Cutting is what takes a long program down quickly; nopping then removes what is left one
/// instruction at a time.
pub struct CuttingMinimizer {
    program: Program,
    candidate: Option<Program>,
    length: usize,
}

impl CuttingMinimizer {
    /// How many instructions the next cut takes off the end.
    pub closed spec fn cut(&self) -> nat {
        self.length as nat
    }
}

impl Minimizer for CuttingMinimizer {
    closed spec fn spec_current(&self) -> ProgramView {
        self.program@
    }

    closed spec fn proposed(&self) -> Option<ProgramView> {
        match self.candidate {
            Some(c) => Some(c@),
            None => None,
        }
    }

    closed spec fn inv(&self) -> bool {
        &&& within_limits(self.program@)
        &&& 2 * self.length <= self.program@.instructions.len()
        &&& self.candidate matches Some(c) ==> {
            &&& within_limits(c@)
            &&& c@.is_valid()
            &&& c@.context == self.program@.context
            &&& c@.instructions.len() < self.program@.instructions.len()
            &&& self.length > 0
        }
    }

    closed spec fn remaining(&self) -> nat {
        self.program@.instructions.len() + self.length as nat
    }

    open spec fn family(p: ProgramView) -> Set<ProgramView> {
        cut_family(p)
    }

    closed spec fn todo(&self) -> Set<ProgramView> {
        cuts_from(self.program@, if self.candidate is Some { self.length as nat / 2 } else { self.length as nat })
    }

    fn new(program: Program) -> (m: Self)
        ensures
            m.cut() == program@.instructions.len() / 2,
    {
        let length = program.instructions.len() / 2;
        Self { program, candidate: None, length }
    }

    fn next(&mut self) -> (c: Option<Program>)
        ensures
            c matches Some(p) ==> exists|length: nat| 0 < length <= old(self).cut()
                && p@.instructions == without_marked(old(self).spec_current().instructions, suffix_marks(old(self).spec_current().instructions.len(), length)),
            c matches Some(p) ==> p@.instructions.len() < old(self).spec_current().instructions.len(),
            c is None ==> final(self).cut() == 0,
    {
        let ghost a = self.program@.instructions;
        let ghost p0 = self.program@;
        let ghost start = self.length;
        proof {
            if old(self).candidate is Some && old(self).length > 0 {
                lemma_cuts_step(p0, old(self).length as nat);
            }
        }
        self.candidate = None;
        while self.length > 0
            invariant
                within_limits(self.program@),
                a == self.program@.instructions,
                p0 == self.program@,
                self.program@ == old(self).program@,
                self.candidate is None,
                self.length <= start,
                start == old(self).length,
                2 * self.length <= a.len(),
                forall|q: ProgramView| #[trigger] old(self).todo().contains(q) ==> cuts_from(p0, self.length as nat).contains(q),
            decreases self.length,
        {
            let total = self.program.instructions.len();
            let cut = self.length;
            let mut remove: Vec<bool> = Vec::new();
            let mut i: usize = 0;
            while i < total
                invariant
                    total == a.len(),
                    cut <= total,
                    i <= total,
                    remove@ == Seq::new(i as nat, |j: int| j >= total - cut),
                decreases total - i,
            {
                remove.push(i >= total - cut);
                i = i + 1;
                assert(remove@ =~= Seq::new(i as nat, |j: int| j >= total - cut));
            }
            let candidate = self.program.without(remove.as_slice());
            proof {
                lemma_kept_len(a, remove@, crate::program::renumbering(a, remove@));
                assert(remove@ =~= suffix_marks(a.len(), cut as nat));
                assert(candidate@ == cut_view(p0, cut as nat));
                lemma_cuts_step(p0, cut as nat);
            }
            if acceptable(&candidate) {
                proof {
                    assert(0 <= total - 1 < a.len() && !crate::program::is_kept(remove@, total - 1));
                }
                self.candidate = Some(candidate.clone());
                return Some(candidate);
            }
            self.length = self.length / 2;
        }
        proof {
            lemma_no_cuts_from_nothing(p0);
        }
        None
    }

    fn success(&mut self) {
        match self.candidate.take() {
            Some(candidate) => {
                self.program = candidate;
                let half = self.program.instructions.len() / 2;
                if half < self.length {
                    self.length = half;
                }
            },
            None => {},
        }
    }

    fn failure(&mut self) {
        self.candidate = None;
        self.length = self.length / 2;
    }

    fn current(&self) -> (p: &Program) {
        &self.program
    }
}

} // verus!
