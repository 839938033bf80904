//! Minimizers propose smaller programs, one at a time.
pub mod block;
pub mod bottom;
pub mod cutting;
pub mod nopping;

use vstd::prelude::*;

use crate::mutators::{is_within_limits, within_limits};
use crate::instruction::InstructionView;
use crate::program::{Program, ProgramView};

verus! {

/// A program a minimizer may propose: valid, and one the minimizers can go on working on.
pub open spec fn acceptable_view(p: ProgramView) -> bool {
    within_limits(p) && p.is_valid()
}

/// Some instruction is a nop.
pub open spec fn has_nop(instrs: Seq<InstructionView>) -> bool {
    exists|i: int| 0 <= i < instrs.len() && (#[trigger] instrs[i]).operation.is_nop()
}

/// Proposes smaller programs, one at a time.
///
/// The caller runs each candidate and reports back whether it still reproduces the failure,
/// so the minimizer can keep the reduction or put it back. Every candidate is a valid program
/// on the same context, so a program that starts out valid stays valid however the reports
/// go.
pub trait Minimizer: Sized {
    /// The smallest program found so far.
    spec fn spec_current(&self) -> ProgramView;

    /// The candidate last proposed and not yet reported on.
    spec fn proposed(&self) -> Option<ProgramView>;

    /// The minimizer's own bookkeeping is consistent.
    spec fn inv(&self) -> bool;

    /// How much work is left: every report on a candidate takes it down, so a caller that
    /// reports on each one runs out of candidates.
    spec fn remaining(&self) -> nat;

    /// Every candidate of this kind that the builder accepts, from `p`: what a minimizer started
    /// on `p` proposes, one by one, as long as none of them is kept.
    spec fn family(p: ProgramView) -> Set<ProgramView>;

    /// The candidates of the current program's family still to be proposed.
    spec fn todo(&self) -> Set<ProgramView>;

    fn new(program: Program) -> (m: Self)
        requires
            within_limits(program@),
        ensures
            m.inv(),
            m.spec_current() == program@,
            m.proposed() is None,
            m.todo() == Self::family(program@),
    ;

    /// The next candidate, if any is left.
    fn next(&mut self) -> (c: Option<Program>)
        requires
            old(self).inv(),
        ensures
            final(self).inv(),
            final(self).spec_current() == old(self).spec_current(),
            final(self).remaining() <= old(self).remaining(),
            c matches Some(p) ==> final(self).proposed() == Some(p@) && p@.is_valid() && p@.context == old(self).spec_current().context,
            c matches Some(p) ==> p@.instructions.len() <= old(self).spec_current().instructions.len(),
            c matches Some(p) ==> within_limits(p@),
            c is None ==> final(self).proposed() is None,
            c matches Some(p) ==> p@.instructions.len() < old(self).spec_current().instructions.len() || has_nop(p@.instructions),
            c is None ==> forall|q: ProgramView| !(#[trigger] old(self).todo().contains(q)),
            c is None ==> forall|q: ProgramView| !(#[trigger] final(self).todo().contains(q)),
            c matches Some(p) ==> forall|q: ProgramView| #[trigger] old(self).todo().contains(q) && q != p@ ==> final(self).todo().contains(q),
    ;

    /// The last candidate still reproduced the failure.
    fn success(&mut self)
        requires
            old(self).inv(),
        ensures
            final(self).inv(),
            final(self).spec_current() == match old(self).proposed() {
                Some(p) => p,
                None => old(self).spec_current(),
            },
            final(self).proposed() is None,
            old(self).proposed() is Some ==> final(self).remaining() < old(self).remaining(),
    ;

    /// The last candidate did not reproduce the failure.
    fn failure(&mut self)
        requires
            old(self).inv(),
        ensures
            final(self).inv(),
            final(self).spec_current() == old(self).spec_current(),
            final(self).proposed() is None,
            old(self).proposed() is Some ==> final(self).remaining() < old(self).remaining(),
            old(self).proposed() is Some ==> forall|q: ProgramView| #[trigger] old(self).todo().contains(q) ==> final(self).todo().contains(q),
    ;

    /// The smallest program found so far.
    fn current(&self) -> (p: &Program)
        ensures
            p@ == self.spec_current(),
    ;
}

/// A candidate worth proposing: valid, and one the minimizers can go on working on.
pub(crate) fn acceptable(candidate: &Program) -> (b: bool)
    requires
        candidate@.instructions.len() + 2 < usize::MAX,
    ensures
        b == (within_limits(candidate@) && candidate@.is_valid()),
{
    if !is_within_limits(candidate) {
        return false;
    }
    proof {
        crate::builder::lemma_buildable_replayable(candidate.context, candidate@.instructions);
    }
    candidate.is_statically_valid()
}

} // verus!
