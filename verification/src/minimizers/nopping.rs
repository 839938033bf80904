use vstd::prelude::*;

use crate::minimizers::{acceptable, acceptable_view, has_nop, Minimizer};
use crate::mutators::within_limits;
use crate::instruction::InstructionView;
use crate::program::{instruction_views, Program, ProgramView};

verus! {

/// `after` is `before` with instruction `i`, neither a block delimiter nor a nop, nopped.
pub open spec fn nopped_at(before: Seq<InstructionView>, after: Seq<InstructionView>, i: int) -> bool {
    &&& 0 <= i < before.len()
    &&& !before[i].operation.is_block_begin() && !before[i].operation.is_block_end() && !before[i].operation.is_nop()
    &&& after == before.update(i, before[i].nopped())
}

/// Twice the instructions left to look at from `next` on, and one more while the instruction
/// at `next` is not yet a nop.
pub open spec fn nopping_left(a: Seq<InstructionView>, next: int) -> nat {
    if next < a.len() {
        (2 * (a.len() - next) + if a[next].operation.is_nop() { 0int } else { 1int }) as nat
    } else {
        0
    }
}

/// `p` with instruction `i` nopped.
pub open spec fn nop_view(p: ProgramView, i: int) -> ProgramView {
    ProgramView { context: p.context, instructions: p.instructions.update(i, p.instructions[i].nopped()) }
}

/// The acceptable noppings of `p` at instruction `start` or after it.
pub open spec fn noppings_from(p: ProgramView, start: int) -> Set<ProgramView> {
    Set::new(|q: ProgramView| exists|i: int| #[trigger] nopped_at(p.instructions, q.instructions, i)
        && start <= i && q == nop_view(p, i) && acceptable_view(q))
}

/// The noppings a nopping minimizer tries on `p`: each instruction that is neither a block
/// delimiter nor a nop, replaced by a nop, wherever the builder accepts the result.
pub open spec fn nop_family(p: ProgramView) -> Set<ProgramView> {
    noppings_from(p, 0)
}

/// Replaces one instruction at a time with a nop.
///
/// Nopping keeps every later input index valid, so the program stays runnable no matter which
/// instruction is removed. The nops are dropped once minimization finishes.
pub struct NoppingMinimizer {
    program: Program,
    candidate: Option<Program>,
    next: usize,
}

impl NoppingMinimizer {
    /// The instruction the next candidate is looked for from.
    pub closed spec fn position(&self) -> nat {
        self.next as nat
    }
}

impl Minimizer for NoppingMinimizer {
    closed spec fn spec_current(&self) -> ProgramView {
        self.program@
    }

    closed spec fn proposed(&self) -> Option<ProgramView> {
        match self.candidate {
            Some(c) => Some(c@),
            None => None,
        }
    }

    closed spec fn inv(&self) -> bool {
        &&& within_limits(self.program@)
        &&& self.candidate matches Some(c) ==> {
            &&& within_limits(c@)
            &&& c@.is_valid()
            &&& c@.context == self.program@.context
            &&& self.next < self.program@.instructions.len()
            &&& !self.program@.instructions[self.next as int].operation.is_nop()
            &&& c@.instructions == self.program@.instructions.update(self.next as int, self.program@.instructions[self.next as int].nopped())
        }
    }

    closed spec fn remaining(&self) -> nat {
        nopping_left(self.program@.instructions, self.next as int)
    }

    open spec fn family(p: ProgramView) -> Set<ProgramView> {
        nop_family(p)
    }

    closed spec fn todo(&self) -> Set<ProgramView> {
        noppings_from(self.program@, if self.candidate is Some { self.next + 1 } else { self.next as int })
    }

    fn new(program: Program) -> (m: Self)
        ensures
            m.position() == 0,
    {
        Self { program, candidate: None, next: 0 }
    }

    fn next(&mut self) -> (c: Option<Program>)
        ensures
            c matches Some(p) ==> exists|i: int| nopped_at(old(self).spec_current().instructions, p@.instructions, i) && old(self).position() <= i,
    {
        let ghost a = self.program@.instructions;
        let ghost p0 = self.program@;
        self.candidate = None;
        while self.next < self.program.instructions.len()
            invariant
                within_limits(self.program@),
                a == self.program@.instructions,
                p0 == self.program@,
                self.program@ == old(self).program@,
                self.candidate is None,
                old(self).next <= self.next,
                nopping_left(a, self.next as int) <= nopping_left(a, old(self).next as int),
                forall|q: ProgramView| #[trigger] old(self).todo().contains(q) ==> noppings_from(p0, self.next as int).contains(q),
            decreases a.len() - self.next,
        {
            let index = self.next;
            proof {
                assert forall|q: ProgramView| #[trigger] noppings_from(p0, index as int).contains(q)
                    implies (nopped_at(p0.instructions, q.instructions, index as int) && q == nop_view(p0, index as int) && acceptable_view(q))
                        || noppings_from(p0, index + 1).contains(q) by {
                    let i = choose|i: int| #[trigger] nopped_at(p0.instructions, q.instructions, i)
                        && index <= i && q == nop_view(p0, i) && acceptable_view(q);
                    if i != index {
                        assert(nopped_at(p0.instructions, q.instructions, i) && index + 1 <= i && q == nop_view(p0, i) && acceptable_view(q));
                    }
                }
            }
            let instruction = &self.program.instructions[index];
            if !instruction.is_noppable() {
                self.next = self.next + 1;
                continue;
            }
            if instruction.operation.is_nop() {
                self.next = self.next + 1;
                continue;
            }

            let mut candidate = self.program.clone();
            let mut nopped = candidate.instructions[index].duplicate();
            nopped.nop();
            candidate.instructions.set(index, nopped);
            assert(candidate@.instructions =~= a.update(index as int, a[index as int].nopped()));
            assert(candidate@ == nop_view(p0, index as int));
            if !acceptable(&candidate) {
                self.next = self.next + 1;
                continue;
            }
            assert(!a[index as int].operation.is_block_begin());
            assert(!a[index as int].operation.is_nop());
            assert(old(self).next <= index);
            assert(nopped_at(a, candidate@.instructions, index as int));
            assert(old(self).spec_current().instructions == a);
            assert(nopped_at(old(self).spec_current().instructions, candidate@.instructions, index as int) && old(self).position() <= index);
            assert(exists|i: int| nopped_at(old(self).spec_current().instructions, candidate@.instructions, i) && old(self).position() <= i);
            self.candidate = Some(candidate.clone());
            let r = Some(candidate);
            assert(nopped_at(old(self).spec_current().instructions, r->0@.instructions, index as int));
            assert(r->0@.instructions[index as int].operation.is_nop());
            assert(has_nop(r->0@.instructions));
            return r;
        }
        proof {
            assert forall|q: ProgramView| !(#[trigger] noppings_from(p0, self.next as int).contains(q)) by {
                if noppings_from(p0, self.next as int).contains(q) {
                    let i = choose|i: int| #[trigger] nopped_at(p0.instructions, q.instructions, i)
                        && self.next <= i && q == nop_view(p0, i) && acceptable_view(q);
                }
            }
        }
        None
    }

    fn success(&mut self) {
        match self.candidate.take() {
            Some(candidate) => {
                self.program = candidate;
            },
            None => {},
        }
    }

    fn failure(&mut self) {
        self.candidate = None;
        if self.next < usize::MAX {
            self.next = self.next + 1;
        }
    }

    fn current(&self) -> (p: &Program) {
        &self.program
    }
}

} // verus!
