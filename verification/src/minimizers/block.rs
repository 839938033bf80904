use vstd::prelude::*;

use crate::builder::block_depth;
use crate::instruction::InstructionView;
use crate::minimizers::{acceptable, acceptable_view, Minimizer};
use crate::mutators::within_limits;
use crate::program::{is_kept, lemma_kept_len, renumbering, without_marked, Program, ProgramView};

verus! {

/// How far the instructions from `begin` up to, not including, `k` nest blocks.
pub open spec fn depth_between(a: Seq<InstructionView>, begin: int, k: int) -> int {
    block_depth(a.subrange(begin, k))
}

/// Instruction `end` closes the block instruction `begin` opens: the first place after it at
/// which the blocks opened since are all closed again.
pub open spec fn matches_begin(a: Seq<InstructionView>, begin: int, end: int) -> bool {
    &&& 0 <= begin < end < a.len()
    &&& a[begin].operation.is_block_begin()
    &&& a[end].operation.is_block_end()
    &&& depth_between(a, begin, end + 1) == 0
    &&& forall|j: int| begin <= j < end ==> #[trigger] depth_between(a, begin, j + 1) > 0
}

/// The marks that drop instructions `begin` to `end`, both included, of `total`.
pub open spec fn range_marks(total: nat, begin: int, end: int) -> Seq<bool> {
    Seq::new(total, |i: int| begin <= i <= end)
}

/// A block has one end: the first place its depth returns to zero.
proof fn lemma_one_end(a: Seq<InstructionView>, begin: int, e1: int, e2: int)
    requires
        matches_begin(a, begin, e1),
        matches_begin(a, begin, e2),
    ensures
        e1 == e2,
{
    if e1 < e2 {
        assert(depth_between(a, begin, e1 + 1) > 0);
    } else if e2 < e1 {
        assert(depth_between(a, begin, e2 + 1) > 0);
    }
}

/// `p` without the block from `begin` to `end`.
pub open spec fn block_view(p: ProgramView, begin: int, end: int) -> ProgramView {
    ProgramView {
        context: p.context,
        instructions: without_marked(p.instructions, range_marks(p.instructions.len(), begin, end)),
    }
}

/// The acceptable removals of a whole block of `p` that begins at `start` or after it.
pub open spec fn blocks_from(p: ProgramView, start: int) -> Set<ProgramView> {
    Set::new(|q: ProgramView| exists|begin: int, end: int| #[trigger] matches_begin(p.instructions, begin, end)
        && start <= begin && q == block_view(p, begin, end) && acceptable_view(q))
}

/// The removals a block minimizer tries on `p`: each closed block, from its beginning to its
/// end, wherever the builder accepts the result.
pub open spec fn block_family(p: ProgramView) -> Set<ProgramView> {
    blocks_from(p, 0)
}

/// The end of the block `begin` opens, if it is closed.
fn matching_end(program: &Program, begin: usize) -> (r: Option<usize>)
    requires
        begin < program@.instructions.len(),
        program@.instructions[begin as int].operation.is_block_begin(),
    ensures
        r matches Some(end) ==> matches_begin(program@.instructions, begin as int, end as int),
        r is None ==> forall|j: int| begin <= j < program@.instructions.len() ==> #[trigger] depth_between(program@.instructions, begin as int, j + 1) > 0,
{
    let ghost a = program@.instructions;
    let mut depth: usize = 0;
    let mut index: usize = begin;
    assert(a.subrange(begin as int, begin as int) =~= Seq::<InstructionView>::empty());
    while index < program.instructions.len()
        invariant
            a == program@.instructions,
            begin < a.len(),
            a[begin as int].operation.is_block_begin(),
            begin <= index <= a.len(),
            depth == depth_between(a, begin as int, index as int),
            depth <= index - begin,
            index > begin ==> depth > 0,
            forall|j: int| begin <= j < index ==> #[trigger] depth_between(a, begin as int, j + 1) > 0,
        decreases a.len() - index,
    {
        proof {
            assert(a.subrange(begin as int, index + 1).drop_last() =~= a.subrange(begin as int, index as int));
            assert(a.subrange(begin as int, index + 1).last() == a[index as int]);
        }
        let operation = &program.instructions[index].operation;
        if operation.is_block_begin() {
            depth = depth + 1;
        }
        if operation.is_block_end() {
            depth = depth - 1;
            if depth == 0 {
                return Some(index);
            }
        }
        index = index + 1;
    }
    None
}

/// Work left for a program of `total` instructions looked at from `next` on: a removal starts
/// the search over on a shorter program, and a rejection moves it on.
pub open spec fn block_left(total: nat, next: int) -> nat {
    (total * (total + 1) + if next < total { total - next } else { 0 }) as nat
}

/// Removes a whole block, from its beginning to its matching end.
///
/// A block and its contents only make sense together, so nopping cannot take one out: the
/// delimiters are not noppable and removing either alone leaves the scopes unbalanced.
pub struct BlockMinimizer {
    program: Program,
    candidate: Option<Program>,
    next: usize,
}

impl BlockMinimizer {
    /// The instruction the next block is looked for from.
    pub closed spec fn position(&self) -> nat {
        self.next as nat
    }
}

impl Minimizer for BlockMinimizer {
    closed spec fn spec_current(&self) -> ProgramView {
        self.program@
    }

    closed spec fn proposed(&self) -> Option<ProgramView> {
        match self.candidate {
            Some(c) => Some(c@),
            None => None,
        }
    }

    closed spec fn inv(&self) -> bool {
        &&& within_limits(self.program@)
        &&& self.candidate matches Some(c) ==> {
            &&& within_limits(c@)
            &&& c@.is_valid()
            &&& c@.context == self.program@.context
            &&& self.next < self.program@.instructions.len()
            &&& c@.instructions.len() < self.program@.instructions.len()
        }
    }

    closed spec fn remaining(&self) -> nat {
        block_left(self.program@.instructions.len(), self.next as int)
    }

    open spec fn family(p: ProgramView) -> Set<ProgramView> {
        block_family(p)
    }

    closed spec fn todo(&self) -> Set<ProgramView> {
        blocks_from(self.program@, if self.candidate is Some { self.next + 1 } else { self.next as int })
    }

    fn new(program: Program) -> (m: Self)
        ensures
            m.position() == 0,
    {
        Self { program, candidate: None, next: 0 }
    }

    fn next(&mut self) -> (c: Option<Program>)
        ensures
            c matches Some(p) ==> exists|begin: int, end: int| {
                &&& old(self).position() <= begin
                &&& #[trigger] matches_begin(old(self).spec_current().instructions, begin, end)
                &&& p@.instructions == without_marked(old(self).spec_current().instructions, range_marks(old(self).spec_current().instructions.len(), begin, end))
            },
            c matches Some(p) ==> p@.instructions.len() < old(self).spec_current().instructions.len(),
    {
        let ghost a = self.program@.instructions;
        let ghost p0 = self.program@;
        self.candidate = None;
        while self.next < self.program.instructions.len()
            invariant
                within_limits(self.program@),
                a == self.program@.instructions,
                p0 == self.program@,
                self.program@ == old(self).program@,
                self.candidate is None,
                old(self).next <= self.next,
                forall|q: ProgramView| #[trigger] old(self).todo().contains(q) ==> blocks_from(p0, self.next as int).contains(q),
            decreases a.len() - self.next,
        {
            let begin = self.next;
            proof {
                assert forall|q: ProgramView| #[trigger] blocks_from(p0, begin as int).contains(q)
                    implies (exists|end: int| #[trigger] matches_begin(a, begin as int, end) && q == block_view(p0, begin as int, end) && acceptable_view(q))
                        || blocks_from(p0, begin + 1).contains(q) by {
                    let (b, e) = choose|b: int, e: int| #[trigger] matches_begin(p0.instructions, b, e)
                        && begin <= b && q == block_view(p0, b, e) && acceptable_view(q);
                    if b != begin {
                        assert(matches_begin(p0.instructions, b, e) && begin + 1 <= b && q == block_view(p0, b, e) && acceptable_view(q));
                    } else {
                        assert(matches_begin(a, begin as int, e));
                    }
                }
            }
            if !self.program.instructions[begin].operation.is_block_begin() {
                self.next = self.next + 1;
                continue;
            }
            let end = match matching_end(&self.program, begin) {
                Some(end) => end,
                None => {
                    self.next = self.next + 1;
                    continue;
                },
            };

            let total = self.program.instructions.len();
            let mut remove: Vec<bool> = Vec::new();
            let mut i: usize = 0;
            while i < total
                invariant
                    total == a.len(),
                    i <= total,
                    remove@ == Seq::new(i as nat, |j: int| begin <= j <= end),
                decreases total - i,
            {
                remove.push(begin <= i && i <= end);
                i = i + 1;
                assert(remove@ =~= Seq::new(i as nat, |j: int| begin <= j <= end));
            }
            let candidate = self.program.without(remove.as_slice());
            proof {
                lemma_kept_len(a, remove@, renumbering(a, remove@));
                assert(remove@ =~= range_marks(a.len(), begin as int, end as int));
                assert(candidate@ == block_view(p0, begin as int, end as int));
                assert forall|e: int| #[trigger] matches_begin(a, begin as int, e) implies e == end by {
                    lemma_one_end(a, begin as int, e, end as int);
                }
            }
            if acceptable(&candidate) {
                proof {
                    assert(remove@ =~= range_marks(a.len(), begin as int, end as int));
                    assert(0 <= begin < a.len() && !is_kept(remove@, begin as int));
                }
                self.candidate = Some(candidate.clone());
                let r = Some(candidate);
                assert(matches_begin(old(self).spec_current().instructions, begin as int, end as int));
                return r;
            }
            self.next = self.next + 1;
        }
        proof {
            assert forall|q: ProgramView| !(#[trigger] blocks_from(p0, self.next as int).contains(q)) by {
                if blocks_from(p0, self.next as int).contains(q) {
                    let (b, e) = choose|b: int, e: int| #[trigger] matches_begin(p0.instructions, b, e)
                        && self.next <= b && q == block_view(p0, b, e) && acceptable_view(q);
                }
            }
        }
        None
    }

    fn success(&mut self) {
        match self.candidate.take() {
            Some(candidate) => {
                proof {
                    let l = self.program@.instructions.len();
                    let k = candidate@.instructions.len();
                    assert(k * (k + 1) + k <= l * (l + 1)) by (nonlinear_arith)
                        requires
                            k < l,
                    ;
                }
                self.program = candidate;
                self.next = 0;
            },
            None => {},
        }
    }

    fn failure(&mut self) {
        self.candidate = None;
        if self.next < usize::MAX {
            self.next = self.next + 1;
        }
    }

    fn current(&self) -> (p: &Program) {
        &self.program
    }
}

} // verus!
