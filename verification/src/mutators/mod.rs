//! Mutators rewrite a program in place; a splicer mixes a second program into it.
pub mod concat;
pub mod generate;
pub mod input;
pub mod operation;

use rand::rngs::SmallRng;
use vstd::prelude::*;

use crate::builder::{block_depth, defined_count, lemma_defined_count_prefix, no_stray_end};
use crate::instruction::InstructionView;
use crate::program::{inputs_in_range, Program, ProgramView};
use crate::random::ExSmallRng;

verus! {

#[derive(Debug, Clone, Copy, PartialEq, Eq, Structural)]
pub enum MutatorError {
    /// The program offers nothing for this mutator to change.
    NoMutationsAvailable,
    /// The mutation produced a program the builder rejects.
    CreatedInvalidProgram,
}

pub type MutatorResult = Result<(), MutatorError>;

/// How many instructions, and how many variables, a program may have, and how many entries a
/// corpus holds.
///
/// 2^28 keeps a program's counts, doubled when two programs are concatenated and with room for
/// the builder's own two scopes, within a 32-bit `usize`; and it keeps the total weight of a
/// corpus, each entry weighing less than 2^70, within the 128 bits the scheduler adds it up in.
pub const SIZE_LIMIT: usize = 0x1000_0000;

/// A program the mutators can work on: no block ends where none is open, every input names a
/// variable the program defines, and its instructions and variables stay within
/// [`SIZE_LIMIT`].
pub open spec fn within_limits(p: ProgramView) -> bool {
    &&& no_stray_end(p.instructions)
    &&& inputs_in_range(p.instructions)
    &&& defined_count(p.instructions) <= SIZE_LIMIT
    &&& p.instructions.len() <= SIZE_LIMIT
}

/// Rewrites a program in place.
///
/// A mutator may leave the program invalid; the caller is expected to check and discard. One
/// that fails leaves the program as it was, and none turns a valid program into an invalid one.
pub trait Mutator {
    fn mutate(&mut self, program: &mut Program, rng: &mut SmallRng) -> (r: MutatorResult)
        requires
            within_limits(old(program)@),
        ensures
            r is Err ==> final(program)@ == old(program)@,
            final(program)@.context == old(program)@.context,
            r is Ok && old(program)@.is_valid() ==> final(program)@.is_valid(),
    ;

    fn name(&self) -> &'static str;
}

/// Mixes a second program into the one being mutated.
pub trait Splicer: Mutator {
    fn splice(&mut self, program: &mut Program, other: &Program, rng: &mut SmallRng) -> (r: MutatorResult)
        requires
            within_limits(old(program)@),
            within_limits(other@),
        ensures
            r is Err ==> final(program)@ == old(program)@,
            final(program)@.context == old(program)@.context,
            r is Ok ==> final(program)@.is_valid(),
    ;
}

/// Whether the program is one the mutators and minimizers can work on.
pub fn is_within_limits(program: &Program) -> (b: bool)
    ensures
        b == within_limits(program@),
{
    let ghost a = program@.instructions;
    if program.instructions.len() > SIZE_LIMIT {
        return false;
    }
    let mut defined: usize = 0;
    let mut depth: usize = 0;
    let mut k: usize = 0;
    while k < program.instructions.len()
        invariant
            a == program@.instructions,
            a.len() <= SIZE_LIMIT,
            k <= a.len(),
            defined == defined_count(a.take(k as int)),
            defined <= SIZE_LIMIT,
            depth == block_depth(a.take(k as int)),
            depth <= k,
            forall|j: int| 0 <= j < k && (#[trigger] a[j]).operation.is_block_end() ==> block_depth(a.take(j)) >= 1,
        decreases a.len() - k,
    {
        proof {
            assert(a.take(k + 1).drop_last() =~= a.take(k as int));
            assert(a.take(k + 1).last() == a[k as int]);
        }
        let operation = &program.instructions[k].operation;
        if operation.is_block_end() {
            if depth == 0 {
                assert(!no_stray_end(a)) by {
                    assert(a[k as int].operation.is_block_end());
                }
                return false;
            }
            depth = depth - 1;
        } else if operation.is_block_begin() {
            depth = depth + 1;
        }
        let outputs = operation.num_outputs();
        let inner_outputs = operation.num_inner_outputs();
        if outputs > SIZE_LIMIT - defined || inner_outputs > SIZE_LIMIT - defined - outputs {
            proof {
                lemma_defined_count_prefix(a, k + 1);
            }
            return false;
        }
        defined = defined + outputs + inner_outputs;
        k = k + 1;
    }
    assert(a.take(a.len() as int) =~= a);
    assert(no_stray_end(a));

    let mut i: usize = 0;
    while i < program.instructions.len()
        invariant
            a == program@.instructions,
            i <= a.len(),
            defined == defined_count(a),
            forall|m: int, j: int| 0 <= m < i && 0 <= j < a[m].inputs.len() ==> (#[trigger] a[m].inputs[j]) < defined_count(a),
        decreases a.len() - i,
    {
        let inputs = &program.instructions[i].inputs;
        let mut j: usize = 0;
        while j < inputs.len()
            invariant
                a == program@.instructions,
                i < a.len(),
                inputs@ == a[i as int].inputs,
                j <= inputs@.len(),
                defined == defined_count(a),
                forall|m: int, l: int| 0 <= m < i && 0 <= l < a[m].inputs.len() ==> (#[trigger] a[m].inputs[l]) < defined_count(a),
                forall|l: int| 0 <= l < j ==> (#[trigger] a[i as int].inputs[l]) < defined_count(a),
            decreases inputs@.len() - j,
        {
            if inputs[j] >= defined {
                assert(!inputs_in_range(a)) by {
                    assert(a[i as int].inputs[j as int] >= defined_count(a));
                }
                return false;
            }
            j = j + 1;
        }
        i = i + 1;
    }
    true
}

} // verus!
