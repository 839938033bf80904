use rand::rngs::SmallRng;
use vstd::prelude::*;

use crate::builder::{
    defined_count, lemma_accept_swapped_input, lemma_buildable_replayable, lemma_defined_count_prefix, lemma_no_stray_end_prefix,
    lemma_run_prefix_ok, lemma_run_update, run, BuildState, ProgramBuilder,
};
use crate::instruction::InstructionView;
use crate::mutators::{within_limits, Mutator, MutatorError, MutatorResult};
use crate::program::{instruction_views, Program, ProgramContext};
use crate::random::{choose_from, random_below, ExSmallRng};

verus! {

/// `after` is `before` with one input of one instruction pointed at a different variable, one in
/// scope at that instruction and of the same type as the one it replaces.
pub open spec fn rewired(ctx: ProgramContext, before: Seq<InstructionView>, after: Seq<InstructionView>) -> bool {
    exists|index: int, slot: int, v: usize| {
        &&& 0 <= index < before.len()
        &&& 0 <= slot < before[index].inputs.len()
        &&& v != before[index].inputs[slot]
        &&& after == before.update(index, InstructionView { inputs: before[index].inputs.update(slot, v), operation: before[index].operation })
        &&& run(ctx, before.take(index)) matches Ok(s) && s.in_scope(v) && s.variables[v as int].var == s.variables[before[index].inputs[slot] as int].var
    }
}

/// Rewires one input of an instruction to another variable of the same type.
///
/// Because the replacement has to have the same type and be in scope at that point, this
/// explores how a message behaves when it refers to a different earlier value, without ever
/// producing a program that could not have been written by hand.
#[derive(Default)]
pub struct InputMutator;

impl Mutator for InputMutator {
    fn mutate(&mut self, program: &mut Program, rng: &mut SmallRng) -> (r: MutatorResult)
        ensures
            (forall|i: int| 0 <= i < old(program)@.instructions.len() ==> (#[trigger] old(program)@.instructions[i]).inputs.len() == 0) ==> r == Err::<(), MutatorError>(MutatorError::NoMutationsAvailable),
            r is Ok ==> rewired(old(program)@.context, old(program)@.instructions, final(program)@.instructions),
    {
        let ghost a = program@.instructions;
        let mut candidates: Vec<usize> = Vec::new();
        let mut i: usize = 0;
        while i < program.instructions.len()
            invariant
                a == program@.instructions,
                i <= a.len(),
                forall|k: int| 0 <= k < candidates@.len() ==> (#[trigger] candidates@[k]) < a.len() && a[candidates@[k] as int].inputs.len() > 0,
                (exists|j: int| 0 <= j < i && (#[trigger] a[j]).inputs.len() > 0) ==> candidates@.len() > 0,
            decreases a.len() - i,
        {
            if program.instructions[i].inputs.len() > 0 {
                candidates.push(i);
            }
            i = i + 1;
        }
        let ghost cands = candidates@;
        let index = match choose_from(rng, candidates) {
            Some(index) => index,
            None => {
                assert forall|j: int| 0 <= j < a.len() implies (#[trigger] a[j]).inputs.len() == 0 by {
                    if a[j].inputs.len() > 0 {
                        assert(exists|j2: int| 0 <= j2 < a.len() && (#[trigger] a[j2]).inputs.len() > 0);
                    }
                }
                return Err(MutatorError::NoMutationsAvailable);
            },
        };
        proof {
            let k = choose|k: int| 0 <= k < cands.len() && cands[k] == index;
            assert(cands[k] < a.len());
            lemma_no_stray_end_prefix(a, index as int);
            lemma_defined_count_prefix(a, index as int);
            assert(instruction_views(program.instructions@).take(index as int) =~= a.take(index as int));
            lemma_buildable_replayable(program.context, a.take(index as int));
        }
        let builder = match ProgramBuilder::from_first(program.context, program.instructions.as_slice(), index) {
            Ok(builder) => builder,
            Err(_) => {
                return Err(MutatorError::CreatedInvalidProgram);
            },
        };

        let n_inputs = program.instructions[index].inputs.len();
        let slot = random_below(rng, n_inputs);
        let current = program.instructions[index].inputs[slot];
        let variable = match builder.get_variable(current) {
            Some(variable) => variable,
            None => {
                return Err(MutatorError::CreatedInvalidProgram);
            },
        };
        let replacement = match builder.get_random_variable(rng, &variable.var) {
            Some(replacement) => replacement,
            None => {
                return Err(MutatorError::NoMutationsAvailable);
            },
        };
        if replacement.index == current {
            return Err(MutatorError::NoMutationsAvailable);
        }

        let mut rewritten = program.instructions[index].duplicate();
        rewritten.inputs.set(slot, replacement.index);
        let ghost x = rewritten@;
        program.instructions.set(index, rewritten);
        proof {
            reveal(crate::builder::holds_variable);
            let s = builder.state();
            assert(a[index as int].inputs[slot as int] == current);
            assert(x == InstructionView { inputs: a[index as int].inputs.update(slot as int, replacement.index), operation: a[index as int].operation });
            assert(program@.instructions =~= a.update(index as int, x));
            assert(run(program.context, a.take(index as int)) == Ok::<BuildState, crate::errors::ValidationErrorView>(s));
            assert(rewired(program.context, a, program@.instructions));
            if run(program.context, a) is Ok {
                lemma_run_prefix_ok(program.context, a, index as int);
                lemma_accept_swapped_input(program.context, s, a[index as int], slot as int, replacement.index);
                lemma_run_update(program.context, a, index as int, x);
            }
        }
        Ok(())
    }

    fn name(&self) -> (n: &'static str)
        ensures
            n@ == "InputMutator"@,
    {
        "InputMutator"
    }
}

} // verus!
