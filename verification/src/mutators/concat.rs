use rand::rngs::SmallRng;
use vstd::prelude::*;

use crate::builder::{
    buildable, defined_count, is_valid, lemma_concat_counts, lemma_defined_count_prefix, lemma_no_stray_end_concat,
    lemma_buildable_replayable, lemma_run_shape, lemma_same_operations, ProgramBuilder,
};
use crate::instruction::InstructionView;
use crate::mutators::{within_limits, Mutator, MutatorError, MutatorResult, Splicer, SIZE_LIMIT};
use crate::program::{duplicate_instructions, instruction_views, inputs_in_range, Program};
use crate::random::ExSmallRng;

verus! {

/// The instruction with every input moved up by `offset`.
pub open spec fn shifted(ins: InstructionView, offset: nat) -> InstructionView {
    InstructionView { inputs: ins.inputs.map_values(|x: usize| (x + offset) as usize), operation: ins.operation }
}

/// `b` appended to `a`, its inputs moved past the variables `a` defines.
pub open spec fn appended(a: Seq<InstructionView>, b: Seq<InstructionView>) -> Seq<InstructionView> {
    a + b.map_values(|ins: InstructionView| shifted(ins, defined_count(a)))
}

/// How many variables the program defines.
fn variable_count(program: &Program) -> (n: usize)
    requires
        defined_count(program@.instructions) <= usize::MAX,
    ensures
        n == defined_count(program@.instructions),
{
    let ghost a = program@.instructions;
    let mut n: usize = 0;
    let mut i: usize = 0;
    while i < program.instructions.len()
        invariant
            a == program@.instructions,
            defined_count(a) <= usize::MAX,
            i <= a.len(),
            n == defined_count(a.take(i as int)),
        decreases a.len() - i,
    {
        proof {
            lemma_defined_count_prefix(a, i + 1);
            assert(a.take(i + 1).drop_last() =~= a.take(i as int));
            assert(a.take(i + 1).last() == a[i as int]);
        }
        let operation = &program.instructions[i].operation;
        n = n + operation.num_outputs() + operation.num_inner_outputs();
        i = i + 1;
    }
    assert(a.take(a.len() as int) =~= a);
    n
}

/// Appends another program's instructions, renumbering their inputs.
///
/// Concatenation is how a program grows past what a single generator produces: two setups on
/// one deployment, or a setup followed by whatever a second program did.
#[derive(Default)]
pub struct ConcatMutator;

impl Mutator for ConcatMutator {
    fn mutate(&mut self, program: &mut Program, rng: &mut SmallRng) -> (r: MutatorResult)
        ensures
            r == Err::<(), MutatorError>(MutatorError::NoMutationsAvailable) <==> old(program)@.instructions.len() == 0,
            r is Ok <==> old(program)@.instructions.len() > 0 && is_valid(old(program)@.context, appended(old(program)@.instructions, old(program)@.instructions)),
            r is Ok ==> final(program)@.instructions == appended(old(program)@.instructions, old(program)@.instructions),
    {
        let other = program.clone();
        self.splice(program, &other, rng)
    }

    fn name(&self) -> (n: &'static str)
        ensures
            n@ == "ConcatMutator"@,
    {
        "ConcatMutator"
    }
}

impl Splicer for ConcatMutator {
    fn splice(&mut self, program: &mut Program, other: &Program, rng: &mut SmallRng) -> (r: MutatorResult)
        ensures
            r == Err::<(), MutatorError>(MutatorError::NoMutationsAvailable) <==> other@.instructions.len() == 0,
            r is Ok <==> other@.instructions.len() > 0 && is_valid(old(program)@.context, appended(old(program)@.instructions, other@.instructions)),
            r is Ok ==> final(program)@.instructions == appended(old(program)@.instructions, other@.instructions),
    {
        if other.instructions.len() == 0 {
            return Err(MutatorError::NoMutationsAvailable);
        }
        let ghost a = program@.instructions;
        let ghost b = other@.instructions;

        // The appended instructions refer to their own variables, which sit after the ones
        // already in the program.
        let offset = variable_count(program);
        let ghost moved = b.map_values(|ins: InstructionView| shifted(ins, offset as nat));
        let mut instructions = duplicate_instructions(program.instructions.as_slice());
        let mut i: usize = 0;
        while i < other.instructions.len()
            invariant
                a == program@.instructions,
                b == other@.instructions,
                offset == defined_count(a),
                offset <= SIZE_LIMIT,
                inputs_in_range(b),
                defined_count(b) <= SIZE_LIMIT,
                moved == b.map_values(|ins: InstructionView| shifted(ins, offset as nat)),
                i <= b.len(),
                instruction_views(instructions@) == a + moved.take(i as int),
            decreases b.len() - i,
        {
            let mut ins = other.instructions[i].duplicate();
            let ghost original = b[i as int];
            let mut j: usize = 0;
            while j < ins.inputs.len()
                invariant
                    original == b[i as int],
                    0 <= i < b.len(),
                    inputs_in_range(b),
                    defined_count(b) <= SIZE_LIMIT,
                    offset <= SIZE_LIMIT,
                    ins.operation@ == original.operation,
                    ins.inputs@.len() == original.inputs.len(),
                    j <= original.inputs.len(),
                    forall|m: int| 0 <= m < j ==> ins.inputs@[m] == original.inputs[m] + offset,
                    forall|m: int| j <= m < original.inputs.len() ==> ins.inputs@[m] == original.inputs[m],
                decreases original.inputs.len() - j,
            {
                assert(original.inputs[j as int] < defined_count(b));
                let moved_input = ins.inputs[j] + offset;
                ins.inputs.set(j, moved_input);
                j = j + 1;
            }
            assert(ins@ == shifted(original, offset as nat)) by {
                assert(ins.inputs@ =~= original.inputs.map_values(|x: usize| (x + offset as nat) as usize));
            }
            let ghost before = instructions@;
            instructions.push(ins);
            proof {
                assert(moved.take(i + 1) =~= moved.take(i as int).push(moved[i as int]));
                assert(instruction_views(instructions@) =~= instruction_views(before).push(shifted(original, offset as nat)));
            }
            i = i + 1;
        }
        proof {
            assert(moved.take(b.len() as int) =~= moved);
            assert(instruction_views(instructions@) == appended(a, b));
            assert forall|k: int| 0 <= k < b.len() implies (#[trigger] b[k]).operation == moved[k].operation by {}
            lemma_same_operations(b, moved);
            lemma_no_stray_end_concat(a, moved);
            lemma_concat_counts(a, moved);
            lemma_run_shape(program.context, appended(a, b));
            lemma_buildable_replayable(program.context, appended(a, b));
        }
        match ProgramBuilder::from_prefix(program.context, instructions.as_slice()) {
            Ok(builder) => match builder.finalize() {
                Ok(_) => {},
                Err(_) => {
                    return Err(MutatorError::CreatedInvalidProgram);
                },
            },
            Err(_) => {
                return Err(MutatorError::CreatedInvalidProgram);
            },
        }
        program.instructions = instructions;
        Ok(())
    }
}

} // verus!
