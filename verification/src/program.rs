use vstd::prelude::*;

use crate::builder::{defined_count, is_valid, replayable, run, BuildState, ProgramBuilder};
use crate::errors::{ProgramValidationError, ValidationErrorView};
use crate::instruction::{Instruction, InstructionView};

verus! {

/// The state a program is executed against.
#[derive(Debug, Clone, Copy, PartialEq, Eq, Hash, Structural)]
pub struct ProgramContext {
    /// Number of roles in the deployment.
    pub num_roles: usize,
    /// Number of connections that exist before the program runs.
    pub num_connections: usize,
    /// Seed the deployment's simulator is initialized with.
    pub seed: u64,
}

/// A sequence of operations to perform on a deployment.
#[derive(Debug, PartialEq, Eq, Hash)]
pub struct Program {
    pub context: ProgramContext,
    pub instructions: Vec<Instruction>,
}

/// A [`Program`] as a mathematical value.
pub struct ProgramView {
    pub context: ProgramContext,
    pub instructions: Seq<InstructionView>,
}

/// The instructions of a vector, each as a value.
pub open spec fn instruction_views(instructions: Seq<Instruction>) -> Seq<InstructionView> {
    instructions.map_values(|i: Instruction| i@)
}

impl ProgramView {
    /// Whether the builder takes in the program and every block it opens is closed.
    pub open spec fn is_valid(self) -> bool {
        is_valid(self.context, self.instructions)
    }
}

impl View for Program {
    type V = ProgramView;

    open spec fn view(&self) -> ProgramView {
        ProgramView { context: self.context, instructions: instruction_views(self.instructions@) }
    }
}

/// A copy of a vector of instructions, equal to it as a value.
pub fn duplicate_instructions(instructions: &[Instruction]) -> (copy: Vec<Instruction>)
    ensures
        instruction_views(copy@) == instruction_views(instructions@),
{
    let mut copy: Vec<Instruction> = Vec::new();
    let mut i: usize = 0;
    while i < instructions.len()
        invariant
            i <= instructions@.len(),
            copy@.len() == i,
            forall|j: int| 0 <= j < i ==> #[trigger] copy@[j]@ == instructions@[j]@,
        decreases instructions@.len() - i,
    {
        copy.push(instructions[i].duplicate());
        i = i + 1;
    }
    assert(instruction_views(copy@) =~= instruction_views(instructions@));
    copy
}

impl Clone for Program {
    fn clone(&self) -> (p: Self)
        ensures
            p@ == self@,
    {
        Program { context: self.context, instructions: duplicate_instructions(self.instructions.as_slice()) }
    }
}

/// Whether instruction `i` stays when `remove` marks the ones to drop; unmarked ones stay.
pub open spec fn is_kept(remove: Seq<bool>, i: int) -> bool {
    !(i < remove.len() && remove[i])
}

/// How many variables the instructions that stay define.
pub open spec fn kept_defined(instrs: Seq<InstructionView>, remove: Seq<bool>) -> nat
    decreases instrs.len(),
{
    if instrs.len() == 0 {
        0
    } else {
        kept_defined(instrs.drop_last(), remove) + if is_kept(remove, instrs.len() - 1) {
            instrs.last().operation.num_defined()
        } else {
            0
        }
    }
}

/// Where each variable goes once the marked instructions are dropped: the number of variables
/// below it whose defining instruction is kept. A dropped instruction's variables all go where
/// the next kept variable will be.
pub open spec fn renumbering(instrs: Seq<InstructionView>, remove: Seq<bool>) -> Seq<usize>
    decreases instrs.len(),
{
    if instrs.len() == 0 {
        seq![]
    } else {
        renumbering(instrs.drop_last(), remove) + Seq::new(
            instrs.last().operation.num_defined(),
            |k: int| (kept_defined(instrs.drop_last(), remove) + if is_kept(remove, instrs.len() - 1) { k } else { 0 }) as usize,
        )
    }
}

/// The instruction with its inputs renumbered by `mapping`.
pub open spec fn renumber(ins: InstructionView, mapping: Seq<usize>) -> InstructionView {
    InstructionView { inputs: ins.inputs.map_values(|x: usize| mapping[x as int]), operation: ins.operation }
}

/// The instructions `remove` does not mark, renumbered by `mapping`, in order.
pub open spec fn kept_instructions(instrs: Seq<InstructionView>, remove: Seq<bool>, mapping: Seq<usize>) -> Seq<InstructionView>
    decreases instrs.len(),
{
    if instrs.len() == 0 {
        seq![]
    } else {
        kept_instructions(instrs.drop_last(), remove, mapping) + if is_kept(remove, instrs.len() - 1) {
            seq![renumber(instrs.last(), mapping)]
        } else {
            seq![]
        }
    }
}

/// The instructions left once the marked ones are dropped.
pub open spec fn without_marked(instrs: Seq<InstructionView>, remove: Seq<bool>) -> Seq<InstructionView> {
    kept_instructions(instrs, remove, renumbering(instrs, remove))
}

/// Every input names a variable some instruction defines.
pub open spec fn inputs_in_range(instrs: Seq<InstructionView>) -> bool {
    forall|i: int, j: int| 0 <= i < instrs.len() && 0 <= j < instrs[i].inputs.len() ==> (#[trigger] instrs[i].inputs[j]) < defined_count(instrs)
}

/// The marks that drop exactly the nops.
pub open spec fn nop_marks(instrs: Seq<InstructionView>) -> Seq<bool> {
    instrs.map_values(|i: InstructionView| i.operation.is_nop())
}

pub proof fn lemma_renumbering_len(instrs: Seq<InstructionView>, remove: Seq<bool>)
    ensures
        renumbering(instrs, remove).len() == defined_count(instrs),
        kept_defined(instrs, remove) <= defined_count(instrs),
    decreases instrs.len(),
{
    if instrs.len() > 0 {
        lemma_renumbering_len(instrs.drop_last(), remove);
    }
}

/// Dropping instructions leaves no more than there were, and fewer when one of them is marked.
pub proof fn lemma_kept_len(instrs: Seq<InstructionView>, remove: Seq<bool>, mapping: Seq<usize>)
    ensures
        kept_instructions(instrs, remove, mapping).len() <= instrs.len(),
        (exists|i: int| 0 <= i < instrs.len() && !is_kept(remove, i)) ==> kept_instructions(instrs, remove, mapping).len() < instrs.len(),
    decreases instrs.len(),
{
    if instrs.len() > 0 {
        lemma_kept_len(instrs.drop_last(), remove, mapping);
        if exists|i: int| 0 <= i < instrs.len() && !is_kept(remove, i) {
            let i = choose|i: int| 0 <= i < instrs.len() && !is_kept(remove, i);
            if i < instrs.len() - 1 {
                assert(0 <= i < instrs.drop_last().len() && !is_kept(remove, i));
            }
        }
    }
}

/// With nothing marked every variable keeps its number.
pub proof fn lemma_renumbering_identity(instrs: Seq<InstructionView>, remove: Seq<bool>)
    requires
        forall|i: int| 0 <= i < instrs.len() ==> is_kept(remove, i),
        defined_count(instrs) <= usize::MAX,
    ensures
        renumbering(instrs, remove).len() == defined_count(instrs),
        kept_defined(instrs, remove) == defined_count(instrs),
        forall|x: int| 0 <= x < defined_count(instrs) ==> renumbering(instrs, remove)[x] == x,
    decreases instrs.len(),
{
    lemma_renumbering_len(instrs, remove);
    if instrs.len() > 0 {
        let b = instrs.drop_last();
        crate::builder::lemma_defined_count_prefix(instrs, b.len() as int);
        assert(instrs.take(b.len() as int) =~= b);
        lemma_renumbering_identity(b, remove);
        assert(is_kept(remove, instrs.len() - 1));
    }
}

/// Dropping nothing gives the program back: every kept variable is counted, so each keeps its
/// number.
pub proof fn lemma_without_nothing(instrs: Seq<InstructionView>, remove: Seq<bool>)
    requires
        forall|i: int| 0 <= i < instrs.len() ==> is_kept(remove, i),
        defined_count(instrs) <= usize::MAX,
        inputs_in_range(instrs),
    ensures
        without_marked(instrs, remove) == instrs,
{
    lemma_renumbering_identity(instrs, remove);
    lemma_kept_all(instrs, remove, renumbering(instrs, remove), defined_count(instrs));
}

/// With nothing marked, and a mapping that keeps every number the inputs use, every
/// instruction stays as it was.
pub proof fn lemma_kept_all(instrs: Seq<InstructionView>, remove: Seq<bool>, mapping: Seq<usize>, n: nat)
    requires
        forall|i: int| 0 <= i < instrs.len() ==> is_kept(remove, i),
        forall|i: int, j: int| 0 <= i < instrs.len() && 0 <= j < instrs[i].inputs.len() ==> (#[trigger] instrs[i].inputs[j]) < n,
        forall|x: int| 0 <= x < n ==> mapping[x] == x,
    ensures
        kept_instructions(instrs, remove, mapping) == instrs,
    decreases instrs.len(),
{
    if instrs.len() > 0 {
        let b = instrs.drop_last();
        assert forall|i: int, j: int| 0 <= i < b.len() && 0 <= j < b[i].inputs.len() implies (#[trigger] b[i].inputs[j]) < n by {
            assert(b[i] == instrs[i]);
        }
        lemma_kept_all(b, remove, mapping, n);
        let last = instrs.last();
        assert(is_kept(remove, instrs.len() - 1));
        assert forall|j: int| 0 <= j < last.inputs.len() implies #[trigger] last.inputs[j] < n by {
            assert(instrs[instrs.len() - 1] == last);
        }
        assert(renumber(last, mapping).inputs =~= last.inputs);
        assert(kept_instructions(instrs, remove, mapping) =~= instrs);
    }
}

impl Program {
    pub fn unchecked_new(context: ProgramContext, instructions: Vec<Instruction>) -> (p: Self)
        ensures
            p.context == context,
            p.instructions == instructions,
    {
        Self { context, instructions }
    }

    /// Whether the builder accepts every instruction and every block is closed. A replay that
    /// reaches a block end with no block open cannot go on, so such a program has no answer.
    pub fn is_statically_valid(&self) -> (b: bool)
        requires
            replayable(self.context, self@.instructions),
        ensures
            b == is_valid(self.context, self@.instructions),
    {
        match ProgramBuilder::from_prefix(self.context, self.instructions.as_slice()) {
            Ok(builder) => builder.finalize().is_ok(),
            Err(_) => false,
        }
    }

    /// The builder in the state the program leaves it in.
    pub fn to_builder(&self) -> (r: Result<ProgramBuilder, ProgramValidationError>)
        requires
            replayable(self.context, self@.instructions),
        ensures
            match run(self.context, self@.instructions) {
                Ok(s) => r matches Ok(b) && b.wf() && b.state() == s && b.spec_context() == self.context && b.consistent(),
                Err(e) => r matches Err(e2) && e2@ == e,
            },
    {
        ProgramBuilder::from_prefix(self.context, self.instructions.as_slice())
    }

    /// Drop the marked instructions, renumbering the inputs of those that remain.
    ///
    /// Inputs that referred to a dropped instruction's variables are left pointing at whatever
    /// took their place, so the result still has to be validated.
    pub fn without(&self, remove: &[bool]) -> (p: Program)
        requires
            defined_count(self@.instructions) <= usize::MAX,
            inputs_in_range(self@.instructions),
        ensures
            p@.context == self.context,
            p@.instructions == without_marked(self@.instructions, remove@),
    {
        let ghost instrs = self@.instructions;
        let mut mapping: Vec<usize> = Vec::new();
        let mut kept: usize = 0;
        let mut index: usize = 0;
        while index < self.instructions.len()
            invariant
                instrs == self@.instructions,
                instrs.len() == self.instructions@.len(),
                defined_count(instrs) <= usize::MAX,
                index <= instrs.len(),
                mapping@ == renumbering(instrs.take(index as int), remove@),
                kept == kept_defined(instrs.take(index as int), remove@),
            decreases instrs.len() - index,
        {
            proof {
                assert(instrs.take(index + 1).drop_last() =~= instrs.take(index as int));
                lemma_renumbering_len(instrs.take(index as int), remove@);
                crate::builder::lemma_defined_count_prefix(instrs, index + 1);
            }
            let instruction = &self.instructions[index];
            let outputs = instruction.operation.num_outputs() + instruction.operation.num_inner_outputs();
            let dropped = if index < remove.len() { remove[index] } else { false };
            let ghost start = mapping@;
            let ghost base = kept;
            let mut k: usize = 0;
            while k < outputs
                invariant
                    k <= outputs,
                    base + outputs <= usize::MAX,
                    kept == base + if dropped { 0 } else { k },
                    mapping@ == start + Seq::new(k as nat, |m: int| (base + if dropped { 0 } else { m }) as usize),
                decreases outputs - k,
            {
                mapping.push(kept);
                if !dropped {
                    kept = kept + 1;
                }
                k = k + 1;
                assert(mapping@ =~= start + Seq::new(k as nat, |m: int| (base + if dropped { 0 } else { m }) as usize));
            }
            proof {
                assert(instrs.take(index + 1).last() == instrs[index as int]);
                assert(mapping@ =~= renumbering(instrs.take(index + 1), remove@));
            }
            index = index + 1;
        }
        assert(instrs.take(instrs.len() as int) =~= instrs);
        proof {
            lemma_renumbering_len(instrs, remove@);
        }

        let mut instructions: Vec<Instruction> = Vec::new();
        let mut index: usize = 0;
        while index < self.instructions.len()
            invariant
                instrs == self@.instructions,
                instrs.len() == self.instructions@.len(),
                inputs_in_range(instrs),
                mapping@ == renumbering(instrs, remove@),
                mapping@.len() == defined_count(instrs),
                index <= instrs.len(),
                instruction_views(instructions@) == kept_instructions(instrs.take(index as int), remove@, mapping@),
            decreases instrs.len() - index,
        {
            let dropped = if index < remove.len() { remove[index] } else { false };
            proof {
                assert(instrs.take(index + 1).drop_last() =~= instrs.take(index as int));
                assert(instrs.take(index + 1).last() == instrs[index as int]);
            }
            if !dropped {
                let mut instruction = self.instructions[index].duplicate();
                let ghost original = instruction@;
                let mut j: usize = 0;
                while j < instruction.inputs.len()
                    invariant
                        original == instrs[index as int],
                        0 <= index < instrs.len(),
                        inputs_in_range(instrs),
                        mapping@.len() == defined_count(instrs),
                        instruction.inputs@.len() == original.inputs.len(),
                        instruction.operation@ == original.operation,
                        j <= original.inputs.len(),
                        forall|m: int| 0 <= m < j ==> instruction.inputs@[m] == mapping@[original.inputs[m] as int],
                        forall|m: int| j <= m < original.inputs.len() ==> instruction.inputs@[m] == original.inputs[m],
                    decreases original.inputs.len() - j,
                {
                    let old_index = instruction.inputs[j];
                    assert(old_index == instrs[index as int].inputs[j as int]);
                    let new_index = mapping[old_index];
                    instruction.inputs.set(j, new_index);
                    j = j + 1;
                }
                assert(instruction@ == renumber(original, mapping@)) by {
                    assert(instruction.inputs@ =~= original.inputs.map_values(|x: usize| mapping@[x as int]));
                }
                let ghost before = instructions@;
                instructions.push(instruction);
                proof {
                    assert(instruction_views(instructions@) =~= instruction_views(before).push(renumber(original, mapping@)));
                }
            }
            index = index + 1;
        }
        assert(instrs.take(instrs.len() as int) =~= instrs);
        Program { context: self.context, instructions }
    }

    /// Drop nop instructions, renumbering the inputs that referred to later variables.
    pub fn remove_nops(&mut self)
        requires
            defined_count(old(self)@.instructions) <= usize::MAX,
            inputs_in_range(old(self)@.instructions),
        ensures
            final(self)@.context == old(self)@.context,
            final(self)@.instructions == without_marked(old(self)@.instructions, nop_marks(old(self)@.instructions)),
            old(self)@.is_valid() && crate::builder::no_stray_end(old(self)@.instructions) && old(self)@.instructions.len() + 2
                < usize::MAX ==> final(self)@.is_valid(),
    {
        proof {
            if self@.is_valid() && crate::builder::no_stray_end(self@.instructions) && self@.instructions.len() + 2 < usize::MAX {
                crate::nops::lemma_removing_nops_keeps_validity(self.context, self@.instructions);
            }
        }
        let mut remove: Vec<bool> = Vec::new();
        let mut i: usize = 0;
        while i < self.instructions.len()
            invariant
                i <= self.instructions@.len(),
                remove@.len() == i,
                forall|k: int| 0 <= k < i ==> remove@[k] == self.instructions@[k]@.operation.is_nop(),
            decreases self.instructions@.len() - i,
        {
            remove.push(self.instructions[i].operation.is_nop());
            i = i + 1;
        }
        assert(remove@ =~= nop_marks(self@.instructions));
        *self = self.without(remove.as_slice());
    }
}

} // verus!
