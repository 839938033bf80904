use vstd::prelude::*;

use crate::operation::{Operation, OperationView};

verus! {

/// An [`Operation`] together with the variables it consumes.
///
/// Inputs are indices into the list of variables produced by preceding instructions, so a
/// program is in static single assignment form.
#[derive(Debug, PartialEq, Eq, Hash)]
pub struct Instruction {
    pub inputs: Vec<usize>,
    pub operation: Operation,
}

/// An [`Instruction`] as a mathematical value.
pub struct InstructionView {
    pub inputs: Seq<usize>,
    pub operation: OperationView,
}

impl View for Instruction {
    type V = InstructionView;

    open spec fn view(&self) -> InstructionView {
        InstructionView { inputs: self.inputs@, operation: self.operation@ }
    }
}

/// The scope an [`Instruction`] is written in.
#[derive(Debug, Clone, Copy, PartialEq, Eq, Structural)]
pub enum InstructionContext {
    Global,
    BuildSetupConnection,
    OnSetupSuccess,
}

impl InstructionView {
    /// The context the block this instruction begins opens, if it begins one.
    pub open spec fn entered_context(self) -> Option<InstructionContext> {
        match self.operation {
            OperationView::BeginBuildSetupConnection => Some(InstructionContext::BuildSetupConnection),
            OperationView::BeginOnSetupSuccess { .. } => Some(InstructionContext::OnSetupSuccess),
            _ => None,
        }
    }

    /// What nopping the instruction leaves: a nop defining as many variables, consuming none.
    pub open spec fn nopped(self) -> InstructionView {
        InstructionView {
            inputs: Seq::empty(),
            operation: OperationView::Nop {
                outputs: self.operation.outputs().len() as usize,
                inner_outputs: self.operation.inner_outputs().len() as usize,
            },
        }
    }
}

/// Whether the operation carries data a mutator may rewrite in place.
pub open spec fn carries_data(op: OperationView) -> bool {
    ||| op is LoadRole
    ||| op is LoadConnection
    ||| op is LoadVersion
    ||| op is LoadFlags
    ||| op is LoadPort
    ||| op is LoadStr
    ||| op is LoadBytes
    ||| op is LoadDuration
    ||| op is SendRawFrame
}

impl Clone for Instruction {
    fn clone(&self) -> (i: Self)
        ensures
            i@ == self@,
    {
        self.duplicate()
    }
}

impl Instruction {
    pub fn new(operation: Operation, inputs: Vec<usize>) -> (i: Self)
        ensures
            i.inputs == inputs,
            i.operation == operation,
    {
        Self { inputs, operation }
    }

    /// A copy of the instruction, equal to it as a value.
    pub fn duplicate(&self) -> (i: Instruction)
        ensures
            i@ == self@,
    {
        let inputs = self.inputs.clone();
        assert(inputs@ =~= self.inputs@);
        Instruction { inputs, operation: self.operation.duplicate() }
    }

    /// Whether the operation can be replaced by a nop without invalidating the program.
    ///
    /// Block delimiters cannot, as their scope would be left unbalanced.
    pub fn is_noppable(&self) -> (b: bool)
        ensures
            b == (!self@.operation.is_block_begin() && !self@.operation.is_block_end()),
    {
        !self.operation.is_block_begin() && !self.operation.is_block_end()
    }

    /// Whether the operation carries data a mutator may rewrite in place.
    pub fn is_operation_mutable(&self) -> (b: bool)
        ensures
            b == carries_data(self@.operation),
    {
        matches!(
            self.operation,
            Operation::LoadRole(_)
                | Operation::LoadConnection(_)
                | Operation::LoadVersion(_)
                | Operation::LoadFlags(_)
                | Operation::LoadPort(_)
                | Operation::LoadStr(_)
                | Operation::LoadBytes(_)
                | Operation::LoadDuration(_)
                | Operation::SendRawFrame { .. }
        )
    }

    /// Replace the instruction by a nop that defines as many variables and consumes none.
    pub fn nop(&mut self)
        ensures
            final(self)@ == old(self)@.nopped(),
    {
        let outputs = self.operation.num_outputs();
        let inner_outputs = self.operation.num_inner_outputs();
        self.inputs.clear();
        self.operation = Operation::Nop { outputs, inner_outputs };
        assert(self.inputs@ =~= Seq::<usize>::empty());
    }

    /// The context a block beginning opens.
    pub fn entered_context_after_execution(&self) -> (c: Option<InstructionContext>)
        ensures
            c == self@.entered_context(),
    {
        match self.operation {
            Operation::BeginBuildSetupConnection => Some(InstructionContext::BuildSetupConnection),
            Operation::BeginOnSetupSuccess { .. } => Some(InstructionContext::OnSetupSuccess),
            _ => None,
        }
    }
}

} // verus!
