use std::time::Duration;

use vstd::prelude::*;

use crate::errors::{ProgramValidationError, ValidationErrorView};
use crate::variable::{Protocol, Variable};

verus! {

/// `Operation` is a single action a program can perform on a deployment.
///
/// The variable types an operation consumes and produces are what encode the relationship
/// between messages: a session exists only once the server agreed to a `SetupConnection`, and
/// the block that runs on its success is the only place its inner session is in scope.
#[derive(Debug, PartialEq, Eq, Hash)]
pub enum Operation {
    /// No operation, used for minimization.
    Nop { outputs: usize, inner_outputs: usize },
    /// `Load*` operations lift data from the program's context into variables.
    LoadRole(usize),
    LoadConnection(usize),
    LoadVersion(u16),
    LoadFlags(u32),
    LoadPort(u16),
    LoadStr(String),
    LoadBytes(Vec<u8>),
    LoadDuration(Duration),
    /// Open a transport to a role.
    Connect,
    /// Begin building a `SetupConnection`. The block it opens holds the message under
    /// construction; every field keeps the value a client would send until an operation
    /// inside the block sets it.
    BeginBuildSetupConnection,
    SetVersions,
    SetFlags,
    SetEndpoint,
    SetDeviceInfo,
    /// Finalize the message for a subprotocol.
    EndBuildSetupConnection { protocol: Protocol },
    /// Send a finalized `SetupConnection`, producing the session it asks for.
    SendSetupConnection { protocol: Protocol },
    /// Open a block that runs only if the server answered the setup with
    /// `SetupConnection.Success`. Inside it is the session it agreed to.
    BeginOnSetupSuccess { protocol: Protocol },
    EndOnSetupSuccess,
    /// Send arbitrary bytes as a frame payload, bypassing message construction.
    SendRawFrame { message_type: u8, extension_type: u16 },
    AdvanceTime,
    /// Collect everything the deployment has sent since the last probe.
    Probe,
}

/// An [`Operation`] as a mathematical value: strings and byte vectors by their contents.
pub enum OperationView {
    Nop { outputs: usize, inner_outputs: usize },
    LoadRole(usize),
    LoadConnection(usize),
    LoadVersion(u16),
    LoadFlags(u32),
    LoadPort(u16),
    LoadStr(Seq<char>),
    LoadBytes(Seq<u8>),
    LoadDuration(Duration),
    Connect,
    BeginBuildSetupConnection,
    SetVersions,
    SetFlags,
    SetEndpoint,
    SetDeviceInfo,
    EndBuildSetupConnection { protocol: Protocol },
    SendSetupConnection { protocol: Protocol },
    BeginOnSetupSuccess { protocol: Protocol },
    EndOnSetupSuccess,
    SendRawFrame { message_type: u8, extension_type: u16 },
    AdvanceTime,
    Probe,
}

impl View for Operation {
    type V = OperationView;

    open spec fn view(&self) -> OperationView {
        match self {
            Operation::Nop { outputs, inner_outputs } => OperationView::Nop {
                outputs: *outputs,
                inner_outputs: *inner_outputs,
            },
            Operation::LoadRole(i) => OperationView::LoadRole(*i),
            Operation::LoadConnection(i) => OperationView::LoadConnection(*i),
            Operation::LoadVersion(v) => OperationView::LoadVersion(*v),
            Operation::LoadFlags(v) => OperationView::LoadFlags(*v),
            Operation::LoadPort(v) => OperationView::LoadPort(*v),
            Operation::LoadStr(s) => OperationView::LoadStr(s@),
            Operation::LoadBytes(b) => OperationView::LoadBytes(b@),
            Operation::LoadDuration(d) => OperationView::LoadDuration(*d),
            Operation::Connect => OperationView::Connect,
            Operation::BeginBuildSetupConnection => OperationView::BeginBuildSetupConnection,
            Operation::SetVersions => OperationView::SetVersions,
            Operation::SetFlags => OperationView::SetFlags,
            Operation::SetEndpoint => OperationView::SetEndpoint,
            Operation::SetDeviceInfo => OperationView::SetDeviceInfo,
            Operation::EndBuildSetupConnection { protocol } => OperationView::EndBuildSetupConnection {
                protocol: *protocol,
            },
            Operation::SendSetupConnection { protocol } => OperationView::SendSetupConnection {
                protocol: *protocol,
            },
            Operation::BeginOnSetupSuccess { protocol } => OperationView::BeginOnSetupSuccess {
                protocol: *protocol,
            },
            Operation::EndOnSetupSuccess => OperationView::EndOnSetupSuccess,
            Operation::SendRawFrame { message_type, extension_type } => OperationView::SendRawFrame {
                message_type: *message_type,
                extension_type: *extension_type,
            },
            Operation::AdvanceTime => OperationView::AdvanceTime,
            Operation::Probe => OperationView::Probe,
        }
    }
}

/// `count` copies of the nop variable.
pub open spec fn nop_variables(count: usize) -> Seq<Variable> {
    Seq::new(count as nat, |i: int| Variable::Nop)
}

impl OperationView {
    pub open spec fn is_block_begin(self) -> bool {
        self is BeginBuildSetupConnection || self is BeginOnSetupSuccess
    }

    pub open spec fn is_block_end(self) -> bool {
        self is EndBuildSetupConnection || self is EndOnSetupSuccess
    }

    pub open spec fn is_nop(self) -> bool {
        self is Nop
    }

    /// Whether `self` closes the block `begin` opens.
    pub open spec fn closes(self, begin: OperationView) -> bool {
        ||| (self is EndBuildSetupConnection && begin is BeginBuildSetupConnection)
        ||| (self is EndOnSetupSuccess && begin is BeginOnSetupSuccess)
    }

    /// Variables produced in the scope the operation is written in.
    pub open spec fn outputs(self) -> Seq<Variable> {
        match self {
            OperationView::Nop { outputs, .. } => nop_variables(outputs),
            OperationView::LoadRole(_) => seq![Variable::Role],
            OperationView::LoadConnection(_) => seq![Variable::Connection],
            OperationView::LoadVersion(_) => seq![Variable::Version],
            OperationView::LoadFlags(_) => seq![Variable::Flags],
            OperationView::LoadPort(_) => seq![Variable::Port],
            OperationView::LoadStr(_) => seq![Variable::Str],
            OperationView::LoadBytes(_) => seq![Variable::Bytes],
            OperationView::LoadDuration(_) => seq![Variable::Duration],
            OperationView::Connect => seq![Variable::Connection],
            OperationView::EndBuildSetupConnection { protocol } => seq![
                Variable::ConstSetupConnection(protocol),
            ],
            OperationView::SendSetupConnection { protocol } => seq![Variable::Session(protocol)],
            _ => seq![],
        }
    }

    /// Variables produced inside the scope a block beginning opens.
    pub open spec fn inner_outputs(self) -> Seq<Variable> {
        match self {
            OperationView::Nop { inner_outputs, .. } => nop_variables(inner_outputs),
            OperationView::BeginBuildSetupConnection => seq![Variable::MutSetupConnection],
            OperationView::BeginOnSetupSuccess { protocol } => seq![Variable::Session(protocol)],
            _ => seq![],
        }
    }

    /// The types of the variables the operation consumes, in order.
    pub open spec fn inputs(self) -> Seq<Variable> {
        match self {
            OperationView::Connect => seq![Variable::Role],
            OperationView::SetVersions => seq![
                Variable::MutSetupConnection,
                Variable::Version,
                Variable::Version,
            ],
            OperationView::SetFlags => seq![Variable::MutSetupConnection, Variable::Flags],
            OperationView::SetEndpoint => seq![
                Variable::MutSetupConnection,
                Variable::Str,
                Variable::Port,
            ],
            OperationView::SetDeviceInfo => seq![
                Variable::MutSetupConnection,
                Variable::Str,
                Variable::Str,
                Variable::Str,
                Variable::Str,
            ],
            OperationView::EndBuildSetupConnection { .. } => seq![Variable::MutSetupConnection],
            OperationView::SendSetupConnection { protocol } => seq![
                Variable::Connection,
                Variable::ConstSetupConnection(protocol),
            ],
            OperationView::BeginOnSetupSuccess { protocol } => seq![Variable::Session(protocol)],
            OperationView::SendRawFrame { .. } => seq![Variable::Connection, Variable::Bytes],
            OperationView::AdvanceTime => seq![Variable::Duration],
            _ => seq![],
        }
    }

    /// Which of the operations this is, regardless of the data it carries.
    pub open spec fn kind(self) -> int {
        match self {
            OperationView::Nop { .. } => 0,
            OperationView::LoadRole(_) => 1,
            OperationView::LoadConnection(_) => 2,
            OperationView::LoadVersion(_) => 3,
            OperationView::LoadFlags(_) => 4,
            OperationView::LoadPort(_) => 5,
            OperationView::LoadStr(_) => 6,
            OperationView::LoadBytes(_) => 7,
            OperationView::LoadDuration(_) => 8,
            OperationView::Connect => 9,
            OperationView::BeginBuildSetupConnection => 10,
            OperationView::SetVersions => 11,
            OperationView::SetFlags => 12,
            OperationView::SetEndpoint => 13,
            OperationView::SetDeviceInfo => 14,
            OperationView::EndBuildSetupConnection { .. } => 15,
            OperationView::SendSetupConnection { .. } => 16,
            OperationView::BeginOnSetupSuccess { .. } => 17,
            OperationView::EndOnSetupSuccess => 18,
            OperationView::SendRawFrame { .. } => 19,
            OperationView::AdvanceTime => 20,
            OperationView::Probe => 21,
        }
    }

    /// The same operation up to the data it carries: same kind, and the same variable types
    /// consumed and produced.
    pub open spec fn same_shape(self, other: OperationView) -> bool {
        &&& self.kind() == other.kind()
        &&& self.outputs() == other.outputs()
        &&& self.inner_outputs() == other.inner_outputs()
        &&& self.inputs() == other.inputs()
    }

    /// How many variables the operation defines, in its own scope and in the one it opens.
    pub open spec fn num_defined(self) -> nat {
        self.outputs().len() + self.inner_outputs().len()
    }
}

/// The first position at which `got` and `expected` differ, for sequences of the same length.
pub open spec fn first_mismatch(got: Seq<Variable>, expected: Seq<Variable>) -> Option<int> {
    if exists|i: int| 0 <= i < got.len() && got[i] != expected[i] {
        Some(choose|i: int| 0 <= i < got.len() && got[i] != expected[i] && (forall|j: int| 0 <= j < i ==> got[j] == expected[j]))
    } else {
        None
    }
}

/// What [`Operation::check_input_types`] reports for the given input types.
pub open spec fn input_type_error(op: OperationView, got: Seq<Variable>) -> Option<ValidationErrorView> {
    let expected = op.inputs();
    if got.len() != expected.len() {
        Some(ValidationErrorView::InvalidNumberOfInputs { is: got.len() as usize, expected: expected.len() as usize })
    } else {
        match first_mismatch(got, expected) {
            Some(i) => Some(ValidationErrorView::InvalidVariableType { is: got[i], expected: expected[i] }),
            None => None,
        }
    }
}

fn variables_of_kind(kind: Variable, count: usize) -> (vars: Vec<Variable>)
    ensures
        vars@ == Seq::new(count as nat, |i: int| kind),
{
    let mut vars: Vec<Variable> = Vec::new();
    let mut i: usize = 0;
    while i < count
        invariant
            i <= count,
            vars@ == Seq::new(i as nat, |j: int| kind),
        decreases count - i,
    {
        vars.push(kind);
        i = i + 1;
    }
    vars
}

impl Clone for Operation {
    fn clone(&self) -> (op: Self)
        ensures
            op@ == self@,
    {
        self.duplicate()
    }
}

impl Operation {
    /// A copy of the operation, equal to it as a value.
    pub fn duplicate(&self) -> (op: Operation)
        ensures
            op@ == self@,
    {
        match self {
            Operation::Nop { outputs, inner_outputs } => Operation::Nop { outputs: *outputs, inner_outputs: *inner_outputs },
            Operation::LoadRole(i) => Operation::LoadRole(*i),
            Operation::LoadConnection(i) => Operation::LoadConnection(*i),
            Operation::LoadVersion(v) => Operation::LoadVersion(*v),
            Operation::LoadFlags(v) => Operation::LoadFlags(*v),
            Operation::LoadPort(v) => Operation::LoadPort(*v),
            Operation::LoadStr(s) => Operation::LoadStr(s.clone()),
            Operation::LoadBytes(b) => {
                let c = b.clone();
                assert(c@ =~= b@);
                Operation::LoadBytes(c)
            },
            Operation::LoadDuration(d) => Operation::LoadDuration(*d),
            Operation::Connect => Operation::Connect,
            Operation::BeginBuildSetupConnection => Operation::BeginBuildSetupConnection,
            Operation::SetVersions => Operation::SetVersions,
            Operation::SetFlags => Operation::SetFlags,
            Operation::SetEndpoint => Operation::SetEndpoint,
            Operation::SetDeviceInfo => Operation::SetDeviceInfo,
            Operation::EndBuildSetupConnection { protocol } => Operation::EndBuildSetupConnection { protocol: *protocol },
            Operation::SendSetupConnection { protocol } => Operation::SendSetupConnection { protocol: *protocol },
            Operation::BeginOnSetupSuccess { protocol } => Operation::BeginOnSetupSuccess { protocol: *protocol },
            Operation::EndOnSetupSuccess => Operation::EndOnSetupSuccess,
            Operation::SendRawFrame { message_type, extension_type } => Operation::SendRawFrame {
                message_type: *message_type,
                extension_type: *extension_type,
            },
            Operation::AdvanceTime => Operation::AdvanceTime,
            Operation::Probe => Operation::Probe,
        }
    }

    pub fn is_block_begin(&self) -> (b: bool)
        ensures
            b == self@.is_block_begin(),
    {
        matches!(self, Operation::BeginBuildSetupConnection | Operation::BeginOnSetupSuccess { .. })
    }

    pub fn is_block_end(&self) -> (b: bool)
        ensures
            b == self@.is_block_end(),
    {
        matches!(self, Operation::EndBuildSetupConnection { .. } | Operation::EndOnSetupSuccess)
    }

    pub fn is_nop(&self) -> (b: bool)
        ensures
            b == self@.is_nop(),
    {
        matches!(self, Operation::Nop { .. })
    }

    /// Whether `self` is the end that closes the block `other` begins.
    pub fn is_matching_block_begin(&self, other: &Operation) -> (b: bool)
        ensures
            b == self@.closes(other@),
    {
        match (self, other) {
            (Operation::EndBuildSetupConnection { .. }, Operation::BeginBuildSetupConnection) => true,
            (Operation::EndOnSetupSuccess, Operation::BeginOnSetupSuccess { .. }) => true,
            _ => false,
        }
    }

    /// Variables produced in the scope the operation is written in.
    pub fn get_output_variables(&self) -> (vars: Vec<Variable>)
        ensures
            vars@ == self@.outputs(),
    {
        match self {
            Operation::Nop { outputs, .. } => variables_of_kind(Variable::Nop, *outputs),
            Operation::LoadRole(_) => vec![Variable::Role],
            Operation::LoadConnection(_) => vec![Variable::Connection],
            Operation::LoadVersion(_) => vec![Variable::Version],
            Operation::LoadFlags(_) => vec![Variable::Flags],
            Operation::LoadPort(_) => vec![Variable::Port],
            Operation::LoadStr(_) => vec![Variable::Str],
            Operation::LoadBytes(_) => vec![Variable::Bytes],
            Operation::LoadDuration(_) => vec![Variable::Duration],
            Operation::Connect => vec![Variable::Connection],
            Operation::EndBuildSetupConnection { protocol } => vec![Variable::ConstSetupConnection(*protocol)],
            Operation::SendSetupConnection { protocol } => vec![Variable::Session(*protocol)],
            _ => Vec::new(),
        }
    }

    /// Variables produced inside the scope a block beginning opens.
    pub fn get_inner_output_variables(&self) -> (vars: Vec<Variable>)
        ensures
            vars@ == self@.inner_outputs(),
    {
        match self {
            Operation::Nop { inner_outputs, .. } => variables_of_kind(Variable::Nop, *inner_outputs),
            Operation::BeginBuildSetupConnection => vec![Variable::MutSetupConnection],
            Operation::BeginOnSetupSuccess { protocol } => vec![Variable::Session(*protocol)],
            _ => Vec::new(),
        }
    }

    pub fn get_input_variables(&self) -> (vars: Vec<Variable>)
        ensures
            vars@ == self@.inputs(),
    {
        match self {
            Operation::Connect => vec![Variable::Role],
            Operation::SetVersions => vec![Variable::MutSetupConnection, Variable::Version, Variable::Version],
            Operation::SetFlags => vec![Variable::MutSetupConnection, Variable::Flags],
            Operation::SetEndpoint => vec![Variable::MutSetupConnection, Variable::Str, Variable::Port],
            Operation::SetDeviceInfo => vec![
                Variable::MutSetupConnection,
                Variable::Str,
                Variable::Str,
                Variable::Str,
                Variable::Str,
            ],
            Operation::EndBuildSetupConnection { .. } => vec![Variable::MutSetupConnection],
            Operation::SendSetupConnection { protocol } => vec![Variable::Connection, Variable::ConstSetupConnection(*protocol)],
            Operation::BeginOnSetupSuccess { protocol } => vec![Variable::Session(*protocol)],
            Operation::SendRawFrame { .. } => vec![Variable::Connection, Variable::Bytes],
            Operation::AdvanceTime => vec![Variable::Duration],
            _ => Vec::new(),
        }
    }

    pub fn num_outputs(&self) -> (n: usize)
        ensures
            n == self@.outputs().len(),
    {
        match self {
            Operation::Nop { outputs, .. } => *outputs,
            _ => self.get_output_variables().len(),
        }
    }

    pub fn num_inner_outputs(&self) -> (n: usize)
        ensures
            n == self@.inner_outputs().len(),
    {
        match self {
            Operation::Nop { inner_outputs, .. } => *inner_outputs,
            _ => self.get_inner_output_variables().len(),
        }
    }

    pub fn num_inputs(&self) -> (n: usize)
        ensures
            n == self@.inputs().len(),
    {
        self.get_input_variables().len()
    }

    /// Check that `got` are the input types the operation consumes: the count first, then
    /// each position in order.
    pub fn check_input_types(&self, got: &[Variable]) -> (r: Result<(), ProgramValidationError>)
        ensures
            r is Ok <==> input_type_error(self@, got@) is None,
            r matches Err(e) ==> Some(e@) == input_type_error(self@, got@),
    {
        let expected = self.get_input_variables();
        if got.len() != expected.len() {
            return Err(ProgramValidationError::InvalidNumberOfInputs { is: got.len(), expected: expected.len() });
        }
        let mut i: usize = 0;
        while i < got.len()
            invariant
                i <= got.len(),
                got@.len() == expected@.len(),
                expected@ == self@.inputs(),
                forall|j: int| 0 <= j < i ==> got@[j] == expected@[j],
            decreases got.len() - i,
        {
            if got[i] != expected[i] {
                proof {
                    let w = choose|k: int| 0 <= k < got@.len() && got@[k] != expected@[k] && (forall|j: int| 0 <= j < k ==> got@[j] == expected@[j]);
                    assert(0 <= i < got@.len() && got@[i as int] != expected@[i as int] && (forall|j: int| 0 <= j < i ==> got@[j] == expected@[j]));
                    if w < i {
                        assert(got@[w] == expected@[w]);
                    } else if w > i {
                        assert(got@[i as int] == expected@[i as int]);
                    }
                }
                return Err(ProgramValidationError::InvalidVariableType { is: got[i], expected: expected[i] });
            }
            i = i + 1;
        }
        Ok(())
    }
}

} // verus!
