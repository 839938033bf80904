//! Lowering a program to the actions that carry it out against a deployment.
use std::collections::{HashMap, HashSet};
use std::time::Duration;

use vstd::prelude::*;
use vstd::std_specs::hash::{obeys_key_model, builds_valid_hashers};

use crate::instruction::{Instruction, InstructionView};
use crate::operation::{Operation, OperationView};
use crate::builder::{defined_count, defined_in, initial_state, run, BuildState};
use crate::operation::first_mismatch;
use crate::variable::Variable;
use crate::mutators::SIZE_LIMIT;
use crate::program::{Program, ProgramContext, ProgramView};
use crate::variable::Protocol;
use crate::wire::{encode_setup_connection, fits_str0_255, setup_connection_bytes, MESSAGE_TYPE_SETUP_CONNECTION};

verus! {

broadcast use vstd::std_specs::hash::group_hash_axioms;

pub type RoleId = usize;

pub type ConnectionId = usize;

pub type SessionId = usize;

pub type VariableIndex = usize;

/// A `SetupConnection` as the program describes it, before it is encoded.
#[derive(Debug, PartialEq, Eq)]
pub struct SetupConnectionSpec {
    pub protocol: Protocol,
    pub min_version: u16,
    pub max_version: u16,
    pub flags: u32,
    pub endpoint_host: String,
    pub endpoint_port: u16,
    pub vendor: String,
    pub hardware_version: String,
    pub firmware: String,
    pub device_id: String,
}

/// A [`SetupConnectionSpec`] as a mathematical value.
pub struct SetupSpecView {
    pub protocol: Protocol,
    pub min_version: u16,
    pub max_version: u16,
    pub flags: u32,
    pub endpoint_host: Seq<char>,
    pub endpoint_port: u16,
    pub vendor: Seq<char>,
    pub hardware_version: Seq<char>,
    pub firmware: Seq<char>,
    pub device_id: Seq<char>,
}

impl View for SetupConnectionSpec {
    type V = SetupSpecView;

    open spec fn view(&self) -> SetupSpecView {
        SetupSpecView {
            protocol: self.protocol,
            min_version: self.min_version,
            max_version: self.max_version,
            flags: self.flags,
            endpoint_host: self.endpoint_host@,
            endpoint_port: self.endpoint_port,
            vendor: self.vendor@,
            hardware_version: self.hardware_version@,
            firmware: self.firmware@,
            device_id: self.device_id@,
        }
    }
}

/// What a client sends until the program says otherwise: the mining protocol at version 2, no
/// flags, the unspecified address, and this tool as the vendor.
pub open spec fn default_setup() -> SetupSpecView {
    SetupSpecView {
        protocol: Protocol::Mining,
        min_version: 2,
        max_version: 2,
        flags: 0,
        endpoint_host: "0.0.0.0"@,
        endpoint_port: 0,
        vendor: "stratamoto"@,
        hardware_version: seq![],
        firmware: seq![],
        device_id: seq![],
    }
}

impl Default for SetupConnectionSpec {
    fn default() -> (s: Self)
        ensures
            s@ == default_setup(),
    {
        Self {
            protocol: Protocol::Mining,
            min_version: 2,
            max_version: 2,
            flags: 0,
            endpoint_host: "0.0.0.0".to_owned(),
            endpoint_port: 0,
            vendor: "stratamoto".to_owned(),
            hardware_version: String::new(),
            firmware: String::new(),
            device_id: String::new(),
        }
    }
}

impl SetupConnectionSpec {
    /// A copy of the spec, equal to it as a value.
    pub fn duplicate(&self) -> (s: Self)
        ensures
            s@ == self@,
    {
        Self {
            protocol: self.protocol,
            min_version: self.min_version,
            max_version: self.max_version,
            flags: self.flags,
            endpoint_host: self.endpoint_host.clone(),
            endpoint_port: self.endpoint_port,
            vendor: self.vendor.clone(),
            hardware_version: self.hardware_version.clone(),
            firmware: self.firmware.clone(),
            device_id: self.device_id.clone(),
        }
    }
}

impl Clone for SetupConnectionSpec {
    fn clone(&self) -> (s: Self)
        ensures
            s@ == self@,
    {
        self.duplicate()
    }
}

/// Something a program does that a conforming client would not, attached to the action it
/// shows in so that an oracle can relax what the deployment owes in answer.
#[derive(Debug, Clone, Copy, PartialEq, Eq, Hash, Structural)]
pub enum ClientViolation {
    /// A `SetupConnection` that is not the first message on its connection.
    SetupNotFirst,
    /// A `SetupConnection` on a connection a frame of the program's own choosing went out on.
    RawFrameBefore,
}

/// A single step of a compiled program, ready to be executed against a deployment.
#[derive(Debug, PartialEq, Eq)]
pub enum Action {
    /// Open a transport from one role to another.
    Connect { connection: ConnectionId, role: RoleId },
    /// Send one frame.
    Send { connection: ConnectionId, extension_type: u16, message_type: u8, channel_msg: bool, payload: Vec<u8> },
    /// Await the answer to the last request and bind it to a session.
    AwaitSetupResponse {
        connection: ConnectionId,
        session: SessionId,
        protocol: Protocol,
        /// Whether the `SetupConnection` was the first message on its connection, which is
        /// the only one a server owes an answer to.
        first_on_connection: bool,
    },
    /// Run what follows only if the session's setup succeeded; otherwise skip to the action
    /// after `end`.
    EnterOnSetupSuccess { session: SessionId, end: usize },
    /// The end of the block the innermost enter opened.
    ExitBlock,
    AdvanceTime(Duration),
    /// Collect everything the deployment sent since the previous probe.
    Probe,
}

/// An [`Action`] as a mathematical value.
pub enum ActionView {
    Connect { connection: ConnectionId, role: RoleId },
    Send { connection: ConnectionId, extension_type: u16, message_type: u8, channel_msg: bool, payload: Seq<u8> },
    AwaitSetupResponse { connection: ConnectionId, session: SessionId, protocol: Protocol, first_on_connection: bool },
    EnterOnSetupSuccess { session: SessionId, end: usize },
    ExitBlock,
    AdvanceTime(Duration),
    Probe,
}

impl View for Action {
    type V = ActionView;

    open spec fn view(&self) -> ActionView {
        match self {
            Action::Connect { connection, role } => ActionView::Connect { connection: *connection, role: *role },
            Action::Send { connection, extension_type, message_type, channel_msg, payload } => ActionView::Send {
                connection: *connection,
                extension_type: *extension_type,
                message_type: *message_type,
                channel_msg: *channel_msg,
                payload: payload@,
            },
            Action::AwaitSetupResponse { connection, session, protocol, first_on_connection } => ActionView::AwaitSetupResponse {
                connection: *connection,
                session: *session,
                protocol: *protocol,
                first_on_connection: *first_on_connection,
            },
            Action::EnterOnSetupSuccess { session, end } => ActionView::EnterOnSetupSuccess { session: *session, end: *end },
            Action::ExitBlock => ActionView::ExitBlock,
            Action::AdvanceTime(d) => ActionView::AdvanceTime(*d),
            Action::Probe => ActionView::Probe,
        }
    }
}

/// Links compiled actions back to the instructions and variables they came from, so that a
/// failure can be reported against the program that produced it.
pub struct CompiledMetadata {
    /// Instruction index each action was compiled from.
    pub action_instructions: Vec<usize>,
    /// Variable index that defines each session.
    pub session_variables: HashMap<SessionId, VariableIndex>,
    /// Variable index that defines each connection.
    pub connection_variables: HashMap<ConnectionId, VariableIndex>,
    /// The `SetupConnection` sent on each session.
    pub session_setups: HashMap<SessionId, SetupConnectionSpec>,
    /// What a conforming client would not have done, by the index of the action it shows in.
    pub violations: HashMap<usize, Vec<ClientViolation>>,
}

pub struct CompiledProgram {
    pub context: ProgramContext,
    pub actions: Vec<Action>,
    pub metadata: CompiledMetadata,
}

#[derive(Debug, Clone, PartialEq)]
pub enum CompilerError {
    /// An input referred to a variable the compiler never produced a value for.
    MissingValue(usize),
    /// An input had a value of the wrong shape, i.e. the program was not validated.
    UnexpectedValue(usize),
    /// A string field exceeded the 255 bytes `STR0_255` allows.
    StringTooLong(usize),
    Encoding(String),
}

/// A [`CompilerError`] as a mathematical value.
pub enum CompilerErrorView {
    MissingValue(usize),
    UnexpectedValue(usize),
    StringTooLong(usize),
    Encoding(Seq<char>),
}

impl View for CompilerError {
    type V = CompilerErrorView;

    open spec fn view(&self) -> CompilerErrorView {
        match self {
            CompilerError::MissingValue(i) => CompilerErrorView::MissingValue(*i),
            CompilerError::UnexpectedValue(i) => CompilerErrorView::UnexpectedValue(*i),
            CompilerError::StringTooLong(i) => CompilerErrorView::StringTooLong(*i),
            CompilerError::Encoding(e) => CompilerErrorView::Encoding(e@),
        }
    }
}

/// The value a variable holds while a program is lowered.
enum Value {
    Nop,
    Role(RoleId),
    Connection(ConnectionId),
    Session(SessionId),
    Version(u16),
    Flags(u32),
    Port(u16),
    Str(String),
    Bytes(Vec<u8>),
    Duration(Duration),
    SetupConnection(SetupConnectionSpec),
}

/// The value of a variable, as a mathematical value.
pub enum ValueView {
    Nop,
    Role(RoleId),
    Connection(ConnectionId),
    Session(SessionId),
    Version(u16),
    Flags(u32),
    Port(u16),
    Str(Seq<char>),
    Bytes(Seq<u8>),
    Duration(Duration),
    SetupConnection(SetupSpecView),
}

impl View for Value {
    type V = ValueView;

    closed spec fn view(&self) -> ValueView {
        match self {
            Value::Nop => ValueView::Nop,
            Value::Role(r) => ValueView::Role(*r),
            Value::Connection(c) => ValueView::Connection(*c),
            Value::Session(s) => ValueView::Session(*s),
            Value::Version(v) => ValueView::Version(*v),
            Value::Flags(v) => ValueView::Flags(*v),
            Value::Port(v) => ValueView::Port(*v),
            Value::Str(v) => ValueView::Str(v@),
            Value::Bytes(v) => ValueView::Bytes(v@),
            Value::Duration(v) => ValueView::Duration(*v),
            Value::SetupConnection(v) => ValueView::SetupConnection(v@),
        }
    }
}

/// Where lowering stands after some instructions: the value of every variable, the actions so
/// far with the instruction each came from, what the metadata records, how many connections
/// and sessions there are, the connections something went out on and those a raw frame went
/// out on, and the success blocks still open, by the index of the action that enters them.
pub struct CompileState {
    pub values: Seq<ValueView>,
    pub actions: Seq<ActionView>,
    pub action_instructions: Seq<usize>,
    pub session_variables: Map<SessionId, VariableIndex>,
    pub connection_variables: Map<ConnectionId, VariableIndex>,
    pub session_setups: Map<SessionId, SetupSpecView>,
    pub violations: Map<usize, Seq<ClientViolation>>,
    pub connections: nat,
    pub sessions: nat,
    pub sent: Set<ConnectionId>,
    pub raw_sent: Set<ConnectionId>,
    pub open_blocks: Seq<usize>,
}

/// Before the first instruction. Connections that exist before the program runs are
/// addressable, and are already set up, so nothing sent on them is a first message.
pub open spec fn initial_compile_state(ctx: ProgramContext) -> CompileState {
    CompileState {
        values: seq![],
        actions: seq![],
        action_instructions: seq![],
        session_variables: Map::empty(),
        connection_variables: Map::empty(),
        session_setups: Map::empty(),
        violations: Map::empty(),
        connections: ctx.num_connections as nat,
        sessions: 0,
        sent: Set::new(|c: ConnectionId| c < ctx.num_connections),
        raw_sent: Set::empty(),
        open_blocks: seq![],
    }
}

/// The value of variable `i`.
pub open spec fn value_at(st: CompileState, i: usize) -> Result<ValueView, CompilerErrorView> {
    if i < st.values.len() {
        Ok(st.values[i as int])
    } else {
        Err(CompilerErrorView::MissingValue(i))
    }
}

pub open spec fn role_at(st: CompileState, i: usize) -> Result<RoleId, CompilerErrorView> {
    match value_at(st, i) {
        Ok(ValueView::Role(r)) => Ok(r),
        Ok(_) => Err(CompilerErrorView::UnexpectedValue(i)),
        Err(e) => Err(e),
    }
}

pub open spec fn connection_at(st: CompileState, i: usize) -> Result<ConnectionId, CompilerErrorView> {
    match value_at(st, i) {
        Ok(ValueView::Connection(c)) => Ok(c),
        Ok(_) => Err(CompilerErrorView::UnexpectedValue(i)),
        Err(e) => Err(e),
    }
}

pub open spec fn session_at(st: CompileState, i: usize) -> Result<SessionId, CompilerErrorView> {
    match value_at(st, i) {
        Ok(ValueView::Session(s)) => Ok(s),
        Ok(_) => Err(CompilerErrorView::UnexpectedValue(i)),
        Err(e) => Err(e),
    }
}

pub open spec fn version_at(st: CompileState, i: usize) -> Result<u16, CompilerErrorView> {
    match value_at(st, i) {
        Ok(ValueView::Version(v)) => Ok(v),
        Ok(_) => Err(CompilerErrorView::UnexpectedValue(i)),
        Err(e) => Err(e),
    }
}

pub open spec fn flags_at(st: CompileState, i: usize) -> Result<u32, CompilerErrorView> {
    match value_at(st, i) {
        Ok(ValueView::Flags(v)) => Ok(v),
        Ok(_) => Err(CompilerErrorView::UnexpectedValue(i)),
        Err(e) => Err(e),
    }
}

pub open spec fn port_at(st: CompileState, i: usize) -> Result<u16, CompilerErrorView> {
    match value_at(st, i) {
        Ok(ValueView::Port(v)) => Ok(v),
        Ok(_) => Err(CompilerErrorView::UnexpectedValue(i)),
        Err(e) => Err(e),
    }
}

pub open spec fn str_at(st: CompileState, i: usize) -> Result<Seq<char>, CompilerErrorView> {
    match value_at(st, i) {
        Ok(ValueView::Str(v)) => Ok(v),
        Ok(_) => Err(CompilerErrorView::UnexpectedValue(i)),
        Err(e) => Err(e),
    }
}

pub open spec fn bytes_at(st: CompileState, i: usize) -> Result<Seq<u8>, CompilerErrorView> {
    match value_at(st, i) {
        Ok(ValueView::Bytes(v)) => Ok(v),
        Ok(_) => Err(CompilerErrorView::UnexpectedValue(i)),
        Err(e) => Err(e),
    }
}

pub open spec fn duration_at(st: CompileState, i: usize) -> Result<Duration, CompilerErrorView> {
    match value_at(st, i) {
        Ok(ValueView::Duration(v)) => Ok(v),
        Ok(_) => Err(CompilerErrorView::UnexpectedValue(i)),
        Err(e) => Err(e),
    }
}

pub open spec fn setup_at(st: CompileState, i: usize) -> Result<SetupSpecView, CompilerErrorView> {
    match value_at(st, i) {
        Ok(ValueView::SetupConnection(v)) => Ok(v),
        Ok(_) => Err(CompilerErrorView::UnexpectedValue(i)),
        Err(e) => Err(e),
    }
}

/// The state with one more variable.
pub open spec fn with_value(st: CompileState, v: ValueView) -> CompileState {
    CompileState { values: st.values.push(v), ..st }
}

/// The state with one more action, compiled from instruction `index`.
pub open spec fn with_action(st: CompileState, index: usize, a: ActionView) -> CompileState {
    CompileState { actions: st.actions.push(a), action_instructions: st.action_instructions.push(index), ..st }
}

/// The state with the setup in variable `i` replaced.
pub open spec fn with_setup(st: CompileState, i: usize, spec: SetupSpecView) -> CompileState {
    CompileState { values: st.values.update(i as int, ValueView::SetupConnection(spec)), ..st }
}

/// The payload a setup is sent with, if its strings fit.
pub open spec fn setup_payload(spec: SetupSpecView) -> Option<Seq<u8>> {
    if fits_str0_255(spec.endpoint_host) && fits_str0_255(spec.vendor) && fits_str0_255(spec.hardware_version)
        && fits_str0_255(spec.firmware) && fits_str0_255(spec.device_id) {
        Some(setup_connection_bytes(spec.protocol.spec_id(), spec.min_version, spec.max_version, spec.flags,
            spec.endpoint_host, spec.endpoint_port, spec.vendor, spec.hardware_version, spec.firmware, spec.device_id))
    } else {
        None
    }
}

/// What a setup sent on `connection` violates: not being the first message on it, and coming
/// after a raw frame on it.
pub open spec fn setup_violations(st: CompileState, connection: ConnectionId) -> Seq<ClientViolation> {
    (if st.sent.contains(connection) { seq![ClientViolation::SetupNotFirst] } else { seq![] })
        + (if st.raw_sent.contains(connection) { seq![ClientViolation::RawFrameBefore] } else { seq![] })
}

/// Sending the setup `spec` on `connection`, with `payload`: a new session defined by the
/// variable about to be pushed, the frame, and the wait for the answer, on which any
/// violation is recorded.
pub open spec fn send_setup(st: CompileState, index: usize, connection: ConnectionId, spec: SetupSpecView, payload: Seq<u8>, protocol: Protocol) -> CompileState {
    let session = st.sessions as usize;
    let violations = setup_violations(st, connection);
    let await_index = (st.actions.len() + 1) as usize;
    let sent = with_action(with_action(st, index, ActionView::Send {
        connection,
        extension_type: 0,
        message_type: MESSAGE_TYPE_SETUP_CONNECTION,
        channel_msg: false,
        payload,
    }), index, ActionView::AwaitSetupResponse { connection, session, protocol, first_on_connection: !st.sent.contains(connection) });
    CompileState {
        values: st.values.push(ValueView::Session(session)),
        session_variables: st.session_variables.insert(session, st.values.len() as usize),
        session_setups: st.session_setups.insert(session, spec),
        violations: if violations.len() > 0 { st.violations.insert(await_index, violations) } else { st.violations },
        sessions: st.sessions + 1,
        sent: st.sent.insert(connection),
        ..sent
    }
}

/// Closing the innermost success block: the enter that opened it learns where its exit is.
pub open spec fn exit_block(st: CompileState, index: usize) -> CompileState {
    let exit = st.actions.len() as usize;
    let closed = if st.open_blocks.len() > 0 {
        let enter = st.open_blocks.last() as int;
        CompileState {
            actions: st.actions.update(enter, match st.actions[enter] {
                ActionView::EnterOnSetupSuccess { session, .. } => ActionView::EnterOnSetupSuccess { session, end: exit },
                other => other,
            }),
            open_blocks: st.open_blocks.drop_last(),
            ..st
        }
    } else {
        st
    };
    with_action(closed, index, ActionView::ExitBlock)
}

/// Lowering instruction `index`, `ins`, in state `st`.
pub open spec fn step(st: CompileState, index: usize, ins: InstructionView) -> Result<CompileState, CompilerErrorView> {
    let inputs = ins.inputs;
    match ins.operation {
        OperationView::Nop { outputs, inner_outputs } => Ok(CompileState {
            values: st.values + Seq::new((outputs + inner_outputs) as nat, |k: int| ValueView::Nop),
            ..st
        }),
        OperationView::LoadRole(i) => Ok(with_value(st, ValueView::Role(i))),
        OperationView::LoadConnection(i) => Ok(with_value(st, ValueView::Connection(i))),
        OperationView::LoadVersion(v) => Ok(with_value(st, ValueView::Version(v))),
        OperationView::LoadFlags(v) => Ok(with_value(st, ValueView::Flags(v))),
        OperationView::LoadPort(v) => Ok(with_value(st, ValueView::Port(v))),
        OperationView::LoadStr(v) => Ok(with_value(st, ValueView::Str(v))),
        OperationView::LoadBytes(v) => Ok(with_value(st, ValueView::Bytes(v))),
        OperationView::LoadDuration(v) => Ok(with_value(st, ValueView::Duration(v))),
        OperationView::Connect => match role_at(st, inputs[0]) {
            Ok(role) => {
                let connection = st.connections as usize;
                Ok(with_action(CompileState {
                    values: st.values.push(ValueView::Connection(connection)),
                    connection_variables: st.connection_variables.insert(connection, st.values.len() as usize),
                    connections: st.connections + 1,
                    ..st
                }, index, ActionView::Connect { connection, role }))
            },
            Err(e) => Err(e),
        },
        OperationView::BeginBuildSetupConnection => Ok(with_value(st, ValueView::SetupConnection(default_setup()))),
        OperationView::SetVersions => match version_at(st, inputs[1]) {
            Ok(min_version) => match version_at(st, inputs[2]) {
                Ok(max_version) => match setup_at(st, inputs[0]) {
                    Ok(spec) => Ok(with_setup(st, inputs[0], SetupSpecView { min_version, max_version, ..spec })),
                    Err(e) => Err(e),
                },
                Err(e) => Err(e),
            },
            Err(e) => Err(e),
        },
        OperationView::SetFlags => match flags_at(st, inputs[1]) {
            Ok(flags) => match setup_at(st, inputs[0]) {
                Ok(spec) => Ok(with_setup(st, inputs[0], SetupSpecView { flags, ..spec })),
                Err(e) => Err(e),
            },
            Err(e) => Err(e),
        },
        OperationView::SetEndpoint => match str_at(st, inputs[1]) {
            Ok(endpoint_host) => match port_at(st, inputs[2]) {
                Ok(endpoint_port) => match setup_at(st, inputs[0]) {
                    Ok(spec) => Ok(with_setup(st, inputs[0], SetupSpecView { endpoint_host, endpoint_port, ..spec })),
                    Err(e) => Err(e),
                },
                Err(e) => Err(e),
            },
            Err(e) => Err(e),
        },
        OperationView::SetDeviceInfo => match str_at(st, inputs[1]) {
            Ok(vendor) => match str_at(st, inputs[2]) {
                Ok(hardware_version) => match str_at(st, inputs[3]) {
                    Ok(firmware) => match str_at(st, inputs[4]) {
                        Ok(device_id) => match setup_at(st, inputs[0]) {
                            Ok(spec) => Ok(with_setup(st, inputs[0], SetupSpecView { vendor, hardware_version, firmware, device_id, ..spec })),
                            Err(e) => Err(e),
                        },
                        Err(e) => Err(e),
                    },
                    Err(e) => Err(e),
                },
                Err(e) => Err(e),
            },
            Err(e) => Err(e),
        },
        OperationView::EndBuildSetupConnection { protocol } => match setup_at(st, inputs[0]) {
            Ok(spec) => Ok(with_value(st, ValueView::SetupConnection(SetupSpecView { protocol, ..spec }))),
            Err(e) => Err(e),
        },
        OperationView::SendSetupConnection { protocol } => match connection_at(st, inputs[0]) {
            Ok(connection) => match setup_at(st, inputs[1]) {
                Ok(spec) => match setup_payload(spec) {
                    Some(payload) => Ok(send_setup(st, index, connection, spec, payload, protocol)),
                    None => Err(CompilerErrorView::StringTooLong(inputs[1])),
                },
                Err(e) => Err(e),
            },
            Err(e) => Err(e),
        },
        OperationView::BeginOnSetupSuccess { .. } => match session_at(st, inputs[0]) {
            Ok(session) => {
                let entered = with_action(st, index, ActionView::EnterOnSetupSuccess { session, end: 0 });
                Ok(CompileState {
                    values: st.values.push(ValueView::Session(session)),
                    open_blocks: st.open_blocks.push(st.actions.len() as usize),
                    ..entered
                })
            },
            Err(e) => Err(e),
        },
        OperationView::EndOnSetupSuccess => Ok(exit_block(st, index)),
        OperationView::SendRawFrame { message_type, extension_type } => match connection_at(st, inputs[0]) {
            Ok(connection) => match bytes_at(st, inputs[1]) {
                Ok(payload) => Ok(with_action(CompileState {
                    sent: st.sent.insert(connection),
                    raw_sent: st.raw_sent.insert(connection),
                    ..st
                }, index, ActionView::Send { connection, extension_type, message_type, channel_msg: false, payload })),
                Err(e) => Err(e),
            },
            Err(e) => Err(e),
        },
        OperationView::AdvanceTime => match duration_at(st, inputs[0]) {
            Ok(duration) => Ok(with_action(st, index, ActionView::AdvanceTime(duration))),
            Err(e) => Err(e),
        },
        OperationView::Probe => Ok(with_action(st, index, ActionView::Probe)),
    }
}

/// Lowering the instructions in order, from the state before the first.
pub open spec fn compile_run(ctx: ProgramContext, instrs: Seq<InstructionView>) -> Result<CompileState, CompilerErrorView>
    decreases instrs.len(),
{
    if instrs.len() == 0 {
        Ok(initial_compile_state(ctx))
    } else {
        match compile_run(ctx, instrs.drop_last()) {
            Ok(st) => step(st, (instrs.len() - 1) as usize, instrs.last()),
            Err(e) => Err(e),
        }
    }
}

/// One step defines the variables its operation defines, and adds at most two actions, one
/// connection and one session.
pub proof fn lemma_step_growth(st: CompileState, index: usize, ins: InstructionView)
    requires
        forall|k: int| 0 <= k < st.open_blocks.len() ==> (#[trigger] st.open_blocks[k]) < st.actions.len(),
    ensures
        step(st, index, ins) matches Ok(t) ==> {
            &&& t.values.len() == st.values.len() + ins.operation.num_defined()
            &&& t.actions.len() <= st.actions.len() + 2
            &&& t.connections <= st.connections + 1
            &&& t.sessions <= st.sessions + 1
        },
{
    if let OperationView::EndOnSetupSuccess = ins.operation {
        if st.open_blocks.len() > 0 {
            let enter = st.open_blocks.last() as int;
            assert(st.actions.update(enter, match st.actions[enter] {
                ActionView::EnterOnSetupSuccess { session, .. } => ActionView::EnterOnSetupSuccess { session, end: st.actions.len() as usize },
                other => other,
            }).len() == st.actions.len());
        }
    }
}

/// Once lowering fails, every longer program fails the same way.
pub proof fn lemma_compile_error_sticks(ctx: ProgramContext, instrs: Seq<InstructionView>, k: int)
    requires
        0 <= k <= instrs.len(),
        compile_run(ctx, instrs.take(k)) is Err,
    ensures
        compile_run(ctx, instrs) == compile_run(ctx, instrs.take(k)),
    decreases instrs.len() - k,
{
    if k < instrs.len() {
        assert(instrs.take(k + 1).drop_last() =~= instrs.take(k));
        lemma_compile_error_sticks(ctx, instrs, k + 1);
    } else {
        assert(instrs.take(k) =~= instrs);
    }
}

/// `compiled` holds what lowering reached in `st`, on context `ctx`.
pub open spec fn compiled_as(compiled: CompiledProgram, ctx: ProgramContext, st: CompileState) -> bool {
    &&& compiled.context == ctx
    &&& compiled.actions@.map_values(|a: Action| a@) == st.actions
    &&& compiled.metadata.action_instructions@ == st.action_instructions
    &&& compiled.metadata.session_variables@ == st.session_variables
    &&& compiled.metadata.connection_variables@ == st.connection_variables
    &&& compiled.metadata.session_setups@.map_values(|s: SetupConnectionSpec| s@) == st.session_setups
    &&& compiled.metadata.violations@.map_values(|v: Vec<ClientViolation>| v@) == st.violations
}

/// What lowering a program needs so that nothing it counts overflows and no instruction lacks
/// an input its operation reads: every instruction has at least the inputs its operation
/// consumes, and the instructions, the variables they define and the connections that exist
/// beforehand stay within [`SIZE_LIMIT`].
pub open spec fn compilable(p: ProgramView) -> bool {
    &&& forall|i: int| 0 <= i < p.instructions.len() ==> (#[trigger] p.instructions[i]).inputs.len() >= p.instructions[i].operation.inputs().len()
    &&& p.instructions.len() <= SIZE_LIMIT
    &&& defined_count(p.instructions) <= SIZE_LIMIT
    &&& p.context.num_connections <= SIZE_LIMIT
}

/// Whether the compiler can take the program: every instruction has the inputs its operation
/// reads, and the program is within [`SIZE_LIMIT`] instructions, variables and connections.
pub fn is_compilable(program: &Program) -> (b: bool)
    ensures
        b == compilable(program@),
{
    let ghost a = program@.instructions;
    if program.instructions.len() > SIZE_LIMIT || program.context.num_connections > SIZE_LIMIT {
        return false;
    }
    let mut defined: usize = 0;
    let mut k: usize = 0;
    while k < program.instructions.len()
        invariant
            a == program@.instructions,
            a.len() <= SIZE_LIMIT,
            k <= a.len(),
            defined == defined_count(a.take(k as int)),
            defined <= SIZE_LIMIT,
            forall|i: int| 0 <= i < k ==> (#[trigger] a[i]).inputs.len() >= a[i].operation.inputs().len(),
        decreases a.len() - k,
    {
        let instruction = &program.instructions[k];
        if instruction.inputs.len() < instruction.operation.num_inputs() {
            assert(a[k as int].inputs.len() < a[k as int].operation.inputs().len());
            return false;
        }
        proof {
            assert(a.take(k + 1).drop_last() =~= a.take(k as int));
            assert(a.take(k + 1).last() == a[k as int]);
        }
        let more = instruction.operation.num_outputs() as u128 + instruction.operation.num_inner_outputs() as u128;
        if more > (SIZE_LIMIT - defined) as u128 {
            proof {
                crate::builder::lemma_defined_count_prefix(a, k + 1);
            }
            return false;
        }
        defined = defined + more as usize;
        k = k + 1;
    }
    assert(a.take(a.len() as int) =~= a);
    true
}

/// `r` is the exec form of the spec result `s`.
pub open spec fn same_result<T>(r: Result<T, CompilerError>, s: Result<T, CompilerErrorView>) -> bool {
    match s {
        Ok(v) => r == Ok::<T, CompilerError>(v),
        Err(e) => r matches Err(e2) && e2@ == e,
    }
}

/// Lowers a [`Program`] to the actions that carry it out.
pub struct Compiler {
    values: Vec<Value>,
    actions: Vec<Action>,
    metadata: CompiledMetadata,
    connections: usize,
    sessions: usize,
    /// Connections something has already been sent on.
    sent: HashSet<ConnectionId>,
    /// Connections a raw frame has been sent on.
    raw_sent: HashSet<ConnectionId>,
    /// The success blocks still open, by the index of the action that enters them.
    open_blocks: Vec<usize>,
}

impl Compiler {
    /// Where lowering stands, as a value.
    pub closed spec fn state(&self) -> CompileState {
        CompileState {
            values: self.values@.map_values(|v: Value| v@),
            actions: self.actions@.map_values(|a: Action| a@),
            action_instructions: self.metadata.action_instructions@,
            session_variables: self.metadata.session_variables@,
            connection_variables: self.metadata.connection_variables@,
            session_setups: self.metadata.session_setups@.map_values(|s: SetupConnectionSpec| s@),
            violations: self.metadata.violations@.map_values(|v: Vec<ClientViolation>| v@),
            connections: self.connections as nat,
            sessions: self.sessions as nat,
            sent: self.sent@,
            raw_sent: self.raw_sent@,
            open_blocks: self.open_blocks@,
        }
    }

    /// Nothing has been lowered yet.
    pub closed spec fn is_fresh(&self) -> bool {
        &&& self.values@.len() == 0
        &&& self.actions@.len() == 0
        &&& self.metadata.action_instructions@.len() == 0
        &&& self.metadata.session_variables@ == Map::<SessionId, VariableIndex>::empty()
        &&& self.metadata.connection_variables@ == Map::<ConnectionId, VariableIndex>::empty()
        &&& self.metadata.session_setups@ == Map::<SessionId, SetupConnectionSpec>::empty()
        &&& self.metadata.violations@ == Map::<usize, Vec<ClientViolation>>::empty()
        &&& self.sessions == 0
        &&& self.raw_sent@ == Set::<ConnectionId>::empty()
        &&& self.open_blocks@.len() == 0
        &&& self.sent@ == Set::<ConnectionId>::empty()
    }

    /// The bookkeeping lowering keeps consistent: an instruction for every action, and open
    /// blocks that name actions.
    closed spec fn wf(&self) -> bool {
        &&& self.metadata.action_instructions@.len() == self.actions@.len()
        &&& forall|k: int| 0 <= k < self.open_blocks@.len() ==> (#[trigger] self.open_blocks@[k]) < self.actions@.len()
    }

    pub fn new() -> (c: Self)
        ensures
            c.is_fresh(),
    {
        Compiler {
            values: Vec::new(),
            actions: Vec::new(),
            metadata: CompiledMetadata {
                action_instructions: Vec::new(),
                session_variables: HashMap::new(),
                connection_variables: HashMap::new(),
                session_setups: HashMap::new(),
                violations: HashMap::new(),
            },
            connections: 0,
            sessions: 0,
            sent: HashSet::new(),
            raw_sent: HashSet::new(),
            open_blocks: Vec::new(),
        }
    }

    fn push_value(&mut self, v: Value)
        ensures
            final(self).state() == with_value(old(self).state(), v@),
            final(self).wf() == old(self).wf(),
            final(self).state().values.len() == old(self).state().values.len() + 1,
            final(self).values@.len() == old(self).values@.len() + 1,
            final(self).actions@ == old(self).actions@,
            final(self).metadata.action_instructions@ == old(self).metadata.action_instructions@,
            final(self).open_blocks@ == old(self).open_blocks@,
            final(self).connections == old(self).connections,
            final(self).sessions == old(self).sessions,
    {
        let ghost before = self.values@;
        self.values.push(v);
        assert(self.values@.map_values(|x: Value| x@) =~= before.map_values(|x: Value| x@).push(v@));
    }

    fn push_action(&mut self, instruction: usize, action: Action)
        requires
            old(self).wf(),
        ensures
            final(self).state() == with_action(old(self).state(), instruction, action@),
            final(self).wf(),
            final(self).actions@.len() == old(self).actions@.len() + 1,
            final(self).values@ == old(self).values@,
            final(self).open_blocks@ == old(self).open_blocks@,
            final(self).connections == old(self).connections,
            final(self).sessions == old(self).sessions,
    {
        let ghost before = self.actions@;
        self.metadata.action_instructions.push(instruction);
        self.actions.push(action);
        assert(self.actions@.map_values(|x: Action| x@) =~= before.map_values(|x: Action| x@).push(action@));
    }

    fn value(&self, i: usize) -> (r: Result<&Value, CompilerError>)
        ensures
            match value_at(self.state(), i) {
                Ok(v) => r matches Ok(x) && x@ == v,
                Err(e) => r matches Err(e2) && e2@ == e,
            },
    {
        if i < self.values.len() {
            Ok(&self.values[i])
        } else {
            Err(CompilerError::MissingValue(i))
        }
    }

    fn role(&self, i: usize) -> (r: Result<RoleId, CompilerError>)
        ensures
            same_result(r, role_at(self.state(), i)),
    {
        match self.value(i)? {
            Value::Role(v) => Ok(*v),
            _ => Err(CompilerError::UnexpectedValue(i)),
        }
    }

    fn connection(&self, i: usize) -> (r: Result<ConnectionId, CompilerError>)
        ensures
            same_result(r, connection_at(self.state(), i)),
    {
        match self.value(i)? {
            Value::Connection(v) => Ok(*v),
            _ => Err(CompilerError::UnexpectedValue(i)),
        }
    }

    fn session(&self, i: usize) -> (r: Result<SessionId, CompilerError>)
        ensures
            same_result(r, session_at(self.state(), i)),
    {
        match self.value(i)? {
            Value::Session(v) => Ok(*v),
            _ => Err(CompilerError::UnexpectedValue(i)),
        }
    }

    fn version(&self, i: usize) -> (r: Result<u16, CompilerError>)
        ensures
            same_result(r, version_at(self.state(), i)),
    {
        match self.value(i)? {
            Value::Version(v) => Ok(*v),
            _ => Err(CompilerError::UnexpectedValue(i)),
        }
    }

    fn flags(&self, i: usize) -> (r: Result<u32, CompilerError>)
        ensures
            same_result(r, flags_at(self.state(), i)),
    {
        match self.value(i)? {
            Value::Flags(v) => Ok(*v),
            _ => Err(CompilerError::UnexpectedValue(i)),
        }
    }

    fn port(&self, i: usize) -> (r: Result<u16, CompilerError>)
        ensures
            same_result(r, port_at(self.state(), i)),
    {
        match self.value(i)? {
            Value::Port(v) => Ok(*v),
            _ => Err(CompilerError::UnexpectedValue(i)),
        }
    }

    fn duration(&self, i: usize) -> (r: Result<Duration, CompilerError>)
        ensures
            same_result(r, duration_at(self.state(), i)),
    {
        match self.value(i)? {
            Value::Duration(v) => Ok(*v),
            _ => Err(CompilerError::UnexpectedValue(i)),
        }
    }

    fn string(&self, i: usize) -> (r: Result<String, CompilerError>)
        ensures
            match str_at(self.state(), i) {
                Ok(v) => r matches Ok(x) && x@ == v,
                Err(e) => r matches Err(e2) && e2@ == e,
            },
    {
        match self.value(i)? {
            Value::Str(v) => Ok(v.clone()),
            _ => Err(CompilerError::UnexpectedValue(i)),
        }
    }

    fn bytes(&self, i: usize) -> (r: Result<Vec<u8>, CompilerError>)
        ensures
            match bytes_at(self.state(), i) {
                Ok(v) => r matches Ok(x) && x@ == v,
                Err(e) => r matches Err(e2) && e2@ == e,
            },
    {
        match self.value(i)? {
            Value::Bytes(v) => {
                let copy = v.clone();
                assert(copy@ =~= v@);
                Ok(copy)
            },
            _ => Err(CompilerError::UnexpectedValue(i)),
        }
    }

    fn setup(&self, i: usize) -> (r: Result<SetupConnectionSpec, CompilerError>)
        ensures
            match setup_at(self.state(), i) {
                Ok(v) => r matches Ok(x) && x@ == v,
                Err(e) => r matches Err(e2) && e2@ == e,
            },
    {
        match self.value(i)? {
            Value::SetupConnection(v) => Ok(v.duplicate()),
            _ => Err(CompilerError::UnexpectedValue(i)),
        }
    }

    /// Put `spec` in place of the setup in variable `i`, which holds one.
    fn replace_setup(&mut self, i: usize, spec: SetupConnectionSpec)
        requires
            i < old(self).values@.len(),
        ensures
            final(self).state() == with_setup(old(self).state(), i, spec@),
            final(self).wf() == old(self).wf(),
            final(self).values@.len() == old(self).values@.len(),
            final(self).actions@ == old(self).actions@,
            final(self).open_blocks@ == old(self).open_blocks@,
            final(self).connections == old(self).connections,
            final(self).sessions == old(self).sessions,
    {
        let ghost before = self.values@;
        let ghost sv = spec@;
        self.values.set(i, Value::SetupConnection(spec));
        assert(self.values@.map_values(|x: Value| x@) =~= before.map_values(|x: Value| x@).update(i as int, ValueView::SetupConnection(sv)));
    }

    /// Send the setup `spec` on `connection` with `payload`, opening a session.
    fn send_setup(&mut self, index: usize, connection: ConnectionId, spec: SetupConnectionSpec, payload: Vec<u8>, protocol: Protocol)
        requires
            old(self).wf(),
            old(self).sessions < usize::MAX,
            old(self).actions@.len() + 2 < usize::MAX,
            old(self).values@.len() < usize::MAX,
        ensures
            final(self).state() == send_setup(old(self).state(), index, connection, spec@, payload@, protocol),
            final(self).wf(),
    {
        let ghost st = self.state();
        let ghost spec_view = spec@;
        let first_on_connection = self.sent.insert(connection);
        let raw_before = self.raw_sent.contains(&connection);
        let session = self.sessions;
        self.sessions = self.sessions + 1;
        let variable = self.values.len();
        self.metadata.session_variables.insert(session, variable);
        let ghost setups_before = self.metadata.session_setups@;
        self.metadata.session_setups.insert(session, spec);
        assert(self.metadata.session_setups@.map_values(|s: SetupConnectionSpec| s@) =~= setups_before.map_values(|s: SetupConnectionSpec| s@).insert(session, spec_view));
        self.push_value(Value::Session(session));
        self.push_action(index, Action::Send {
            connection,
            extension_type: 0,
            message_type: MESSAGE_TYPE_SETUP_CONNECTION,
            channel_msg: false,
            payload,
        });
        let await_index = self.actions.len();
        self.push_action(index, Action::AwaitSetupResponse { connection, session, protocol, first_on_connection });
        let mut violations: Vec<ClientViolation> = Vec::new();
        if !first_on_connection {
            violations.push(ClientViolation::SetupNotFirst);
        }
        if raw_before {
            violations.push(ClientViolation::RawFrameBefore);
        }
        assert(violations@ =~= setup_violations(st, connection));
        if violations.len() > 0 {
            let ghost violations_before = self.metadata.violations@;
            let ghost found = violations@;
            self.metadata.violations.insert(await_index, violations);
            assert(self.metadata.violations@.map_values(|v: Vec<ClientViolation>| v@) =~= violations_before.map_values(|v: Vec<ClientViolation>| v@).insert(await_index, found));
        }
        assert(self.state().actions =~= send_setup(st, index, connection, spec_view, payload@, protocol).actions);
    }

    /// Close the innermost success block, telling the action that entered it where it ends.
    fn exit_block(&mut self, index: usize)
        requires
            old(self).wf(),
            old(self).actions@.len() + 1 < usize::MAX,
        ensures
            final(self).state() == exit_block(old(self).state(), index),
            final(self).wf(),
    {
        let ghost st = self.state();
        let exit = self.actions.len();
        if self.open_blocks.len() > 0 {
            let enter = self.open_blocks.pop().unwrap();
            assert(enter == st.open_blocks.last());
            let session = match &self.actions[enter] {
                Action::EnterOnSetupSuccess { session, .. } => Some(*session),
                _ => None,
            };
            let ghost before = self.actions@;
            match session {
                Some(session) => {
                    self.actions.set(enter, Action::EnterOnSetupSuccess { session, end: exit });
                },
                None => {},
            }
            assert(self.actions@.map_values(|a: Action| a@) =~= st.actions.update(enter as int, match st.actions[enter as int] {
                ActionView::EnterOnSetupSuccess { session, .. } => ActionView::EnterOnSetupSuccess { session, end: exit },
                other => other,
            }));
        }
        self.push_action(index, Action::ExitBlock);
    }

    /// Lower instruction `index`.
    #[verifier::rlimit(60)]
    fn compile_instruction(&mut self, index: usize, instruction: &Instruction) -> (r: Result<(), CompilerError>)
        requires
            old(self).wf(),
            instruction@.inputs.len() >= instruction@.operation.inputs().len(),
            old(self).values@.len() + instruction@.operation.num_defined() <= usize::MAX,
            old(self).actions@.len() + 2 < usize::MAX,
            old(self).connections < usize::MAX,
            old(self).sessions < usize::MAX,
        ensures
            match step(old(self).state(), index, instruction@) {
                Ok(t) => r is Ok && final(self).state() == t && final(self).wf(),
                Err(e) => r matches Err(e2) && e2@ == e,
            },
    {
        let ghost st = self.state();
        let inputs = &instruction.inputs;
        match &instruction.operation {
            Operation::Nop { outputs, inner_outputs } => {
                let count = *outputs + *inner_outputs;
                let mut k: usize = 0;
                while k < count
                    invariant
                        k <= count,
                        self.wf(),
                        self.state() == (CompileState { values: st.values + Seq::new(k as nat, |m: int| ValueView::Nop), ..st }),
                        self.values@.len() == st.values.len() + k,
                        st.values.len() + count <= usize::MAX,
                    decreases count - k,
                {
                    self.push_value(Value::Nop);
                    k = k + 1;
                    assert(self.state().values =~= st.values + Seq::new(k as nat, |m: int| ValueView::Nop));
                }
            },
            Operation::LoadRole(i) => self.push_value(Value::Role(*i)),
            Operation::LoadConnection(i) => self.push_value(Value::Connection(*i)),
            Operation::LoadVersion(v) => self.push_value(Value::Version(*v)),
            Operation::LoadFlags(v) => self.push_value(Value::Flags(*v)),
            Operation::LoadPort(v) => self.push_value(Value::Port(*v)),
            Operation::LoadStr(v) => self.push_value(Value::Str(v.clone())),
            Operation::LoadBytes(v) => {
                let copy = v.clone();
                assert(copy@ =~= v@);
                self.push_value(Value::Bytes(copy));
            },
            Operation::LoadDuration(v) => self.push_value(Value::Duration(*v)),
            Operation::Connect => {
                let role = self.role(inputs[0])?;
                let connection = self.connections;
                self.connections = self.connections + 1;
                let variable = self.values.len();
                self.metadata.connection_variables.insert(connection, variable);
                self.push_value(Value::Connection(connection));
                self.push_action(index, Action::Connect { connection, role });
            },
            Operation::BeginBuildSetupConnection => {
                self.push_value(Value::SetupConnection(SetupConnectionSpec::default()));
            },
            Operation::SetVersions => {
                let min_version = self.version(inputs[1])?;
                let max_version = self.version(inputs[2])?;
                let mut spec = self.setup(inputs[0])?;
                spec.min_version = min_version;
                spec.max_version = max_version;
                self.replace_setup(inputs[0], spec);
            },
            Operation::SetFlags => {
                let flags = self.flags(inputs[1])?;
                let mut spec = self.setup(inputs[0])?;
                spec.flags = flags;
                self.replace_setup(inputs[0], spec);
            },
            Operation::SetEndpoint => {
                let host = self.string(inputs[1])?;
                let port = self.port(inputs[2])?;
                let mut spec = self.setup(inputs[0])?;
                spec.endpoint_host = host;
                spec.endpoint_port = port;
                self.replace_setup(inputs[0], spec);
            },
            Operation::SetDeviceInfo => {
                let vendor = self.string(inputs[1])?;
                let hardware_version = self.string(inputs[2])?;
                let firmware = self.string(inputs[3])?;
                let device_id = self.string(inputs[4])?;
                let mut spec = self.setup(inputs[0])?;
                spec.vendor = vendor;
                spec.hardware_version = hardware_version;
                spec.firmware = firmware;
                spec.device_id = device_id;
                self.replace_setup(inputs[0], spec);
            },
            Operation::EndBuildSetupConnection { protocol } => {
                let mut spec = self.setup(inputs[0])?;
                spec.protocol = *protocol;
                self.push_value(Value::SetupConnection(spec));
            },
            Operation::SendSetupConnection { protocol } => {
                let connection = self.connection(inputs[0])?;
                let spec = self.setup(inputs[1])?;
                let payload = match encode_setup_connection(
                    spec.protocol.id(),
                    spec.min_version,
                    spec.max_version,
                    spec.flags,
                    spec.endpoint_host.as_str(),
                    spec.endpoint_port,
                    spec.vendor.as_str(),
                    spec.hardware_version.as_str(),
                    spec.firmware.as_str(),
                    spec.device_id.as_str(),
                ) {
                    Some(payload) => payload,
                    None => {
                        return Err(CompilerError::StringTooLong(inputs[1]));
                    },
                };
                self.send_setup(index, connection, spec, payload, *protocol);
            },
            Operation::BeginOnSetupSuccess { .. } => {
                let session = self.session(inputs[0])?;
                let enter = self.actions.len();
                self.push_action(index, Action::EnterOnSetupSuccess { session, end: 0 });
                self.open_blocks.push(enter);
                self.push_value(Value::Session(session));
            },
            Operation::EndOnSetupSuccess => {
                self.exit_block(index);
            },
            Operation::SendRawFrame { message_type, extension_type } => {
                let connection = self.connection(inputs[0])?;
                let payload = self.bytes(inputs[1])?;
                self.sent.insert(connection);
                self.raw_sent.insert(connection);
                self.push_action(index, Action::Send {
                    connection,
                    extension_type: *extension_type,
                    message_type: *message_type,
                    channel_msg: false,
                    payload,
                });
            },
            Operation::AdvanceTime => {
                let duration = self.duration(inputs[0])?;
                self.push_action(index, Action::AdvanceTime(duration));
            },
            Operation::Probe => self.push_action(index, Action::Probe),
        }
        Ok(())
    }

    pub fn compile(self, program: &Program) -> (r: Result<CompiledProgram, CompilerError>)
        requires
            self.is_fresh(),
            compilable(program@),
        ensures
            match compile_run(program.context, program@.instructions) {
                Ok(st) => r matches Ok(compiled) && compiled_as(compiled, program.context, st),
                Err(e) => r matches Err(e2) && e2@ == e,
            },
    {
        let ghost ctx = program.context;
        let ghost a = program@.instructions;
        let mut compiler = self;
        // Connections that exist before the program runs are addressable via LoadConnection,
        // and are already set up, so nothing sent on them is a first message.
        let mut sent: HashSet<ConnectionId> = HashSet::new();
        let mut c: usize = 0;
        while c < program.context.num_connections
            invariant
                c <= ctx.num_connections,
                ctx == program.context,
                sent@ == Set::new(|x: ConnectionId| x < c),
            decreases ctx.num_connections - c,
        {
            sent.insert(c);
            c = c + 1;
            assert(sent@ =~= Set::new(|x: ConnectionId| x < c));
        }
        compiler.connections = program.context.num_connections;
        compiler.sent = sent;
        proof {
            assert(compiler.state().values =~= Seq::<ValueView>::empty());
            assert(compiler.state().actions =~= Seq::<ActionView>::empty());
            assert(compiler.state().session_setups =~= Map::<SessionId, SetupSpecView>::empty());
            assert(compiler.state().violations =~= Map::<usize, Seq<ClientViolation>>::empty());
            assert(compiler.state().action_instructions =~= Seq::<usize>::empty());
            assert(compiler.state().open_blocks =~= Seq::<usize>::empty());
            assert(compiler.state().sent =~= Set::new(|x: ConnectionId| x < ctx.num_connections));
            assert(compiler.state() == initial_compile_state(ctx));
            assert(a.take(0) =~= Seq::<InstructionView>::empty());
        }

        let mut index: usize = 0;
        while index < program.instructions.len()
            invariant
                ctx == program.context,
                a == program@.instructions,
                compilable(program@),
                index <= a.len(),
                compiler.wf(),
                compile_run(ctx, a.take(index as int)) == Ok::<CompileState, CompilerErrorView>(compiler.state()),
                compiler.values@.len() == defined_count(a.take(index as int)),
                compiler.actions@.len() <= 2 * index,
                compiler.connections <= ctx.num_connections + index,
                compiler.sessions <= index,
            decreases a.len() - index,
        {
            proof {
                assert(a.take(index + 1).drop_last() =~= a.take(index as int));
                assert(a.take(index + 1).last() == a[index as int]);
                crate::builder::lemma_defined_count_prefix(a, index + 1);
                lemma_step_growth(compiler.state(), index, a[index as int]);
            }
            let instruction = &program.instructions[index];
            match compiler.compile_instruction(index, instruction) {
                Ok(()) => {},
                Err(e) => {
                    proof {
                        lemma_compile_error_sticks(ctx, a, index + 1);
                    }
                    return Err(e);
                },
            }
            index = index + 1;
        }
        assert(a.take(a.len() as int) =~= a);
        Ok(CompiledProgram { context: program.context, actions: compiler.actions, metadata: compiler.metadata })
    }
}

impl Default for Compiler {
    fn default() -> (c: Self)
        ensures
            c.is_fresh(),
    {
        Self::new()
    }
}

/// The value lowering gives a variable is of the kind its type says.
pub open spec fn holds_kind(var: Variable, value: ValueView) -> bool {
    match var {
        Variable::Nop => value is Nop,
        Variable::Role => value is Role,
        Variable::Connection => value is Connection,
        Variable::Session(_) => value is Session,
        Variable::Version => value is Version,
        Variable::Flags => value is Flags,
        Variable::Port => value is Port,
        Variable::Str => value is Str,
        Variable::Bytes => value is Bytes,
        Variable::Duration => value is Duration,
        Variable::MutSetupConnection => value is SetupConnection,
        Variable::ConstSetupConnection(_) => value is SetupConnection,
    }
}

/// Lowering has a value of the right kind for every variable the builder knows of.
pub open spec fn corresponds(s: BuildState, c: CompileState) -> bool {
    &&& c.values.len() == s.variables.len()
    &&& forall|i: int| 0 <= i < s.variables.len() ==> holds_kind(#[trigger] s.variables[i].var, c.values[i])
}

/// An instruction the builder accepts lowers without a missing or mistyped value, and keeps
/// lowering in step with the builder.
#[verifier::rlimit(80)]
pub proof fn lemma_step_corresponds(ctx: ProgramContext, s: BuildState, c: CompileState, index: usize, ins: InstructionView)
    requires
        corresponds(s, c),
        s.append_error(ctx, ins) is None,
    ensures
        step(c, index, ins) matches Ok(c2) ==> corresponds(s.accept(ins), c2),
        step(c, index, ins) matches Err(e) ==> e is StringTooLong,
{
    let op = ins.operation;
    let types = s.input_types(ins.inputs);
    assert(ins.inputs.len() == op.inputs().len());
    assert(s.first_undefined(ins.inputs) is None);
    assert forall|k: int| 0 <= k < ins.inputs.len() implies s.in_scope(#[trigger] ins.inputs[k]) by {
        if !s.in_scope(ins.inputs[k]) {
            assert(exists|m: int| 0 <= m < ins.inputs.len() && !defined_in(s.variables, s.scopes, ins.inputs[m]));
        }
    }
    assert(first_mismatch(types, op.inputs()) is None);
    assert forall|k: int| 0 <= k < ins.inputs.len() implies #[trigger] s.variables[ins.inputs[k] as int].var == op.inputs()[k] by {
        assert(types[k] == s.variables[ins.inputs[k] as int].var);
        if types[k] != op.inputs()[k] {
            assert(exists|m: int| 0 <= m < types.len() && types[m] != op.inputs()[m]);
        }
    }
    assert forall|k: int| 0 <= k < ins.inputs.len() implies holds_kind(op.inputs()[k], #[trigger] c.values[ins.inputs[k] as int]) by {
        assert(s.variables[ins.inputs[k] as int].var == op.inputs()[k]);
    }
    let t = s.accept(ins);
    if let Ok(c2) = step(c, index, ins) {
        assert(c2.values.len() == t.variables.len()) by {
            lemma_step_growth_values(c, index, ins);
        }
        assert forall|i: int| 0 <= i < t.variables.len() implies holds_kind(#[trigger] t.variables[i].var, c2.values[i]) by {
            if i < s.variables.len() {
                assert(t.variables[i] == s.variables[i]);
                if ins.inputs.len() > 0 && i == ins.inputs[0] {
                    assert(holds_kind(op.inputs()[0], c.values[ins.inputs[0] as int]));
                }
            } else {
                let out = op.outputs();
                let inner = op.inner_outputs();
                let j = i - s.variables.len();
                if j < out.len() {
                    assert(t.variables[i].var == out[j]);
                } else {
                    assert(t.variables[i].var == inner[j - out.len()]);
                }
            }
        }
    }
}

/// A step defines the variables its operation defines.
proof fn lemma_step_growth_values(c: CompileState, index: usize, ins: InstructionView)
    ensures
        step(c, index, ins) matches Ok(c2) ==> c2.values.len() == c.values.len() + ins.operation.num_defined(),
{
}

/// Lowering keeps in step with the builder over a whole program the builder takes in.
proof fn lemma_run_compile_correspond(ctx: ProgramContext, instrs: Seq<InstructionView>)
    ensures
        run(ctx, instrs) matches Ok(s) ==> {
            &&& compile_run(ctx, instrs) matches Ok(c) ==> corresponds(s, c)
            &&& compile_run(ctx, instrs) matches Err(e) ==> e is StringTooLong
        },
    decreases instrs.len(),
{
    if instrs.len() == 0 {
        assert(corresponds(initial_state(), initial_compile_state(ctx)));
    } else {
        lemma_run_compile_correspond(ctx, instrs.drop_last());
        if let Ok(s) = run(ctx, instrs.drop_last()) {
            if let Ok(c) = compile_run(ctx, instrs.drop_last()) {
                if s.append_error(ctx, instrs.last()) is None {
                    lemma_step_corresponds(ctx, s, c, (instrs.len() - 1) as usize, instrs.last());
                }
            }
        }
    }
}

/// A program the builder takes in is lowered without a missing or mistyped value: the only
/// way lowering it can fail is a string too long for its `STR0_255` field.
pub proof fn lemma_accepted_programs_lower(ctx: ProgramContext, instrs: Seq<InstructionView>)
    requires
        run(ctx, instrs) is Ok,
    ensures
        compile_run(ctx, instrs) matches Err(e) ==> e is StringTooLong,
{
    lemma_run_compile_correspond(ctx, instrs);
}

/// The text a variable holds, if it holds text.
pub open spec fn text_of(v: ValueView) -> Seq<char> {
    match v {
        ValueView::Str(t) => t,
        _ => Seq::empty(),
    }
}

/// The setup a variable holds, if it holds one.
pub open spec fn setup_of(v: ValueView) -> SetupSpecView {
    match v {
        ValueView::SetupConnection(spec) => spec,
        _ => default_setup(),
    }
}

/// Lowering `SetDeviceInfo` with inputs `[s, a, b, c, d]` fills in the setup that `s` holds,
/// field by field from its inputs in order: the text in `a` as the vendor, in `b` as the
/// hardware version, in `c` as the firmware and in `d` as the device id. Every other field of
/// the setup, every other variable, and everything else lowering has done stay as they were.
pub proof fn lemma_device_info_fields(st: CompileState, index: usize, ins: InstructionView)
    requires
        ins.operation == OperationView::SetDeviceInfo,
        step(st, index, ins) is Ok,
    ensures
        ({
            let t = step(st, index, ins)->Ok_0;
            let s = ins.inputs[0] as int;
            &&& 0 <= s < st.values.len()
            &&& st.values[s] is SetupConnection
            &&& forall|k: int| 1 <= k <= 4 ==> #[trigger] st.values[ins.inputs[k] as int] is Str
            &&& t.values.len() == st.values.len()
            &&& t.values[s] == ValueView::SetupConnection(SetupSpecView {
                vendor: text_of(st.values[ins.inputs[1] as int]),
                hardware_version: text_of(st.values[ins.inputs[2] as int]),
                firmware: text_of(st.values[ins.inputs[3] as int]),
                device_id: text_of(st.values[ins.inputs[4] as int]),
                ..setup_of(st.values[s])
            })
            &&& forall|i: int| 0 <= i < st.values.len() && i != s ==> t.values[i] == st.values[i]
            &&& t.actions == st.actions
            &&& t.session_setups == st.session_setups
        }),
{
}

/// Every wait for a setup's answer on one of the `n` connections that exist before the program
/// runs says the setup was not the first message on its connection, and records that the
/// setup broke that rule.
pub open spec fn setups_on_existing_flagged(st: CompileState, n: nat) -> bool {
    &&& forall|k: int| 0 <= k < st.open_blocks.len() ==> (#[trigger] st.open_blocks[k]) < st.actions.len()
    &&& forall|c: ConnectionId| c < n ==> #[trigger] st.sent.contains(c)
    &&& forall|i: int| 0 <= i < st.actions.len() ==> (#[trigger] st.actions[i] matches ActionView::AwaitSetupResponse {
        connection,
        first_on_connection,
        ..
    } ==> (connection < n ==> {
        &&& !first_on_connection
        &&& st.violations.contains_key(i as usize)
        &&& st.violations[i as usize].contains(ClientViolation::SetupNotFirst)
    }))
}

proof fn lemma_step_keeps_existing_flagged(st: CompileState, index: usize, ins: InstructionView, n: nat)
    requires
        setups_on_existing_flagged(st, n),
        st.actions.len() + 2 <= usize::MAX,
    ensures
        step(st, index, ins) matches Ok(t) ==> setups_on_existing_flagged(t, n),
{
    if let Ok(t) = step(st, index, ins) {
        match ins.operation {
            OperationView::SendSetupConnection { protocol } => {
                let connection = connection_at(st, ins.inputs[0])->Ok_0;
                let spec = setup_at(st, ins.inputs[1])->Ok_0;
                let payload = setup_payload(spec).unwrap();
                assert(t == send_setup(st, index, connection, spec, payload, protocol));
                let await_index: int = st.actions.len() as int + 1;
                assert(t.actions.len() == st.actions.len() + 2);
                assert(t.actions[await_index] == ActionView::AwaitSetupResponse {
                    connection,
                    session: st.sessions as usize,
                    protocol,
                    first_on_connection: !st.sent.contains(connection),
                });
                assert forall|i: int| 0 <= i < t.actions.len() implies (#[trigger] t.actions[i] matches ActionView::AwaitSetupResponse {
                    connection,
                    first_on_connection,
                    ..
                } ==> (connection < n ==> {
                    &&& !first_on_connection
                    &&& t.violations.contains_key(i as usize)
                    &&& t.violations[i as usize].contains(ClientViolation::SetupNotFirst)
                })) by {
                    let v = setup_violations(st, connection);
                    if i < st.actions.len() {
                        assert(t.actions[i] == st.actions[i]);
                        assert(i as usize != await_index as usize);
                        if v.len() > 0 {
                            assert(t.violations == st.violations.insert(await_index as usize, v));
                        } else {
                            assert(t.violations == st.violations);
                        }
                    } else if i == await_index {
                        if connection < n {
                            assert(st.sent.contains(connection));
                            assert(v[0] == ClientViolation::SetupNotFirst);
                            assert(v.len() > 0);
                            assert(t.violations == st.violations.insert(await_index as usize, v));
                            assert(t.violations[i as usize] == v);
                            assert(v.contains(ClientViolation::SetupNotFirst));
                        }
                    }
                }
            },
            OperationView::EndOnSetupSuccess => {
                assert(t == exit_block(st, index));
                assert forall|i: int| 0 <= i < t.actions.len() implies (#[trigger] t.actions[i] matches ActionView::AwaitSetupResponse {
                    connection,
                    first_on_connection,
                    ..
                } ==> (connection < n ==> {
                    &&& !first_on_connection
                    &&& t.violations.contains_key(i as usize)
                    &&& t.violations[i as usize].contains(ClientViolation::SetupNotFirst)
                })) by {
                    if i < st.actions.len() {
                        if st.open_blocks.len() > 0 {
                            let enter = st.open_blocks.last() as int;
                            let updated = st.actions.update(enter, match st.actions[enter] {
                                ActionView::EnterOnSetupSuccess { session, .. } => ActionView::EnterOnSetupSuccess { session, end: st.actions.len() as usize },
                                other => other,
                            });
                            assert(t.actions == updated.push(ActionView::ExitBlock));
                            assert(t.actions[i] == updated[i]);
                            if i != enter || !(st.actions[enter] is EnterOnSetupSuccess) {
                                assert(t.actions[i] == st.actions[i]);
                            }
                        } else {
                            assert(t.actions[i] == st.actions[i]);
                        }
                    }
                }
            },
            _ => {
                assert forall|i: int| 0 <= i < t.actions.len() implies (#[trigger] t.actions[i] matches ActionView::AwaitSetupResponse {
                    connection,
                    first_on_connection,
                    ..
                } ==> (connection < n ==> {
                    &&& !first_on_connection
                    &&& t.violations.contains_key(i as usize)
                    &&& t.violations[i as usize].contains(ClientViolation::SetupNotFirst)
                })) by {
                    if i < st.actions.len() {
                        assert(t.actions[i] == st.actions[i]);
                    }
                }
            },
        }
    }
}

/// Connections that exist before a program runs are already set up: a `SetupConnection` the
/// program sends on any of them is never the first message on its connection, and lowering
/// records it as breaking that rule, whatever else the program does.
pub proof fn lemma_setups_on_existing_connections_are_not_first(ctx: ProgramContext, instrs: Seq<InstructionView>)
    requires
        2 * instrs.len() + 2 <= usize::MAX,
    ensures
        compile_run(ctx, instrs) matches Ok(st) ==> forall|i: int| 0 <= i < st.actions.len()
            ==> (#[trigger] st.actions[i] matches ActionView::AwaitSetupResponse { connection, first_on_connection, .. }
                ==> (connection < ctx.num_connections ==> {
                    &&& !first_on_connection
                    &&& st.violations.contains_key(i as usize)
                    &&& st.violations[i as usize].contains(ClientViolation::SetupNotFirst)
                })),
{
    lemma_compile_run_flags_existing(ctx, instrs);
}

proof fn lemma_compile_run_flags_existing(ctx: ProgramContext, instrs: Seq<InstructionView>)
    requires
        2 * instrs.len() + 2 <= usize::MAX,
    ensures
        compile_run(ctx, instrs) matches Ok(st) ==> setups_on_existing_flagged(st, ctx.num_connections as nat)
            && st.actions.len() <= 2 * instrs.len(),
    decreases instrs.len(),
{
    if instrs.len() > 0 {
        lemma_compile_run_flags_existing(ctx, instrs.drop_last());
        if let Ok(st) = compile_run(ctx, instrs.drop_last()) {
            lemma_step_growth(st, (instrs.len() - 1) as usize, instrs.last());
            lemma_step_keeps_existing_flagged(st, (instrs.len() - 1) as usize, instrs.last(), ctx.num_connections as nat);
        }
    }
}

/// The number a variable holds, if it holds a version or a port.
pub open spec fn number_of(v: ValueView) -> u16 {
    match v {
        ValueView::Version(n) => n,
        ValueView::Port(n) => n,
        _ => 0,
    }
}

/// The connection a variable holds, if it holds one.
pub open spec fn connection_of(v: ValueView) -> ConnectionId {
    match v {
        ValueView::Connection(c) => c,
        _ => 0,
    }
}

/// Lowering the setters of a setup under construction changes, in the setup its first input
/// holds, exactly the fields the operation names, from its other inputs in order, and nothing
/// else: `SetVersions [s, lo, hi]` the lowest and highest version, `SetFlags [s, f]` the flags,
/// and `SetEndpoint [s, host, port]` the endpoint's host and port.
pub proof fn lemma_setters_fill_named_fields(st: CompileState, index: usize, ins: InstructionView)
    requires
        ins.operation is SetVersions || ins.operation is SetFlags || ins.operation is SetEndpoint,
        step(st, index, ins) is Ok,
    ensures
        ({
            let t = step(st, index, ins)->Ok_0;
            let s = ins.inputs[0] as int;
            let before = setup_of(st.values[s]);
            &&& 0 <= s < st.values.len()
            &&& st.values[s] is SetupConnection
            &&& t.values.len() == st.values.len()
            &&& forall|i: int| 0 <= i < st.values.len() && i != s ==> t.values[i] == st.values[i]
            &&& t.actions == st.actions
            &&& ins.operation is SetVersions ==> {
                &&& st.values[ins.inputs[1] as int] is Version
                &&& st.values[ins.inputs[2] as int] is Version
                &&& t.values[s] == ValueView::SetupConnection(SetupSpecView {
                    min_version: number_of(st.values[ins.inputs[1] as int]),
                    max_version: number_of(st.values[ins.inputs[2] as int]),
                    ..before
                })
            }
            &&& ins.operation is SetFlags ==> st.values[ins.inputs[1] as int] is Flags
                && t.values[s] == ValueView::SetupConnection(SetupSpecView { flags: st.values[ins.inputs[1] as int]->Flags_0, ..before })
            &&& ins.operation is SetEndpoint ==> {
                &&& st.values[ins.inputs[2] as int] is Port
                &&& t.values[s] == ValueView::SetupConnection(SetupSpecView {
                    endpoint_host: text_of(st.values[ins.inputs[1] as int]),
                    endpoint_port: number_of(st.values[ins.inputs[2] as int]),
                    ..before
                })
                &&& st.values[ins.inputs[1] as int] is Str
            }
        }),
{
}

/// Ending a setup under construction for a protocol defines a new variable holding that setup,
/// for that protocol and otherwise as it was built, and leaves the one being built as it was.
pub proof fn lemma_end_setup_takes_protocol(st: CompileState, index: usize, ins: InstructionView)
    requires
        ins.operation is EndBuildSetupConnection,
        step(st, index, ins) is Ok,
    ensures
        ({
            let t = step(st, index, ins)->Ok_0;
            let s = ins.inputs[0] as int;
            &&& st.values[s] is SetupConnection
            &&& t.values == st.values.push(ValueView::SetupConnection(SetupSpecView {
                protocol: ins.operation->EndBuildSetupConnection_protocol,
                ..setup_of(st.values[s])
            }))
            &&& t.actions == st.actions
        }),
{
}

/// Opening a connection to the role its input holds gives it the next number, one no connection
/// before it has, the ones that exist before the program runs included, and a variable that
/// holds it.
pub proof fn lemma_connect_takes_a_fresh_number(st: CompileState, index: usize, ins: InstructionView)
    requires
        ins.operation is Connect,
        step(st, index, ins) is Ok,
    ensures
        ({
            let t = step(st, index, ins)->Ok_0;
            &&& st.values[ins.inputs[0] as int] is Role
            &&& t.connections == st.connections + 1
            &&& t.values == st.values.push(ValueView::Connection(st.connections as usize))
            &&& t.actions == st.actions.push(ActionView::Connect {
                connection: st.connections as usize,
                role: st.values[ins.inputs[0] as int]->Role_0,
            })
        }),
{
}

/// A program's own connections are numbered after the ones that exist before it runs: every
/// connection it opens has a number at least the count of those, and below the count of all
/// connections so far.
pub proof fn lemma_opened_connections_follow_existing(ctx: ProgramContext, instrs: Seq<InstructionView>)
    requires
        ctx.num_connections + instrs.len() <= usize::MAX,
    ensures
        compile_run(ctx, instrs) matches Ok(st) ==> {
            &&& ctx.num_connections <= st.connections <= ctx.num_connections + instrs.len()
            &&& forall|k: int| 0 <= k < st.open_blocks.len() ==> (#[trigger] st.open_blocks[k]) < st.actions.len()
            &&& forall|i: int| 0 <= i < st.actions.len() ==> (#[trigger] st.actions[i] matches ActionView::Connect { connection, .. }
                ==> ctx.num_connections <= connection < st.connections)
        },
    decreases instrs.len(),
{
    if instrs.len() > 0 {
        lemma_opened_connections_follow_existing(ctx, instrs.drop_last());
        if let Ok(st) = compile_run(ctx, instrs.drop_last()) {
            let ins = instrs.last();
            let index = (instrs.len() - 1) as usize;
            lemma_step_growth(st, index, ins);
            if let Ok(t) = step(st, index, ins) {
                assert forall|i: int| 0 <= i < t.actions.len() implies (#[trigger] t.actions[i] matches ActionView::Connect { connection, .. }
                    ==> ctx.num_connections <= connection < t.connections) by {
                    if i < st.actions.len() {
                        if ins.operation is EndOnSetupSuccess && st.open_blocks.len() > 0 {
                            let enter = st.open_blocks.last() as int;
                            assert(st.open_blocks[st.open_blocks.len() - 1] == st.open_blocks.last());
                            let updated = st.actions.update(enter, match st.actions[enter] {
                                ActionView::EnterOnSetupSuccess { session, .. } => ActionView::EnterOnSetupSuccess { session, end: st.actions.len() as usize },
                                other => other,
                            });
                            assert(t.actions == updated.push(ActionView::ExitBlock));
                            assert(t.actions[i] == updated[i]);
                            if i != enter || !(st.actions[enter] is EnterOnSetupSuccess) {
                                assert(t.actions[i] == st.actions[i]);
                            }
                        } else if ins.operation is SendSetupConnection {
                            let connection = connection_at(st, ins.inputs[0])->Ok_0;
                            let spec = setup_at(st, ins.inputs[1])->Ok_0;
                            let payload = setup_payload(spec).unwrap();
                            assert(t == send_setup(st, index, connection, spec, payload, ins.operation->SendSetupConnection_protocol));
                            assert(t.actions[i] == st.actions[i]);
                        } else {
                            assert(t.actions[i] == st.actions[i]);
                        }
                    }
                }
            }
        }
    }
}

/// Sending the setup its second input holds on the connection its first input holds puts on
/// that connection a `SetupConnection` frame (message type 0, no extension, not a channel
/// message) whose payload is the setup's fields in the order the specification gives them,
/// then waits there for the answer; the setup is recorded for the new session, which a new
/// variable holds, and the wait says whether nothing went out on the connection before.
pub proof fn lemma_send_setup_frames_the_setup(st: CompileState, index: usize, ins: InstructionView)
    requires
        ins.operation is SendSetupConnection,
        step(st, index, ins) is Ok,
    ensures
        ({
            let t = step(st, index, ins)->Ok_0;
            let connection = connection_of(st.values[ins.inputs[0] as int]);
            let setup = setup_of(st.values[ins.inputs[1] as int]);
            let session = st.sessions as usize;
            &&& st.values[ins.inputs[0] as int] is Connection
            &&& st.values[ins.inputs[1] as int] is SetupConnection
            &&& t.actions == st.actions + seq![
                ActionView::Send {
                    connection,
                    extension_type: 0,
                    message_type: 0,
                    channel_msg: false,
                    payload: setup_connection_bytes(setup.protocol.spec_id(), setup.min_version, setup.max_version, setup.flags,
                        setup.endpoint_host, setup.endpoint_port, setup.vendor, setup.hardware_version, setup.firmware,
                        setup.device_id),
                },
                ActionView::AwaitSetupResponse {
                    connection,
                    session,
                    protocol: ins.operation->SendSetupConnection_protocol,
                    first_on_connection: !st.sent.contains(connection),
                },
            ]
            &&& t.values == st.values.push(ValueView::Session(session))
            &&& t.session_setups == st.session_setups.insert(session, setup)
            &&& t.sent == st.sent.insert(connection)
        }),
{
    let t = step(st, index, ins)->Ok_0;
    assert(t.actions =~= st.actions + seq![t.actions[st.actions.len() as int], t.actions[st.actions.len() as int + 1]]);
}

/// A success block is entered on the session its input holds and, once closed, says where it
/// ends: `BeginOnSetupSuccess` adds an enter action for that session and opens a block at it,
/// and `EndOnSetupSuccess` adds the exit action and has the enter of the innermost open block
/// point at it, closing that block.
pub proof fn lemma_success_blocks_point_at_their_exit(st: CompileState, index: usize, ins: InstructionView)
    requires
        ins.operation is BeginOnSetupSuccess || ins.operation is EndOnSetupSuccess,
        step(st, index, ins) is Ok,
        forall|k: int| 0 <= k < st.open_blocks.len() ==> (#[trigger] st.open_blocks[k]) < st.actions.len(),
    ensures
        ({
            let t = step(st, index, ins)->Ok_0;
            &&& ins.operation is BeginOnSetupSuccess ==> {
                &&& st.values[ins.inputs[0] as int] is Session
                &&& t.actions == st.actions.push(ActionView::EnterOnSetupSuccess {
                    session: st.values[ins.inputs[0] as int]->Session_0,
                    end: 0,
                })
                &&& t.open_blocks == st.open_blocks.push(st.actions.len() as usize)
            }
            &&& ins.operation is EndOnSetupSuccess ==> {
                &&& t.actions.len() == st.actions.len() + 1
                &&& t.actions.last() == ActionView::ExitBlock
                &&& st.open_blocks.len() > 0 ==> {
                    let enter = st.open_blocks.last() as int;
                    &&& t.open_blocks == st.open_blocks.drop_last()
                    &&& st.actions[enter] matches ActionView::EnterOnSetupSuccess { session, .. }
                        ==> t.actions[enter] == ActionView::EnterOnSetupSuccess { session, end: st.actions.len() as usize }
                    &&& forall|i: int| 0 <= i < st.actions.len() && i != enter ==> t.actions[i] == st.actions[i]
                }
            }
        }),
{
    if ins.operation is EndOnSetupSuccess && st.open_blocks.len() > 0 {
        assert(st.open_blocks[st.open_blocks.len() - 1] == st.open_blocks.last());
    }
}

/// A raw frame goes out on the connection its first input holds, with the bytes its second
/// input holds and the message and extension types its operation names, and marks that
/// connection as one something, and a raw frame, went out on. Advancing time waits the
/// duration its input holds.
pub proof fn lemma_raw_frames_and_waits(st: CompileState, index: usize, ins: InstructionView)
    requires
        ins.operation is SendRawFrame || ins.operation is AdvanceTime,
        step(st, index, ins) is Ok,
    ensures
        ({
            let t = step(st, index, ins)->Ok_0;
            &&& ins.operation matches OperationView::SendRawFrame { message_type, extension_type } ==> {
                &&& st.values[ins.inputs[0] as int] is Connection
                &&& st.values[ins.inputs[1] as int] is Bytes
                &&& t.actions == st.actions.push(ActionView::Send {
                    connection: connection_of(st.values[ins.inputs[0] as int]),
                    extension_type,
                    message_type,
                    channel_msg: false,
                    payload: st.values[ins.inputs[1] as int]->Bytes_0,
                })
                &&& t.sent == st.sent.insert(connection_of(st.values[ins.inputs[0] as int]))
                &&& t.raw_sent == st.raw_sent.insert(connection_of(st.values[ins.inputs[0] as int]))
                &&& t.values == st.values
            }
            &&& ins.operation is AdvanceTime ==> {
                &&& st.values[ins.inputs[0] as int] is Duration
                &&& t.actions == st.actions.push(ActionView::AdvanceTime(st.values[ins.inputs[0] as int]->Duration_0))
            }
        }),
{
}

} // verus!
