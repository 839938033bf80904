use rand::rngs::SmallRng;
use vstd::prelude::*;

use crate::builder::{Scope, lemma_wf_scopes, holds_variable, IndexedVariable, ProgramBuilder};
use crate::errors::ProgramValidationError;
use crate::generators::{usable, usable_under, lemma_ops_since_extends, append, extends, modest, one, ops_since, room, Generator, FRAGMENT_ROOM};
use crate::operation::{Operation, OperationView};
use crate::random::{pick, random_bool, random_u32, random_u8, ExSmallRng};
use crate::variable::{Protocol, Variable};

verus! {

/// The one version the specification defines.
pub const CURRENT_VERSION: u16 = 2;

/// The `SetupConnection.flags` bits a subprotocol defines (sections 5.1 and 6.1); everything
/// else is a bit no server has a meaning for.
pub open spec fn spec_defined_flags(protocol: Protocol) -> u32 {
    match protocol {
        // REQUIRES_STANDARD_JOBS, REQUIRES_WORK_SELECTION, REQUIRES_VERSION_ROLLING.
        Protocol::Mining => 0b111,
        // REQUIRES_ASYNC_JOB_MINING.
        Protocol::JobDeclaration => 0b1,
        Protocol::TemplateDistribution => 0,
    }
}

/// The mining subprotocol's `REQUIRES_STANDARD_JOBS` flag (specification section 5.1).
pub const REQUIRES_STANDARD_JOBS: u32 = 0x1;

/// The mining subprotocol's `REQUIRES_WORK_SELECTION` flag (section 5.1).
pub const REQUIRES_WORK_SELECTION: u32 = 0x2;

/// The mining subprotocol's `REQUIRES_VERSION_ROLLING` flag (section 5.1).
pub const REQUIRES_VERSION_ROLLING: u32 = 0x4;

/// The job declaration subprotocol's `REQUIRES_ASYNC_JOB_MINING` flag (section 6.1).
pub const REQUIRES_ASYNC_JOB_MINING: u32 = 0x1;

/// The flags a subprotocol defines are exactly the ones its section of the specification
/// names: for mining `REQUIRES_STANDARD_JOBS`, `REQUIRES_WORK_SELECTION` and
/// `REQUIRES_VERSION_ROLLING`, the three lowest bits; for job declaration
/// `REQUIRES_ASYNC_JOB_MINING`, the lowest; for template distribution none. Every other bit
/// is one no server has a meaning for, so a setup asking only for defined flags asks for none
/// of those.
pub proof fn lemma_defined_flags_are_the_named_ones(protocol: Protocol, flags: u32)
    ensures
        spec_defined_flags(protocol) == match protocol {
            Protocol::Mining => REQUIRES_STANDARD_JOBS | REQUIRES_WORK_SELECTION | REQUIRES_VERSION_ROLLING,
            Protocol::JobDeclaration => REQUIRES_ASYNC_JOB_MINING,
            Protocol::TemplateDistribution => 0u32,
        },
        protocol == Protocol::Mining ==> (flags & !spec_defined_flags(protocol) == 0 <==> flags < 8),
        protocol == Protocol::JobDeclaration ==> (flags & !spec_defined_flags(protocol) == 0 <==> flags < 2),
        protocol == Protocol::TemplateDistribution ==> (flags & !spec_defined_flags(protocol) == 0 <==> flags == 0),
{
    assert(0x1u32 | 0x2u32 | 0x4u32 == 0b111u32) by (bit_vector);
    assert(flags & !0b111u32 == 0 <==> flags < 8) by (bit_vector);
    assert(flags & !0b1u32 == 0 <==> flags < 2) by (bit_vector);
    assert(flags & !0u32 == 0 <==> flags == 0) by (bit_vector);
}

/// The `SetupConnection.flags` bits a subprotocol defines.
pub fn defined_flags(protocol: Protocol) -> (flags: u32)
    ensures
        flags == spec_defined_flags(protocol),
{
    match protocol {
        Protocol::Mining => 0b111,
        Protocol::JobDeclaration => 0b1,
        Protocol::TemplateDistribution => 0,
    }
}

/// Which connection a fragment goes on.
#[derive(Debug, Clone, Copy, PartialEq, Eq, Structural)]
pub enum ConnectionChoice {
    /// Open a new one. A setup is then the first message on it, which is the only setup a
    /// server owes an answer to, so this is what reaches deep states.
    Fresh,
    /// One the program already has in scope, opening a new one only if there is none. A setup
    /// on it is a second one, which the protocol forbids.
    Reuse,
    /// Either, at random.
    Any,
}

/// The operations that open a connection to `role`.
pub open spec fn connect_ops(role: usize) -> Seq<OperationView> {
    seq![OperationView::LoadRole(role), OperationView::Connect]
}

/// The operations that build and send a `SetupConnection` with the given versions and flags,
/// with the endpoint and the device fields set or not.
pub open spec fn setup_ops(min_version: u16, max_version: u16, flags: u32, protocol: Protocol, endpoint: bool, device: bool) -> Seq<OperationView> {
    seq![
        OperationView::LoadVersion(min_version),
        OperationView::LoadVersion(max_version),
        OperationView::LoadFlags(flags),
        OperationView::BeginBuildSetupConnection,
        OperationView::SetVersions,
        OperationView::SetFlags,
    ] + (if endpoint {
        seq![OperationView::LoadStr("0.0.0.0"@), OperationView::LoadPort(0), OperationView::SetEndpoint]
    } else {
        seq![]
    }) + (if device {
        seq![
            OperationView::LoadStr("stratamoto"@),
            OperationView::LoadStr(seq![]),
            OperationView::LoadStr(seq![]),
            OperationView::LoadStr(seq![]),
            OperationView::SetDeviceInfo,
        ]
    } else {
        seq![]
    }) + seq![OperationView::EndBuildSetupConnection { protocol }, OperationView::SendSetupConnection { protocol }]
}

/// What a generator appended: it took in every instruction, left what was there and the open
/// scopes as they were, and defined at most one variable per instruction.
pub open spec fn appended_cleanly(before: &ProgramBuilder, after: &ProgramBuilder) -> bool {
    &&& after.wf()
    &&& after.consistent()
    &&& after.spec_context() == before.spec_context()
    &&& extends(before.state().instructions, after.state().instructions)
    &&& after.state().scopes == before.state().scopes
    &&& modest(before.state(), after.state())
}

/// Any of the three subprotocols.
fn any_protocol(rng: &mut SmallRng) -> (p: Protocol) {
    let protocols: [Protocol; 3] = [Protocol::Mining, Protocol::JobDeclaration, Protocol::TemplateDistribution];
    pick(rng, &protocols)
}

/// The operations that build a `SetupConnection` with the given versions and flags, up to the
/// end of the block that builds it, with the endpoint and the device fields set or not.
pub open spec fn build_ops(min_version: u16, max_version: u16, flags: u32, protocol: Protocol, endpoint: bool, device: bool) -> Seq<OperationView> {
    seq![
        OperationView::LoadVersion(min_version),
        OperationView::LoadVersion(max_version),
        OperationView::LoadFlags(flags),
        OperationView::BeginBuildSetupConnection,
        OperationView::SetVersions,
        OperationView::SetFlags,
    ] + (if endpoint {
        seq![OperationView::LoadStr("0.0.0.0"@), OperationView::LoadPort(0), OperationView::SetEndpoint]
    } else {
        seq![]
    }) + (if device {
        seq![
            OperationView::LoadStr("stratamoto"@),
            OperationView::LoadStr(seq![]),
            OperationView::LoadStr(seq![]),
            OperationView::LoadStr(seq![]),
            OperationView::SetDeviceInfo,
        ]
    } else {
        seq![]
    }) + seq![OperationView::EndBuildSetupConnection { protocol }]
}

/// Build a `SetupConnection` with the given versions and flags, sometimes with the endpoint
/// and device fields set as well, so that both shapes are in the corpus. Those start at the
/// values a client would send, and are worth setting at all because a field no operation
/// writes is a field no mutation can ever reach. Every instruction is one the builder takes.
#[verifier::rlimit(60)]
#[verifier::spinoff_prover]
fn build_setup(
    builder: &mut ProgramBuilder,
    rng: &mut SmallRng,
    protocol: Protocol,
    min_version: u16,
    max_version: u16,
    flags: u32,
) -> (r: Result<IndexedVariable, ProgramValidationError>)
    requires
        old(builder).wf(),
        room(old(builder).state(), 16),
    ensures
        r is Ok,
        final(builder).spec_context() == old(builder).spec_context(),
        appended_cleanly(old(builder), final(builder)),
        exists|endpoint: bool, device: bool| ops_since(final(builder).state().instructions, old(builder).state().instructions.len() as int)
            == build_ops(min_version, max_version, flags, protocol, endpoint, device),
        r matches Ok(v) ==> usable(final(builder).state(), v) && v.var == Variable::ConstSetupConnection(protocol),
        forall|v: IndexedVariable, sc: Seq<Scope>| usable_under(old(builder).state(), v, sc) ==> #[trigger] usable_under(final(builder).state(), v, sc),
{
    let ghost start = builder.state();
    let ghost from = start.instructions.len() as int;
    assert(ops_since(start.instructions, from) =~= Seq::<OperationView>::empty());
    proof {
        lemma_wf_scopes(builder);
    }
    let min_var = one(append(builder, Operation::LoadVersion(min_version), &[])?);
    let max_var = one(append(builder, Operation::LoadVersion(max_version), &[])?);
    let flags_var = one(append(builder, Operation::LoadFlags(flags), &[])?);
    let setup = one(append(builder, Operation::BeginBuildSetupConnection, &[])?);
    let ghost inside = builder.state().scopes;
    assert(usable(builder.state(), min_var) && usable(builder.state(), max_var) && usable(builder.state(), flags_var));
    append(builder, Operation::SetVersions, &[&setup, &min_var, &max_var])?;
    append(builder, Operation::SetFlags, &[&setup, &flags_var])?;
    let ghost head = ops_since(builder.state().instructions, from);

    let endpoint = random_bool(rng);
    if endpoint {
        let host = one(append(builder, Operation::LoadStr("0.0.0.0".to_owned()), &[])?);
        let port = one(append(builder, Operation::LoadPort(0), &[])?);
        assert(usable(builder.state(), setup) && usable(builder.state(), host));
        append(builder, Operation::SetEndpoint, &[&setup, &host, &port])?;
    }
    let ghost with_endpoint = ops_since(builder.state().instructions, from);
    assert(with_endpoint =~= head + (if endpoint {
        seq![OperationView::LoadStr("0.0.0.0"@), OperationView::LoadPort(0), OperationView::SetEndpoint]
    } else {
        seq![]
    }));

    let device = random_bool(rng);
    if device {
        let vendor = one(append(builder, Operation::LoadStr("stratamoto".to_owned()), &[])?);
        let hardware = one(append(builder, Operation::LoadStr(String::new()), &[])?);
        let firmware = one(append(builder, Operation::LoadStr(String::new()), &[])?);
        let device = one(append(builder, Operation::LoadStr(String::new()), &[])?);
        assert(usable(builder.state(), setup) && usable(builder.state(), vendor) && usable(builder.state(), hardware) && usable(builder.state(), firmware));
        append(builder, Operation::SetDeviceInfo, &[&setup, &vendor, &hardware, &firmware, &device])?;
    }
    let ghost with_device = ops_since(builder.state().instructions, from);
    assert(with_device =~= with_endpoint + (if device {
        seq![
            OperationView::LoadStr("stratamoto"@),
            OperationView::LoadStr(seq![]),
            OperationView::LoadStr(seq![]),
            OperationView::LoadStr(seq![]),
            OperationView::SetDeviceInfo,
        ]
    } else {
        seq![]
    }));

    assert(builder.state().scopes == inside);
    assert(usable(builder.state(), setup));
    let built = one(append(builder, Operation::EndBuildSetupConnection { protocol }, &[&setup])?);
    assert(ops_since(builder.state().instructions, from) =~= build_ops(min_version, max_version, flags, protocol, endpoint, device));
    Ok(built)
}

/// Build and send a `SetupConnection` with the given versions and flags on `connection`.
#[verifier::rlimit(40)]
fn setup(
    builder: &mut ProgramBuilder,
    rng: &mut SmallRng,
    connection: &IndexedVariable,
    protocol: Protocol,
    min_version: u16,
    max_version: u16,
    flags: u32,
) -> (r: Result<IndexedVariable, ProgramValidationError>)
    requires
        old(builder).wf(),
        room(old(builder).state(), 17),
    ensures
        final(builder).spec_context() == old(builder).spec_context(),
        r is Ok ==> appended_cleanly(old(builder), final(builder)),
        r is Ok ==> exists|endpoint: bool, device: bool| ops_since(final(builder).state().instructions, old(builder).state().instructions.len() as int)
            == setup_ops(min_version, max_version, flags, protocol, endpoint, device),
        usable(old(builder).state(), *connection) && connection.var == Variable::Connection ==> r is Ok,
        r is Ok ==> forall|v: IndexedVariable, sc: Seq<Scope>| usable_under(old(builder).state(), v, sc) ==> #[trigger] usable_under(final(builder).state(), v, sc),
{
    let ghost start = builder.state();
    let ghost from = start.instructions.len() as int;
    let ghost ok = usable(start, *connection) && connection.var == Variable::Connection;
    let built = build_setup(builder, rng, protocol, min_version, max_version, flags)?;
    let ghost mid = builder.state();
    let ghost (endpoint, device) = choose|endpoint: bool, device: bool| ops_since(mid.instructions, from)
        == build_ops(min_version, max_version, flags, protocol, endpoint, device);
    assert(ok ==> usable_under(mid, *connection, start.scopes));
    proof {
        lemma_wf_scopes(builder);
        assert(ops_since(mid.instructions, from).len() == mid.instructions.len() - from);
        assert(build_ops(min_version, max_version, flags, protocol, endpoint, device).len() <= 15);
    }
    let sent = one(append(builder, Operation::SendSetupConnection { protocol }, &[connection, &built])?);
    proof {
        lemma_ops_since_extends(mid.instructions, builder.state().instructions, from);
        assert(setup_ops(min_version, max_version, flags, protocol, endpoint, device)
            =~= build_ops(min_version, max_version, flags, protocol, endpoint, device).push(OperationView::SendSetupConnection { protocol }));
        assert(ops_since(builder.state().instructions, mid.instructions.len() as int) =~= seq![OperationView::SendSetupConnection { protocol }]);
        assert(ops_since(builder.state().instructions, from) == setup_ops(min_version, max_version, flags, protocol, endpoint, device));
    }
    Ok(sent)
}

/// The connection a fragment goes on, opened if the choice or the program's state requires.
fn connection(builder: &mut ProgramBuilder, rng: &mut SmallRng, role: usize, choice: ConnectionChoice) -> (r: Result<IndexedVariable, ProgramValidationError>)
    requires
        old(builder).wf(),
        room(old(builder).state(), 2),
    ensures
        final(builder).spec_context() == old(builder).spec_context(),
        r is Ok ==> appended_cleanly(old(builder), final(builder)),
        r is Ok ==> {
            let appended = ops_since(final(builder).state().instructions, old(builder).state().instructions.len() as int);
            ||| appended == connect_ops(role)
            ||| (choice != ConnectionChoice::Fresh && appended == Seq::<OperationView>::empty())
        },
        r is Ok && choice == ConnectionChoice::Fresh ==> ops_since(final(builder).state().instructions, old(builder).state().instructions.len() as int) == connect_ops(role),
        r is Ok && choice == ConnectionChoice::Reuse && (exists|i: int| holds_variable(old(builder).state(), i, Variable::Connection))
            ==> ops_since(final(builder).state().instructions, old(builder).state().instructions.len() as int) == Seq::<OperationView>::empty(),
        role < old(builder).spec_context().num_roles ==> r is Ok,
        choice == ConnectionChoice::Fresh && role >= old(builder).spec_context().num_roles ==> r is Err,
        r matches Ok(c) ==> usable(final(builder).state(), c) && c.var == Variable::Connection,
        r is Ok ==> forall|v: IndexedVariable, sc: Seq<Scope>| usable_under(old(builder).state(), v, sc) ==> #[trigger] usable_under(final(builder).state(), v, sc),
{
    let ghost start = builder.state();
    let ghost from = start.instructions.len() as int;
    assert(ops_since(start.instructions, from) =~= Seq::<OperationView>::empty());
    let reuse = match choice {
        ConnectionChoice::Fresh => None,
        ConnectionChoice::Reuse => builder.get_random_variable(rng, &Variable::Connection),
        ConnectionChoice::Any => {
            if random_bool(rng) {
                builder.get_random_variable(rng, &Variable::Connection)
            } else {
                None
            }
        },
    };
    match reuse {
        Some(connection) => {
            proof {
                reveal(holds_variable);
                lemma_wf_scopes(builder);
            }
            Ok(connection)
        },
        None => {
            proof {
                lemma_wf_scopes(builder);
            }
            let loaded = one(append(builder, Operation::LoadRole(role), &[])?);
            let connection = one(append(builder, Operation::Connect, &[&loaded])?);
            assert(ops_since(builder.state().instructions, from) =~= connect_ops(role));
            Ok(connection)
        },
    }
}

/// Opens a connection between two roles and sets it up for a subprotocol, as a conforming
/// client would: the current version, only flags the subprotocol defines, and a fresh
/// connection unless told otherwise.
///
/// The attempt it produces is what a success block turns into the session later subprotocol
/// messages consume, so this is the fragment every mining, job declaration or template
/// distribution program starts from. What a conforming client would not do is the
/// [`AdversarialSetupGenerator`]'s business.
pub struct SetupConnectionGenerator {
    /// The role the connection is opened to.
    pub role: usize,
    /// The subprotocol to set the connection up for, or any of them when unset.
    pub protocol: Option<Protocol>,
    pub connection: ConnectionChoice,
}

impl SetupConnectionGenerator {
    /// A valid setup for any protocol on a fresh connection to `role`.
    pub fn new(role: usize) -> (g: Self)
        ensures
            g.role == role,
            g.protocol is None,
            g.connection == ConnectionChoice::Fresh,
    {
        Self { role, protocol: None, connection: ConnectionChoice::Fresh }
    }
}

/// What a conforming client appends: a connection to `role` unless it reuses one, then a setup
/// for `protocol` at the current version, asking only for flags the subprotocol defines.
pub open spec fn conforming(role: usize, choice: ConnectionChoice, protocol: Protocol, appended: Seq<OperationView>) -> bool {
    exists|flags: u32, endpoint: bool, device: bool| {
        &&& flags & !spec_defined_flags(protocol) == 0
        &&& {
            ||| appended == connect_ops(role) + setup_ops(CURRENT_VERSION, CURRENT_VERSION, flags, protocol, endpoint, device)
            ||| (choice != ConnectionChoice::Fresh && appended == setup_ops(CURRENT_VERSION, CURRENT_VERSION, flags, protocol, endpoint, device))
        }
    }
}

impl Generator for SetupConnectionGenerator {
    fn generate(&self, builder: &mut ProgramBuilder, rng: &mut SmallRng) -> (r: Result<(), ProgramValidationError>)
        ensures
            r is Ok ==> exists|protocol: Protocol| {
                &&& (self.protocol matches Some(p) ==> protocol == p)
                &&& conforming(self.role, self.connection, protocol, ops_since(final(builder).state().instructions, old(builder).state().instructions.len() as int))
            },
            self.role < old(builder).spec_context().num_roles ==> r is Ok,
            self.connection == ConnectionChoice::Fresh && self.role >= old(builder).spec_context().num_roles ==> r is Err,
    {
        let ghost start = builder.state();
        let ghost from = start.instructions.len() as int;
        let protocol = match self.protocol {
            Some(protocol) => protocol,
            None => any_protocol(rng),
        };
        let connection = connection(builder, rng, self.role, self.connection)?;
        let ghost mid = builder.state();
        assert(ops_since(mid.instructions, from).len() == mid.instructions.len() - from);

        // Any subset of the defined flags is a request a server has a meaning for.
        let drawn = random_u32(rng);
        let defined = defined_flags(protocol);
        let flags = drawn & defined;
        assert(flags & !defined == 0) by (bit_vector)
            requires
                flags == drawn & defined,
        ;
        setup(builder, rng, &connection, protocol, CURRENT_VERSION, CURRENT_VERSION, flags)?;
        proof {
            lemma_ops_since_extends(mid.instructions, builder.state().instructions, from);
            let endpoint_device = choose|endpoint: bool, device: bool| ops_since(builder.state().instructions, mid.instructions.len() as int)
                == setup_ops(CURRENT_VERSION, CURRENT_VERSION, flags, protocol, endpoint, device);
            assert(conforming(self.role, self.connection, protocol, ops_since(builder.state().instructions, from)));
        }
        Ok(())
    }
}

/// One thing a conforming client does not do, done on purpose.
///
/// The first three are requests a server must reject, so they reach its error paths; the
/// other two are violations of the protocol's order, which the compiler classifies on the
/// actions so that an oracle relaxes what the server owes in answer.
#[derive(Debug, Clone, Copy, PartialEq, Eq, Structural)]
pub enum SetupViolation {
    /// `min_version` above `max_version`, so no version can be agreed.
    EmptyVersionRange,
    /// A version range without the one version that exists.
    UnknownVersion,
    /// A flag bit the subprotocol does not define.
    UndefinedFlags,
    /// A frame of the program's own choosing before the setup, so the setup is not the first
    /// message on its connection.
    AfterRawFrame,
    /// A second setup on a connection that already has one.
    SecondSetup,
}

impl SetupViolation {
    pub const ALL: [SetupViolation; 5] = [
        SetupViolation::EmptyVersionRange,
        SetupViolation::UnknownVersion,
        SetupViolation::UndefinedFlags,
        SetupViolation::AfterRawFrame,
        SetupViolation::SecondSetup,
    ];

    /// Any of the violations.
    pub fn any(rng: &mut SmallRng) -> (v: Self) {
        let all: [SetupViolation; 5] = Self::ALL;
        pick(rng, &all)
    }
}

/// The lowest flag bit the subprotocol leaves undefined.
fn lowest_undefined_flag(protocol: Protocol) -> (bit: u32)
    ensures
        bit & !spec_defined_flags(protocol) != 0,
{
    match protocol {
        Protocol::Mining => {
            assert(0b1000u32 & !0b111u32 != 0) by (bit_vector);
            0b1000
        },
        Protocol::JobDeclaration => {
            assert(0b10u32 & !0b1u32 != 0) by (bit_vector);
            0b10
        },
        Protocol::TemplateDistribution => {
            assert(0b1u32 & !0u32 != 0) by (bit_vector);
            0b1
        },
    }
}

/// What an adversarial fragment appends for `violation`: a fresh connection to `role`, then
/// a setup for `protocol` that departs from a conforming one in that way alone.
pub open spec fn adversarial(violation: SetupViolation, role: usize, protocol: Protocol, appended: Seq<OperationView>) -> bool {
    let undefined = !spec_defined_flags(protocol);
    match violation {
        SetupViolation::EmptyVersionRange => exists|flags: u32, e: bool, d: bool| flags & undefined == 0
            && appended == connect_ops(role) + #[trigger] setup_ops((CURRENT_VERSION + 1) as u16, CURRENT_VERSION, flags, protocol, e, d),
        SetupViolation::UnknownVersion => exists|version: u16, flags: u32, e: bool, d: bool| flags & undefined == 0
            && (version == 0 || version == 1 || version == CURRENT_VERSION + 1 || version == 0xffff)
            && appended == connect_ops(role) + #[trigger] setup_ops(version, version, flags, protocol, e, d),
        SetupViolation::UndefinedFlags => exists|flags: u32, e: bool, d: bool| flags & undefined != 0
            && appended == connect_ops(role) + #[trigger] setup_ops(CURRENT_VERSION, CURRENT_VERSION, flags, protocol, e, d),
        SetupViolation::AfterRawFrame => exists|message_type: u8, flags: u32, e: bool, d: bool| flags & undefined == 0
            && appended == connect_ops(role) + #[trigger] raw_frame_ops(message_type) + #[trigger] setup_ops(CURRENT_VERSION, CURRENT_VERSION, flags, protocol, e, d),
        SetupViolation::SecondSetup => exists|flags: u32, e1: bool, d1: bool, e2: bool, d2: bool| flags & undefined == 0
            && appended == connect_ops(role) + #[trigger] setup_ops(CURRENT_VERSION, CURRENT_VERSION, flags, protocol, e1, d1)
                + #[trigger] setup_ops(CURRENT_VERSION, CURRENT_VERSION, flags, protocol, e2, d2),
    }
}

/// The operations that send six zero bytes in a frame of the given type, without an extension.
pub open spec fn raw_frame_ops(message_type: u8) -> Seq<OperationView> {
    seq![
        OperationView::LoadBytes(Seq::new(6, |i: int| 0u8)),
        OperationView::SendRawFrame { message_type, extension_type: 0 },
    ]
}

/// A setup that violates exactly one named constraint, and is otherwise what a conforming
/// client would send.
pub struct AdversarialSetupGenerator {
    pub role: usize,
    pub protocol: Option<Protocol>,
    pub violation: SetupViolation,
}

impl Generator for AdversarialSetupGenerator {
    #[verifier::rlimit(40)]
    fn generate(&self, builder: &mut ProgramBuilder, rng: &mut SmallRng) -> (r: Result<(), ProgramValidationError>)
        ensures
            r is Ok ==> exists|protocol: Protocol| {
                &&& (self.protocol matches Some(p) ==> protocol == p)
                &&& adversarial(self.violation, self.role, protocol, ops_since(final(builder).state().instructions, old(builder).state().instructions.len() as int))
            },
            self.role < old(builder).spec_context().num_roles ==> r is Ok,
            self.role >= old(builder).spec_context().num_roles ==> r is Err,
    {
        let ghost start = builder.state();
        let ghost from = start.instructions.len() as int;
        let protocol = match self.protocol {
            Some(protocol) => protocol,
            None => any_protocol(rng),
        };
        let drawn = random_u32(rng);
        let defined = defined_flags(protocol);
        let valid_flags = drawn & defined;
        assert(valid_flags & !defined == 0) by (bit_vector)
            requires
                valid_flags == drawn & defined,
        ;
        let connection = connection(builder, rng, self.role, ConnectionChoice::Fresh)?;
        let ghost mid = builder.state();
        assert(ops_since(mid.instructions, from).len() == mid.instructions.len() - from);

        match self.violation {
            SetupViolation::EmptyVersionRange => {
                setup(builder, rng, &connection, protocol, CURRENT_VERSION + 1, CURRENT_VERSION, valid_flags)?;
                proof {
                    lemma_ops_since_extends(mid.instructions, builder.state().instructions, from);
                    let (e, d) = choose|e: bool, d: bool| ops_since(builder.state().instructions, mid.instructions.len() as int)
                        == #[trigger] setup_ops((CURRENT_VERSION + 1) as u16, CURRENT_VERSION, valid_flags, protocol, e, d);
                    assert(adversarial(self.violation, self.role, protocol, ops_since(builder.state().instructions, from)));
                }
            },
            SetupViolation::UnknownVersion => {
                let versions: [u16; 4] = [0, 1, CURRENT_VERSION + 1, 0xffff];
                let version = pick(rng, &versions);
                setup(builder, rng, &connection, protocol, version, version, valid_flags)?;
                proof {
                    lemma_ops_since_extends(mid.instructions, builder.state().instructions, from);
                    let (e, d) = choose|e: bool, d: bool| ops_since(builder.state().instructions, mid.instructions.len() as int)
                        == #[trigger] setup_ops(version, version, valid_flags, protocol, e, d);
                    assert(versions@.contains(version));
                    assert(adversarial(self.violation, self.role, protocol, ops_since(builder.state().instructions, from)));
                }
            },
            SetupViolation::UndefinedFlags => {
                // Some bits outside the definition, and at least one whatever the draw.
                let undefined = !defined;
                let mut flags = valid_flags | (random_u32(rng) & undefined);
                if flags & undefined == 0 {
                    let lowest = lowest_undefined_flag(protocol);
                    let drawn_flags = flags;
                    flags = drawn_flags | lowest;
                    assert(flags & undefined != 0) by (bit_vector)
                        requires
                            flags == drawn_flags | lowest,
                            lowest & undefined != 0,
                    ;
                }
                setup(builder, rng, &connection, protocol, CURRENT_VERSION, CURRENT_VERSION, flags)?;
                proof {
                    lemma_ops_since_extends(mid.instructions, builder.state().instructions, from);
                    let (e, d) = choose|e: bool, d: bool| ops_since(builder.state().instructions, mid.instructions.len() as int)
                        == #[trigger] setup_ops(CURRENT_VERSION, CURRENT_VERSION, flags, protocol, e, d);
                    assert(adversarial(self.violation, self.role, protocol, ops_since(builder.state().instructions, from)));
                }
            },
            SetupViolation::AfterRawFrame => {
                let zeros: Vec<u8> = vec![0u8; 6];
                assert(zeros@ =~= Seq::new(6, |i: int| 0u8));
                let bytes = one(append(builder, Operation::LoadBytes(zeros), &[])?);
                assert(usable(builder.state(), connection));
                let message_type = random_u8(rng);
                append(builder, Operation::SendRawFrame { message_type, extension_type: 0 }, &[&connection, &bytes])?;
                let ghost framed = builder.state();
                assert(usable(builder.state(), connection));
                setup(builder, rng, &connection, protocol, CURRENT_VERSION, CURRENT_VERSION, valid_flags)?;
                proof {
                    lemma_ops_since_extends(framed.instructions, builder.state().instructions, from);
                    assert(ops_since(framed.instructions, from) =~= connect_ops(self.role) + raw_frame_ops(message_type));
                    let (e, d) = choose|e: bool, d: bool| ops_since(builder.state().instructions, framed.instructions.len() as int)
                        == #[trigger] setup_ops(CURRENT_VERSION, CURRENT_VERSION, valid_flags, protocol, e, d);
                    assert(adversarial(self.violation, self.role, protocol, ops_since(builder.state().instructions, from)));
                }
            },
            SetupViolation::SecondSetup => {
                setup(builder, rng, &connection, protocol, CURRENT_VERSION, CURRENT_VERSION, valid_flags)?;
                let ghost first = builder.state();
                assert(usable_under(builder.state(), connection, mid.scopes));
                assert(usable(builder.state(), connection));
                assert(ops_since(first.instructions, mid.instructions.len() as int).len() == first.instructions.len() - mid.instructions.len());
                setup(builder, rng, &connection, protocol, CURRENT_VERSION, CURRENT_VERSION, valid_flags)?;
                proof {
                    lemma_ops_since_extends(mid.instructions, first.instructions, from);
                    lemma_ops_since_extends(first.instructions, builder.state().instructions, from);
                    let (e1, d1) = choose|e: bool, d: bool| ops_since(first.instructions, mid.instructions.len() as int)
                        == #[trigger] setup_ops(CURRENT_VERSION, CURRENT_VERSION, valid_flags, protocol, e, d);
                    let (e2, d2) = choose|e: bool, d: bool| ops_since(builder.state().instructions, first.instructions.len() as int)
                        == #[trigger] setup_ops(CURRENT_VERSION, CURRENT_VERSION, valid_flags, protocol, e, d);
                    assert(adversarial(self.violation, self.role, protocol, ops_since(builder.state().instructions, from)));
                }
            },
        }
        Ok(())
    }
}

} // verus!
