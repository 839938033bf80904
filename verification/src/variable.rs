use vstd::prelude::*;

verus! {

/// The subprotocol a connection is set up for.
///
/// Mirrors the `protocol` field of `SetupConnection`, but is kept independent of the wire
/// types so that the IR stays implementation agnostic.
#[derive(Debug, Clone, Copy, PartialEq, Eq, Hash, Structural)]
pub enum Protocol {
    Mining,
    JobDeclaration,
    TemplateDistribution,
}

impl Protocol {
    /// The protocol's number on the wire.
    pub open spec fn spec_id(self) -> u8 {
        match self {
            Protocol::Mining => 0,
            Protocol::JobDeclaration => 1,
            Protocol::TemplateDistribution => 2,
        }
    }

    pub fn id(&self) -> (id: u8)
        ensures
            id == self.spec_id(),
    {
        match self {
            Protocol::Mining => 0,
            Protocol::JobDeclaration => 1,
            Protocol::TemplateDistribution => 2,
        }
    }

    pub fn from_id(id: u8) -> (protocol: Option<Self>)
        ensures
            id < 3 <==> protocol.is_some(),
            protocol matches Some(p) ==> p.spec_id() == id,
    {
        match id {
            0 => Some(Protocol::Mining),
            1 => Some(Protocol::JobDeclaration),
            2 => Some(Protocol::TemplateDistribution),
            _ => None,
        }
    }

    /// The name the protocol is printed under.
    pub fn name(&self) -> (name: &'static str)
        ensures
            name@ == crate::render::protocol_text(*self),
    {
        match self {
            Protocol::Mining => "mining",
            Protocol::JobDeclaration => "job-declaration",
            Protocol::TemplateDistribution => "template-distribution",
        }
    }
}

/// Reading a protocol back from its number gives the protocol.
pub proof fn lemma_protocol_id_round_trip(p: Protocol)
    ensures
        p.spec_id() < 3,
        (p.spec_id() == 0 ==> p == Protocol::Mining),
        (p.spec_id() == 1 ==> p == Protocol::JobDeclaration),
        (p.spec_id() == 2 ==> p == Protocol::TemplateDistribution),
{
}

/// `Variable` is the type of a value produced by an [`crate::Operation`].
///
/// Operations declare the variable types they consume, so a program can only wire a value
/// into a position that accepts it. Protocol carrying types are what tie a subprotocol's
/// messages to the connection they may be sent on.
#[derive(Debug, Clone, Copy, PartialEq, Eq, Hash, Structural)]
pub enum Variable {
    /// Output type of no-op instructions.
    Nop,
    /// Index of a role in the deployment.
    Role,
    /// A transport between two roles, before any Sv2 message is exchanged.
    Connection,
    /// A connection that has been set up for a subprotocol.
    Session(Protocol),
    Version,
    Flags,
    Port,
    Str,
    Bytes,
    Duration,
    /// A `SetupConnection` under construction.
    MutSetupConnection,
    /// A finalized `SetupConnection` for a subprotocol.
    ConstSetupConnection(Protocol),
}

} // verus!
