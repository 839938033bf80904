use rand::rngs::SmallRng;
use vstd::prelude::*;

use crate::builder::{holds_variable, lemma_wf_scopes, ProgramBuilder};
use crate::errors::ProgramValidationError;
use crate::generators::{usable, all_since, append, extends, one, room, stepped, Generator, FRAGMENT_ROOM};
use crate::operation::{Operation, OperationView};
use crate::random::{random_below, random_u8, ExSmallRng};
use crate::variable::Variable;

verus! {

/// What a raw frame fragment appends: the role it was told to connect to, a connection, a
/// payload of fewer than 64 bytes, and a frame without an extension.
pub open spec fn raw_frame_step(op: OperationView, role: usize) -> bool {
    match op {
        OperationView::LoadRole(r) => r == role,
        OperationView::Connect => true,
        OperationView::LoadBytes(payload) => payload.len() < 64,
        OperationView::SendRawFrame { extension_type, .. } => extension_type == 0,
        _ => false,
    }
}

/// Sends arbitrary bytes under an arbitrary message type on a connection.
///
/// Every other operation builds a message the encoder will accept, which is what a conformant
/// client could have sent. This is the way out of that: a frame whose payload never had to
/// parse, so a role's decoder is reached with bytes no message type would produce.
pub struct RawFrameGenerator {
    /// The role a connection is opened to, if the program has none to reuse.
    pub role: usize,
}

impl Generator for RawFrameGenerator {
    fn generate(&self, builder: &mut ProgramBuilder, rng: &mut SmallRng) -> (r: Result<(), ProgramValidationError>)
        ensures
            r is Ok ==> all_since(final(builder).state().instructions, old(builder).state().instructions.len() as int, |op: OperationView| raw_frame_step(op, self.role)),
            self.role < old(builder).spec_context().num_roles ==> r is Ok,
    {
        let ghost start = builder.state();
        let connection = match builder.get_random_variable(rng, &Variable::Connection) {
            Some(connection) => {
                proof {
                    reveal(holds_variable);
                }
                connection
            },
            None => {
                proof {
                    lemma_wf_scopes(builder);
                }
                let role = one(append(builder, Operation::LoadRole(self.role), &[])?);
                one(append(builder, Operation::Connect, &[&role])?)
            },
        };
        let ghost mid = builder.state();
        assert(extends(start.instructions, mid.instructions));
        assert(all_since(mid.instructions, start.instructions.len() as int, |op: OperationView| raw_frame_step(op, self.role)));

        let length = random_below(rng, 64);
        let mut payload: Vec<u8> = Vec::new();
        let mut i: usize = 0;
        while i < length
            invariant
                i <= length,
                payload@.len() == i,
            decreases length - i,
        {
            payload.push(random_u8(rng));
            i = i + 1;
        }
        assert(usable(builder.state(), connection) && connection.var == Variable::Connection);
        proof {
            lemma_wf_scopes(builder);
        }
        let bytes = one(append(builder, Operation::LoadBytes(payload), &[])?);
        assert(usable(builder.state(), connection));
        let message_type = random_u8(rng);
        append(builder, Operation::SendRawFrame { message_type, extension_type: 0 }, &[&connection, &bytes])?;
        Ok(())
    }
}

} // verus!
