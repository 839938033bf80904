use std::time::Duration;

use rand::rngs::SmallRng;
use vstd::prelude::*;

use crate::builder::{no_stray_end, lemma_accept_same_shape, lemma_run_prefix_ok, lemma_run_update, run};
use crate::duration::{duration_from_millis, millis_duration, same_duration};
use crate::text::push_char;
use crate::random::{pick, random_below, random_range_u32, random_range_u64, random_range_u8, random_u16, random_u32, random_u8, random_bool, ExSmallRng};

use crate::instruction::{carries_data, Instruction, InstructionView};
use crate::mutators::{within_limits, Mutator, MutatorError, MutatorResult};
use crate::operation::{Operation, OperationView};
use crate::program::{instruction_views, Program, ProgramContext};
use crate::random::shuffle;

verus! {

/// How many draws a rewrite makes before it settles for a change it can make without drawing.
/// Each draw gives the value back with a probability far below one half, so the settlement is
/// never reached in practice.
const DRAWS: usize = 64;

/// A string of `n` times the letter `a`.
fn a_string(n: usize) -> (s: String)
    ensures
        s@ == Seq::new(n as nat, |i: int| 'a'),
{
    let mut s = String::new();
    let mut i: usize = 0;
    while i < n
        invariant
            i <= n,
            s@ == Seq::new(i as nat, |j: int| 'a'),
        decreases n - i,
    {
        push_char(&mut s, 'a');
        i = i + 1;
        assert(s@ =~= Seq::new(i as nat, |j: int| 'a'));
    }
    s
}

/// Another index below `count`, or `None` when there is no other.
///
/// An index that is already out of range can go anywhere in range, since anywhere is a change.
fn other_index(current: usize, count: usize, rng: &mut SmallRng) -> (r: Option<usize>)
    ensures
        r is Some <==> has_other(current, count),
        r matches Some(j) ==> j < count && j != current,
{
    if count == 0 {
        return None;
    }
    if current >= count {
        return Some(random_below(rng, count));
    }
    if count == 1 {
        return None;
    }
    let pick = random_below(rng, count - 1);
    Some(if pick >= current { pick + 1 } else { pick })
}

/// Whether some index below `count` differs from `current`.
pub open spec fn has_other(current: usize, count: usize) -> bool {
    count > 1 || (count == 1 && current != 0)
}

/// A boundary value, the value with one bit flipped, or a random one; never the value given.
///
/// Flipping a bit keeps a mutation close to the value it came from, which is what makes an
/// unsupported flag reachable from a supported one.
fn mutate_u8(value: u8, edges: &[u8], rng: &mut SmallRng) -> (r: u8)
    requires
        edges@.len() > 0,
    ensures
        r != value,
{
    let mut draws: usize = 0;
    while draws < DRAWS
        invariant
            edges@.len() > 0,
        decreases DRAWS - draws,
    {
        let candidate = match random_range_u8(rng, 0, 3) {
            0 => pick(rng, edges),
            1 => value ^ (1u8 << random_range_u32(rng, 0, 8)),
            _ => random_u8(rng),
        };
        if candidate != value {
            return candidate;
        }
        draws = draws + 1;
    }
    assert(value ^ 1u8 != value) by (bit_vector);
    value ^ 1
}

/// A boundary value, the value with one bit flipped, or a random one; never the value given.
fn mutate_u16(value: u16, edges: &[u16], rng: &mut SmallRng) -> (r: u16)
    requires
        edges@.len() > 0,
    ensures
        r != value,
{
    let mut draws: usize = 0;
    while draws < DRAWS
        invariant
            edges@.len() > 0,
        decreases DRAWS - draws,
    {
        let candidate = match random_range_u8(rng, 0, 3) {
            0 => pick(rng, edges),
            1 => value ^ (1u16 << random_range_u32(rng, 0, 16)),
            _ => random_u16(rng),
        };
        if candidate != value {
            return candidate;
        }
        draws = draws + 1;
    }
    assert(value ^ 1u16 != value) by (bit_vector);
    value ^ 1
}

/// A boundary value, the value with one bit flipped, or a random one; never the value given.
fn mutate_u32(value: u32, edges: &[u32], rng: &mut SmallRng) -> (r: u32)
    requires
        edges@.len() > 0,
    ensures
        r != value,
{
    let mut draws: usize = 0;
    while draws < DRAWS
        invariant
            edges@.len() > 0,
        decreases DRAWS - draws,
    {
        let candidate = match random_range_u8(rng, 0, 3) {
            0 => pick(rng, edges),
            1 => value ^ (1u32 << random_range_u32(rng, 0, 32)),
            _ => random_u32(rng),
        };
        if candidate != value {
            return candidate;
        }
        draws = draws + 1;
    }
    assert(value ^ 1u32 != value) by (bit_vector);
    value ^ 1
}

/// A rewrite of a `STR0_255` field: empty, 255 or 256 letters, or the string with one more
/// lowercase letter; never the string given.
pub open spec fn string_rewrite(before: Seq<char>, after: Seq<char>) -> bool {
    &&& after != before
    &&& {
        ||| after.len() == 0
        ||| after == Seq::new(255, |i: int| 'a')
        ||| after == Seq::new(256, |i: int| 'a')
        ||| exists|c: char| 97 <= (c as u32) <= 122 && after == before.push(c)
    }
}

/// The string fields are `STR0_255`, so the lengths worth reaching are 0, 255 and 256.
fn mutate_string(value: &String, rng: &mut SmallRng) -> (r: String)
    ensures
        string_rewrite(value@, r@),
{
    let mut draws: usize = 0;
    while draws < DRAWS
        decreases DRAWS - draws,
    {
        let candidate = match random_range_u8(rng, 0, 4) {
            0 => String::new(),
            1 => a_string(255),
            2 => a_string(256),
            _ => {
                let mut mutated = value.clone();
                let letter = random_range_u8(rng, 97, 123);
                push_char(&mut mutated, letter as char);
                assert(value@.push(letter as char).len() != value@.len());
                mutated
            },
        };
        if candidate != *value {
            return candidate;
        }
        draws = draws + 1;
    }
    let mut mutated = value.clone();
    push_char(&mut mutated, 'a');
    assert(mutated@.len() != value@.len());
    mutated
}

/// A rewrite of a payload: one bit flipped, one byte more, or one byte fewer.
pub open spec fn bytes_rewrite(before: Seq<u8>, after: Seq<u8>) -> bool {
    &&& after != before
    &&& {
        ||| exists|at: int, bit: u8| 0 <= at < before.len() && bit < 8 && after == before.update(at, before[at] ^ (1u8 << bit))
        ||| exists|b: u8| after == before.push(b)
        ||| (before.len() > 0 && after == before.drop_last())
    }
}

/// One bit flipped, one byte more, or one byte fewer.
fn mutate_bytes(value: &Vec<u8>, rng: &mut SmallRng) -> (r: Vec<u8>)
    ensures
        bytes_rewrite(value@, r@),
{
    let mut draws: usize = 0;
    while draws < DRAWS
        decreases DRAWS - draws,
    {
        let mut candidate = value.clone();
        assert(candidate@ =~= value@);
        let choice = random_range_u8(rng, 0, 3);
        if choice == 0 && candidate.len() > 0 {
            let at = random_below(rng, candidate.len());
            let bit = random_range_u32(rng, 0, 8);
            let old_byte = candidate[at];
            let flipped = old_byte ^ (1u8 << bit);
            assert(flipped != old_byte) by (bit_vector)
                requires
                    flipped == old_byte ^ (1u8 << bit),
                    bit < 8,
            ;
            assert(flipped == old_byte ^ (1u8 << (bit as u8))) by (bit_vector)
                requires
                    flipped == old_byte ^ (1u8 << bit),
                    bit < 8,
            ;
            candidate.set(at, flipped);
            assert(candidate@[at as int] != value@[at as int]);
            return candidate;
        } else if choice == 1 {
            let byte = random_u8(rng);
            candidate.push(byte);
            assert(candidate@.len() != value@.len());
            return candidate;
        } else if candidate.len() > 0 {
            candidate.pop();
            assert(candidate@.len() != value@.len());
            return candidate;
        }
        draws = draws + 1;
    }
    let mut candidate = value.clone();
    assert(candidate@ =~= value@);
    candidate.push(0);
    assert(candidate@.len() != value@.len());
    candidate
}

/// A rewrite of a duration: one of the favoured lengths, or up to a minute at random; never the
/// duration given.
pub open spec fn duration_rewrite(before: Duration, after: Duration) -> bool {
    &&& after != before
    &&& exists|ms: u64| after == millis_duration(ms) && (ms <= 60_000 || ms == 3_600_000)
}

fn mutate_duration(value: Duration, rng: &mut SmallRng) -> (r: Duration)
    ensures
        duration_rewrite(value, r),
{
    let mut draws: usize = 0;
    while draws < DRAWS
        decreases DRAWS - draws,
    {
        let ms = if random_bool(rng) {
            let edges: [u64; 6] = [0, 1, 1_000, 10_000, 60_000, 3_600_000];
            pick(rng, &edges)
        } else {
            random_range_u64(rng, 0, 60_000)
        };
        let candidate = duration_from_millis(ms);
        if !same_duration(&candidate, &value) {
            return candidate;
        }
        draws = draws + 1;
    }
    let none = duration_from_millis(0);
    if !same_duration(&none, &value) {
        return none;
    }
    let one = duration_from_millis(1);
    assert(millis_duration(0) != one);
    one
}

/// Whether the operation carries data a rewrite can change in the given context: a role or
/// connection only when the context has another to name.
pub open spec fn rewritable(op: OperationView, ctx: ProgramContext) -> bool {
    match op {
        OperationView::LoadRole(r) => has_other(r, ctx.num_roles),
        OperationView::LoadConnection(c) => has_other(c, ctx.num_connections),
        _ => carries_data(op),
    }
}

/// `after` is a rewrite of `before`: the same operation carrying different data, a role or
/// connection the context has, and of a raw frame, one of its two types changed.
pub open spec fn is_rewrite(before: OperationView, after: OperationView, ctx: ProgramContext) -> bool {
    match before {
        OperationView::LoadRole(a) => after matches OperationView::LoadRole(b) && b < ctx.num_roles && b != a,
        OperationView::LoadConnection(a) => after matches OperationView::LoadConnection(b) && b < ctx.num_connections && b != a,
        OperationView::LoadVersion(a) => after matches OperationView::LoadVersion(b) && b != a,
        OperationView::LoadFlags(a) => after matches OperationView::LoadFlags(b) && b != a,
        OperationView::LoadPort(a) => after matches OperationView::LoadPort(b) && b != a,
        OperationView::LoadStr(a) => after matches OperationView::LoadStr(b) && string_rewrite(a, b),
        OperationView::LoadBytes(a) => after matches OperationView::LoadBytes(b) && bytes_rewrite(a, b),
        OperationView::LoadDuration(a) => after matches OperationView::LoadDuration(b) && duration_rewrite(a, b),
        OperationView::SendRawFrame { message_type: m1, extension_type: e1 } => after matches OperationView::SendRawFrame { message_type: m2, extension_type: e2 }
            && ((m1 != m2 && e1 == e2) || (m1 == m2 && e1 != e2)),
        _ => false,
    }
}

/// The rewrite an operation admits, or `None` for one that carries nothing to rewrite.
///
/// The protocol of a setup is written on the end of the block that builds it, on the send, and
/// on the block that waits for its success, and they have to agree for the program to
/// type-check, so those are declined: changing them together is a structural mutation, not a
/// rewrite of one operation.
fn mutate_operation(operation: &Operation, context: &ProgramContext, rng: &mut SmallRng) -> (r: Option<Operation>)
    ensures
        r is Some <==> rewritable(operation@, *context),
        r matches Some(m) ==> is_rewrite(operation@, m@, *context),
{
    match operation {
        Operation::LoadRole(role) => match other_index(*role, context.num_roles, rng) {
            Some(other) => Some(Operation::LoadRole(other)),
            None => None,
        },
        Operation::LoadConnection(connection) => match other_index(*connection, context.num_connections, rng) {
            Some(other) => Some(Operation::LoadConnection(other)),
            None => None,
        },
        Operation::LoadVersion(value) => {
            // Version 2 is the only one the specification allows, so the interesting cases are
            // the ones either side of it and the extremes of the field.
            let versions: [u16; 6] = [0, 1, 2, 3, 0xfffe, 0xffff];
            Some(Operation::LoadVersion(mutate_u16(*value, &versions, rng)))
        },
        Operation::LoadFlags(value) => {
            // The flags the mining and job declaration setups define, all of them together,
            // the first bit none defines, the sign bit and every bit.
            let flags: [u32; 8] = [0, 1, 2, 4, 0b111, 0b1000, 0x8000_0000, 0xffff_ffff];
            Some(Operation::LoadFlags(mutate_u32(*value, &flags, rng)))
        },
        Operation::LoadPort(value) => {
            // Either side of the privileged range, and the extremes of the field.
            let ports: [u16; 6] = [0, 1, 1023, 1024, 0xfffe, 0xffff];
            Some(Operation::LoadPort(mutate_u16(*value, &ports, rng)))
        },
        Operation::LoadStr(value) => Some(Operation::LoadStr(mutate_string(value, rng))),
        Operation::LoadBytes(value) => Some(Operation::LoadBytes(mutate_bytes(value, rng))),
        Operation::LoadDuration(value) => Some(Operation::LoadDuration(mutate_duration(*value, rng))),
        Operation::SendRawFrame { message_type, extension_type } => {
            if random_bool(rng) {
                // The setup messages, the reconnect, and the extremes of the message type space.
                let message_types: [u8; 8] = [0x00, 0x01, 0x02, 0x03, 0x04, 0x10, 0x7f, 0xff];
                Some(Operation::SendRawFrame { message_type: mutate_u8(*message_type, &message_types, rng), extension_type: *extension_type })
            } else {
                // No extension, the first one, and the values either side of the channel bit.
                let extension_types: [u16; 5] = [0, 1, 0x7fff, 0x8000, 0xffff];
                Some(Operation::SendRawFrame { message_type: *message_type, extension_type: mutate_u16(*extension_type, &extension_types, rng) })
            }
        },
        Operation::EndBuildSetupConnection { .. } | Operation::SendSetupConnection { .. } | Operation::BeginOnSetupSuccess { .. } => None,
        Operation::Nop { .. }
        | Operation::Connect
        | Operation::BeginBuildSetupConnection
        | Operation::EndOnSetupSuccess
        | Operation::SetVersions
        | Operation::SetFlags
        | Operation::SetEndpoint
        | Operation::SetDeviceInfo
        | Operation::AdvanceTime
        | Operation::Probe => None,
    }
}

/// `after` is `before` with the operation of one instruction rewritten and everything else,
/// its inputs included, left as it was.
pub open spec fn rewrote_one(ctx: ProgramContext, before: Seq<InstructionView>, after: Seq<InstructionView>) -> bool {
    exists|index: int| {
        &&& 0 <= index < before.len()
        &&& is_rewrite(before[index].operation, after[index].operation, ctx)
        &&& after == before.update(index, InstructionView { inputs: before[index].inputs, operation: after[index].operation })
    }
}

/// With two roles and two connections or more to choose from, the operation mutator finds
/// something to rewrite in a one-instruction program exactly when that instruction carries
/// data, as `is_operation_mutable` reports it, and declines every other operation.
pub proof fn lemma_rewrites_exactly_what_carries_data(ins: InstructionView, ctx: ProgramContext)
    requires
        ctx.num_roles >= 2,
        ctx.num_connections >= 2,
    ensures
        rewritable(ins.operation, ctx) == carries_data(ins.operation),
        (forall|i: int| 0 <= i < seq![ins].len() ==> !rewritable(#[trigger] seq![ins][i].operation, ctx))
            <==> !carries_data(ins.operation),
{
    assert(seq![ins][0] == ins);
}

/// Rewrites the data an operation carries, leaving the shape of the program alone.
///
/// This is what reaches the values inside a message: flags a role does not support, a version
/// range that does not overlap, a string longer than the field allows.
#[derive(Default)]
pub struct OperationMutator;

impl Mutator for OperationMutator {
    fn mutate(&mut self, program: &mut Program, rng: &mut SmallRng) -> (r: MutatorResult)
        ensures
            r is Err <==> forall|i: int| 0 <= i < old(program)@.instructions.len() ==> !rewritable(#[trigger] old(program)@.instructions[i].operation, old(program)@.context),
            r is Err ==> r == Err::<(), MutatorError>(MutatorError::NoMutationsAvailable),
            r is Ok ==> rewrote_one(old(program)@.context, old(program)@.instructions, final(program)@.instructions),
    {
        let ghost a = program@.instructions;
        let ghost ctx = program.context;
        // Which operations carry data is known to `mutate_operation` alone. Rather than keep a
        // second list of them here, try the instructions in random order until one yields a
        // rewrite, which picks uniformly among the ones that do.
        let mut order: Vec<usize> = Vec::new();
        let mut i: usize = 0;
        while i < program.instructions.len()
            invariant
                i <= program.instructions@.len(),
                order@ == Seq::new(i as nat, |k: int| k as usize),
            decreases program.instructions@.len() - i,
        {
            order.push(i);
            i = i + 1;
            assert(order@ =~= Seq::new(i as nat, |k: int| k as usize));
        }
        let ghost listed = order@;
        shuffle(rng, &mut order);
        proof {
            listed.to_multiset_ensures();
            order@.to_multiset_ensures();
            assert forall|j: usize| j < a.len() implies #[trigger] order@.contains(j) by {
                assert(listed[j as int] == j);
                assert(listed.contains(j));
                assert(listed.to_multiset().count(j) > 0);
                assert(order@.to_multiset().count(j) > 0);
            }
            assert forall|k: int| 0 <= k < order@.len() implies (#[trigger] order@[k]) < a.len() by {
                let v = order@[k];
                assert(order@.contains(v));
                assert(order@.to_multiset().count(v) > 0);
                assert(listed.to_multiset().count(v) > 0);
                assert(listed.contains(v));
            }
        }

        let mut k: usize = 0;
        while k < order.len()
            invariant
                a == program@.instructions,
                ctx == program.context,
                a == old(program)@.instructions,
                ctx == old(program)@.context,
                no_stray_end(a),
                k <= order@.len(),
                forall|j: usize| j < a.len() ==> #[trigger] order@.contains(j),
                forall|m: int| 0 <= m < order@.len() ==> (#[trigger] order@[m]) < a.len(),
                forall|m: int| 0 <= m < k ==> !rewritable(a[#[trigger] order@[m] as int].operation, ctx),
            decreases order@.len() - k,
        {
            let index = order[k];
            match mutate_operation(&program.instructions[index].operation, &program.context, rng) {
                Some(mutated) => {
                    let inputs = program.instructions[index].inputs.clone();
                    assert(inputs@ =~= a[index as int].inputs);
                    let rewritten = Instruction::new(mutated, inputs);
                    let ghost x = rewritten@;
                    program.instructions.set(index, rewritten);
                    proof {
                        assert(program@.instructions =~= a.update(index as int, x));
                        assert(rewrote_one(ctx, a, program@.instructions));
                        if run(ctx, a) is Ok {
                            lemma_run_prefix_ok(ctx, a, index as int);
                            let s = run(ctx, a.take(index as int))->Ok_0;
                            lemma_accept_same_shape(ctx, s, a[index as int], x);
                            lemma_run_update(ctx, a, index as int, x);
                        }
                    }
                    return Ok(());
                },
                None => {},
            }
            k = k + 1;
        }
        proof {
            assert forall|j: int| 0 <= j < a.len() implies !rewritable(#[trigger] a[j].operation, ctx) by {
                assert(order@.contains(j as usize));
                let m = choose|m: int| 0 <= m < order@.len() && order@[m] == j as usize;
                assert(order@[m] as int == j);
                assert(!rewritable(a[order@[m] as int].operation, ctx));
            }
        }
        Err(MutatorError::NoMutationsAvailable)
    }

    fn name(&self) -> (n: &'static str)
        ensures
            n@ == "OperationMutator"@,
    {
        "OperationMutator"
    }
}

} // verus!
