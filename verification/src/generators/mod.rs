//! Generators append self contained fragments to a program under construction.
pub mod raw_frame;
pub mod setup_connection;

use rand::rngs::SmallRng;
use vstd::prelude::*;

use crate::builder::{scoped, context_error, defined_in, first_out_of_scope, lemma_wf_scopes, scope_open, types_of, BuildState, IndexedVariable, ProgramBuilder, Scope};
use crate::operation::first_mismatch;
use crate::variable::Variable;
use crate::errors::ProgramValidationError;
use crate::instruction::InstructionView;
use crate::operation::{Operation, OperationView};
use crate::program::{Program, ProgramContext};
use crate::random::{seeded_rng, ExSmallRng};

verus! {

/// How many instructions, and variables, a fragment may append at most.
pub const FRAGMENT_ROOM: usize = 64;

/// The builder can take `n` more instructions, each defining at most one variable, without its
/// counters overflowing.
pub open spec fn room(s: BuildState, n: nat) -> bool {
    &&& s.variables.len() + n <= usize::MAX
    &&& s.instructions.len() + n + 2 < usize::MAX
}

/// `after` starts with the instructions of `before`.
pub open spec fn extends(before: Seq<InstructionView>, after: Seq<InstructionView>) -> bool {
    &&& before.len() <= after.len()
    &&& forall|i: int| 0 <= i < before.len() ==> #[trigger] after[i] == before[i]
}

/// Every instruction from position `from` on has an operation `p` holds of.
pub open spec fn all_since(instrs: Seq<InstructionView>, from: int, p: spec_fn(OperationView) -> bool) -> bool {
    forall|i: int| from <= i < instrs.len() ==> p(#[trigger] instrs[i].operation)
}

/// The operations of the instructions from position `from` on.
pub open spec fn ops_since(instrs: Seq<InstructionView>, from: int) -> Seq<OperationView> {
    instrs.subrange(from, instrs.len() as int).map_values(|i: InstructionView| i.operation)
}

/// The builder defined at most one variable per instruction it took in going from `before` to
/// `after`.
pub open spec fn modest(before: BuildState, after: BuildState) -> bool {
    &&& before.instructions.len() <= after.instructions.len()
    &&& after.variables.len() <= before.variables.len() + (after.instructions.len() - before.instructions.len())
}

/// The operations appended past `a` come after those appended past `from`.
pub proof fn lemma_ops_since_extends(a: Seq<InstructionView>, b: Seq<InstructionView>, from: int)
    requires
        extends(a, b),
        0 <= from <= a.len(),
    ensures
        ops_since(b, from) == ops_since(a, from) + ops_since(b, a.len() as int),
{
    assert(ops_since(b, from) =~= ops_since(a, from) + ops_since(b, a.len() as int));
}

/// `after` is `before` with one instruction running `op` taken in.
pub open spec fn stepped(before: BuildState, after: BuildState, op: OperationView) -> bool {
    &&& after.variables.len() == before.variables.len() + op.num_defined()
    &&& after.instructions.len() == before.instructions.len() + 1
    &&& after.instructions.drop_last() == before.instructions
    &&& after.instructions.last().operation == op
    &&& if op.is_block_begin() {
        after.scopes.len() == before.scopes.len() + 1 && after.scopes.drop_last() == before.scopes
    } else if op.is_block_end() {
        after.scopes == before.scopes.drop_last()
    } else {
        after.scopes == before.scopes
    }
}

/// Appends a self contained fragment to a program under construction.
///
/// A generator may only append instructions the builder accepts, so anything it produces is
/// statically valid by construction: what was there stays, and every block the fragment opens
/// it closes.
pub trait Generator {
    fn generate(&self, builder: &mut ProgramBuilder, rng: &mut SmallRng) -> (r: Result<(), ProgramValidationError>)
        requires
            old(builder).wf(),
            room(old(builder).state(), FRAGMENT_ROOM as nat),
        ensures
            final(builder).spec_context() == old(builder).spec_context(),
            r is Ok ==> final(builder).wf() && final(builder).consistent(),
            r is Ok ==> extends(old(builder).state().instructions, final(builder).state().instructions),
            r is Ok ==> final(builder).state().scopes == old(builder).state().scopes,
    ;
}

/// Variable `v` as the builder handed it out is still there, of its type, in a scope among
/// `scopes`.
pub open spec fn usable_under(s: BuildState, v: IndexedVariable, scopes: Seq<Scope>) -> bool {
    &&& (v.index as int) < s.variables.len()
    &&& s.variables[v.index as int].var == v.var
    &&& scope_open(scopes, s.variables[v.index as int].scope_id)
}

/// Variable `v` can be an input of the next instruction.
pub open spec fn usable(s: BuildState, v: IndexedVariable) -> bool {
    usable_under(s, v, s.scopes)
}

/// The one variable an operation that defines one defines.
pub open spec fn defined_variable(op: OperationView) -> Variable {
    (op.outputs() + op.inner_outputs())[0]
}

/// Whether appending `op` on `inputs` is bound to be taken in: the inputs are there, in scope
/// and of the types the operation reads, the context has what it names, and a block end closes
/// the innermost block.
pub open spec fn takes(s: BuildState, ctx: ProgramContext, op: OperationView, inputs: Seq<&IndexedVariable>) -> bool {
    &&& inputs.len() == op.inputs().len()
    &&& forall|k: int| 0 <= k < inputs.len() ==> #[trigger] usable(s, *inputs[k]) && inputs[k].var == op.inputs()[k]
    &&& context_error(ctx, op) is None
    &&& op.is_block_end() ==> op.closes(s.innermost_begin())
}

/// A variable stays usable under the same scopes as long as no variable is taken away.
pub proof fn lemma_usable_kept(s: BuildState, t: BuildState, v: IndexedVariable, scopes: Seq<Scope>)
    requires
        usable_under(s, v, scopes),
        s.variables.len() <= t.variables.len(),
        t.variables.subrange(0, s.variables.len() as int) == s.variables,
    ensures
        usable_under(t, v, scopes),
{
    assert(t.variables[v.index as int] == t.variables.subrange(0, s.variables.len() as int)[v.index as int]);
}

/// A variable usable under scopes that are still open is usable.
pub proof fn lemma_usable_open(s: BuildState, v: IndexedVariable, scopes: Seq<Scope>)
    requires
        usable_under(s, v, scopes),
        scopes.len() <= s.scopes.len(),
        s.scopes.subrange(0, scopes.len() as int) == scopes,
    ensures
        usable(s, v),
{
    let w = choose|i: int| 0 <= i < scopes.len() && scopes[i].id == s.variables[v.index as int].scope_id;
    assert(s.scopes[w] == s.scopes.subrange(0, scopes.len() as int)[w]);
}

/// Append an operation that defines at most one variable, handing back what it defines.
pub(crate) fn append(builder: &mut ProgramBuilder, operation: Operation, inputs: &[&IndexedVariable]) -> (r: Result<Vec<IndexedVariable>, ProgramValidationError>)
    requires
        old(builder).wf(),
        room(old(builder).state(), 1),
        operation@.num_defined() <= 1,
        operation@.is_block_end() ==> old(builder).state().scopes.len() > 1,
    ensures
        final(builder).spec_context() == old(builder).spec_context(),
        takes(old(builder).state(), old(builder).spec_context(), operation@, inputs@) ==> r is Ok,
        r is Ok <==> old(builder).state().append_error(old(builder).spec_context(),
            InstructionView { inputs: Seq::new(inputs@.len(), |k: int| inputs@[k].index), operation: operation@ }) is None,
        r matches Ok(vars) ==> {
            &&& final(builder).state().variables.len() >= old(builder).state().variables.len()
            &&& final(builder).state().variables.subrange(0, old(builder).state().variables.len() as int) == old(builder).state().variables
            &&& vars@.len() == 1 && !operation@.is_nop() ==> usable(final(builder).state(), vars@[0]) && vars@[0].var == defined_variable(operation@)
            &&& forall|v: IndexedVariable, sc: Seq<Scope>| usable_under(old(builder).state(), v, sc) ==> #[trigger] usable_under(final(builder).state(), v, sc)
            &&& !operation@.is_block_end() ==> forall|v: IndexedVariable| usable(old(builder).state(), v) ==> #[trigger] usable(final(builder).state(), v)
            &&& operation@.is_block_begin() ==> final(builder).state().scopes.len() > 1 && final(builder).state().innermost_begin() == operation@
            &&& !operation@.is_block_begin() && !operation@.is_block_end() && old(builder).state().scopes.len() > 1
                ==> final(builder).state().innermost_begin() == old(builder).state().innermost_begin()
        },
        r matches Ok(vars) ==> {
            &&& final(builder).wf()
            &&& final(builder).consistent()
            &&& stepped(old(builder).state(), final(builder).state(), operation@)
            &&& vars@.len() == operation@.num_defined()
            &&& extends(old(builder).state().instructions, final(builder).state().instructions)
            &&& forall|from: int| 0 <= from <= old(builder).state().instructions.len() ==> #[trigger] ops_since(final(builder).state().instructions, from) == ops_since(old(builder).state().instructions, from).push(operation@)
        },
{
    let ghost op = operation@;
    let ghost ins = InstructionView { inputs: Seq::new(inputs@.len(), |k: int| inputs@[k].index), operation: op };
    proof {
        lemma_wf_scopes(builder);
        let s = builder.state();
        if takes(s, builder.spec_context(), op, inputs@) {
            assert forall|k: int| 0 <= k < ins.inputs.len() implies defined_in(s.variables, s.scopes, #[trigger] ins.inputs[k]) by {
                assert(usable(s, *inputs@[k]));
            }
            assert(first_out_of_scope(s.variables, s.scopes, ins.inputs) is None);
            assert(types_of(s.variables, ins.inputs) =~= op.inputs()) by {
                assert forall|k: int| 0 <= k < ins.inputs.len() implies #[trigger] types_of(s.variables, ins.inputs)[k] == op.inputs()[k] by {
                    assert(usable(s, *inputs@[k]));
                }
            }
            assert(first_mismatch(op.inputs(), op.inputs()) is None);
            assert(s.append_error(builder.spec_context(), ins) is None);
        }
    }
    let r = builder.append_op(operation, inputs);
    proof {
        if r is Ok {
            let s = old(builder).state();
            let t = builder.state();
            assert(t.variables.subrange(0, s.variables.len() as int) =~= s.variables);
            assert forall|v: IndexedVariable, sc: Seq<Scope>| usable_under(s, v, sc) implies #[trigger] usable_under(t, v, sc) by {
                lemma_usable_kept(s, t, v, sc);
            }
            if op.is_block_begin() {
                assert(t == s.accept(ins));
                assert(t.instructions[s.instructions.len() as int] == ins);
            } else if !op.is_block_end() && s.scopes.len() > 1 {
                assert(t == s.accept(ins));
                let b = s.scopes.last().begin.unwrap() as int;
                assert(t.instructions[b] == s.instructions[b]);
            }
            if !op.is_block_end() {
                assert(t.scopes.subrange(0, s.scopes.len() as int) =~= s.scopes);
                assert forall|v: IndexedVariable| usable(s, v) implies #[trigger] usable(t, v) by {
                    lemma_usable_kept(s, t, v, s.scopes);
                    lemma_usable_open(t, v, s.scopes);
                }
            }
            if op.num_defined() == 1 && !op.is_nop() {
                assert(s.append_error(builder.spec_context(), ins) is None);
                assert(t == s.accept(ins));
                let v = t.variables[s.variables.len() as int];
                if op.outputs().len() == 1 {
                    assert(v == scoped(op.outputs(), (if op.is_block_end() { s.scopes.drop_last() } else { s.scopes }).last().id)[0]);
                    let scopes1 = if op.is_block_end() { s.scopes.drop_last() } else { s.scopes };
                    assert(scopes1.len() >= 1);
                    assert(v.scope_id == scopes1.last().id);
                    assert(t.scopes[scopes1.len() - 1] == scopes1.last());
                } else {
                    assert(op.inner_outputs().len() == 1);
                    assert(op.outputs().len() == 0);
                    assert(s.variables + scoped(op.outputs(), 0) =~= s.variables);
                    assert(op.is_block_begin());
                    assert(t.scopes.last().id == v.scope_id);
                }
            }
        }
    }
    proof {
        if r is Ok {
            let s = old(builder).state();
            let t = builder.state();
            assert(t.instructions == s.instructions.push(t.instructions.last()));
            assert(t.instructions.drop_last() =~= s.instructions);
            assert(op.outputs().len() + op.inner_outputs().len() <= 1);
            if op.is_block_begin() {
                assert(t.scopes.drop_last() =~= s.scopes);
            }
            assert forall|from: int| 0 <= from <= s.instructions.len() implies #[trigger] ops_since(t.instructions, from) == ops_since(s.instructions, from).push(op) by {
                assert(ops_since(t.instructions, from) =~= ops_since(s.instructions, from).push(op));
            }
        }
    }
    r
}

/// The one variable an operation defined.
pub(crate) fn one(variables: Vec<IndexedVariable>) -> (v: IndexedVariable)
    requires
        variables@.len() == 1,
    ensures
        v == variables@[0],
{
    variables[0]
}

/// The program generated for a seed: a conforming setup, on a fresh connection, to the role the
/// seed picks among `num_roles`, on a deployment the seed also drives.
pub fn generate_program(seed: u64, num_roles: usize) -> (r: Result<Program, ProgramValidationError>)
    requires
        num_roles > 0,
    ensures
        r is Ok,
        r matches Ok(p) ==> p@.is_valid() && p@.context == (ProgramContext { num_roles, num_connections: 0, seed }),
{
    let mut rng = seeded_rng(seed);
    let context = ProgramContext { num_roles, num_connections: 0, seed };
    let mut builder = ProgramBuilder::new(context);
    let role = (seed as usize) % num_roles;
    let generator = setup_connection::SetupConnectionGenerator::new(role);
    generator.generate(&mut builder, &mut rng)?;
    assert(builder.state().scopes == seq![crate::builder::global_scope()]);
    builder.finalize()
}

} // verus!
