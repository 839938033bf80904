use vstd::prelude::*;

use crate::errors::{ProgramValidationError, ValidationErrorView};
use crate::instruction::{Instruction, InstructionContext, InstructionView};
use crate::operation::{input_type_error, Operation, OperationView};
use crate::program::{instruction_views, Program, ProgramContext};
use crate::random::{choose_from, ExSmallRng};
use crate::variable::Variable;
use rand::rngs::SmallRng;

verus! {

/// A scope the builder has open: the block that opened it, if any, and its number.
#[derive(Clone, Copy)]
pub struct Scope {
    /// Index of the instruction that opened the scope.
    pub begin: Option<usize>,
    pub id: usize,
    pub context: InstructionContext,
}

/// A variable together with the scope it was defined in.
#[derive(Clone, Copy)]
pub struct ScopedVariable {
    pub var: Variable,
    pub scope_id: usize,
}

/// A variable as the builder hands it out: its type and its index.
#[derive(Debug, Clone, Copy, PartialEq)]
pub struct IndexedVariable {
    pub var: Variable,
    pub index: usize,
}

/// What the builder knows after some instructions: the variables defined so far with their
/// scopes, the scopes still open (the global one first), how many scopes were ever opened,
/// and the instructions.
pub struct BuildState {
    pub variables: Seq<ScopedVariable>,
    pub scopes: Seq<Scope>,
    pub counter: nat,
    pub instructions: Seq<InstructionView>,
}

/// The global scope every program starts in. Scope number 0 is never opened, which is where
/// nop variables are put so that no instruction can consume them.
pub open spec fn global_scope() -> Scope {
    Scope { begin: None, id: 1, context: InstructionContext::Global }
}

/// The state before any instruction.
pub open spec fn initial_state() -> BuildState {
    BuildState { variables: seq![], scopes: seq![global_scope()], counter: 1, instructions: seq![] }
}

/// The variables of `vars`, all placed in scope `scope_id`.
pub open spec fn scoped(vars: Seq<Variable>, scope_id: usize) -> Seq<ScopedVariable> {
    vars.map_values(|v: Variable| ScopedVariable { var: v, scope_id })
}

/// What the program's context rules out of an operation: a role or connection it does not have.
pub open spec fn context_error(ctx: ProgramContext, op: OperationView) -> Option<ValidationErrorView> {
    match op {
        OperationView::LoadRole(i) => if i >= ctx.num_roles {
            Some(ValidationErrorView::RoleNotFound(i))
        } else {
            None
        },
        OperationView::LoadConnection(i) => if i >= ctx.num_connections {
            Some(ValidationErrorView::ConnectionNotFound(i))
        } else {
            None
        },
        _ => None,
    }
}

/// Whether a scope numbered `id` is among `scopes`.
pub open spec fn scope_open(scopes: Seq<Scope>, id: usize) -> bool {
    exists|i: int| 0 <= i < scopes.len() && scopes[i].id == id
}

/// Whether variable `index` is defined and its scope still open.
pub open spec fn defined_in(vars: Seq<ScopedVariable>, scopes: Seq<Scope>, index: usize) -> bool {
    index < vars.len() && scope_open(scopes, vars[index as int].scope_id)
}

/// The first of `inputs` that is not in scope.
pub open spec fn first_out_of_scope(vars: Seq<ScopedVariable>, scopes: Seq<Scope>, inputs: Seq<usize>) -> Option<int> {
    if exists|k: int| 0 <= k < inputs.len() && !defined_in(vars, scopes, inputs[k]) {
        Some(choose|k: int| 0 <= k < inputs.len() && !defined_in(vars, scopes, inputs[k]) && (forall|j: int| 0 <= j < k ==> defined_in(vars, scopes, inputs[j])))
    } else {
        None
    }
}

/// The types of the variables `inputs` name.
pub open spec fn types_of(vars: Seq<ScopedVariable>, inputs: Seq<usize>) -> Seq<Variable> {
    Seq::new(inputs.len(), |k: int| vars[inputs[k] as int].var)
}

/// Why `ins` cannot follow, found before any block is closed: the number of inputs, an input
/// not in scope, an input of the wrong type, or a role or connection the context lacks.
pub open spec fn inputs_error(vars: Seq<ScopedVariable>, scopes: Seq<Scope>, ctx: ProgramContext, ins: InstructionView) -> Option<ValidationErrorView> {
    let op = ins.operation;
    if ins.inputs.len() != op.inputs().len() {
        Some(ValidationErrorView::InvalidNumberOfInputs { is: ins.inputs.len() as usize, expected: op.inputs().len() as usize })
    } else if let Some(k) = first_out_of_scope(vars, scopes, ins.inputs) {
        Some(ValidationErrorView::VariableNotDefined(ins.inputs[k]))
    } else if let Some(e) = input_type_error(op, types_of(vars, ins.inputs)) {
        Some(e)
    } else {
        context_error(ctx, op)
    }
}

impl BuildState {
    pub open spec fn scope_active(self, id: usize) -> bool {
        scope_open(self.scopes, id)
    }

    /// Whether variable `index` is defined and its scope still open.
    pub open spec fn in_scope(self, index: usize) -> bool {
        defined_in(self.variables, self.scopes, index)
    }

    /// The first of `inputs` that is not in scope.
    pub open spec fn first_undefined(self, inputs: Seq<usize>) -> Option<int> {
        first_out_of_scope(self.variables, self.scopes, inputs)
    }

    /// The types of the variables `inputs` name.
    pub open spec fn input_types(self, inputs: Seq<usize>) -> Seq<Variable> {
        types_of(self.variables, inputs)
    }

    /// The operation of the block the innermost scope belongs to.
    pub open spec fn innermost_begin(self) -> OperationView {
        self.instructions[self.scopes.last().begin.unwrap() as int].operation
    }

    /// Why `ins` cannot follow, found before any block is closed.
    pub open spec fn input_error(self, ctx: ProgramContext, ins: InstructionView) -> Option<ValidationErrorView> {
        inputs_error(self.variables, self.scopes, ctx, ins)
    }

    /// Whether `ins` ends a block that it does not close.
    pub open spec fn mismatched_end(self, ins: InstructionView) -> bool {
        ins.operation.is_block_end() && !ins.operation.closes(self.innermost_begin())
    }

    /// Why appending `ins` fails, if it does.
    pub open spec fn append_error(self, ctx: ProgramContext, ins: InstructionView) -> Option<ValidationErrorView> {
        if let Some(e) = self.input_error(ctx, ins) {
            Some(e)
        } else if self.mismatched_end(ins) {
            Some(ValidationErrorView::InvalidBlockEnd { begin: self.innermost_begin(), end: ins.operation })
        } else {
            None
        }
    }

    /// The state once `ins` is appended, given that nothing is wrong with it.
    pub open spec fn accept(self, ins: InstructionView) -> BuildState {
        let op = ins.operation;
        let scopes1 = if op.is_block_end() { self.scopes.drop_last() } else { self.scopes };
        let out_scope: usize = if op.is_nop() { 0 } else { scopes1.last().id };
        let vars1 = self.variables + scoped(op.outputs(), out_scope);
        let counter2: nat = if op.is_block_begin() { self.counter + 1 } else { self.counter };
        let scopes2 = if op.is_block_begin() {
            scopes1.push(Scope { begin: Some(self.instructions.len() as usize), id: counter2 as usize, context: ins.entered_context().unwrap() })
        } else {
            scopes1
        };
        let inner_scope: usize = if op.is_nop() { 0 } else { counter2 as usize };
        BuildState {
            variables: vars1 + scoped(op.inner_outputs(), inner_scope),
            scopes: scopes2,
            counter: counter2,
            instructions: self.instructions.push(ins),
        }
    }

    /// The state after trying to append `ins`: unchanged when it is rejected, whatever the
    /// reason, and [`accept`](Self::accept) otherwise.
    pub open spec fn after_append(self, ctx: ProgramContext, ins: InstructionView) -> BuildState {
        if self.append_error(ctx, ins) is Some {
            self
        } else {
            self.accept(ins)
        }
    }

    /// Why the program built so far cannot be finalized: the innermost block is still open.
    pub open spec fn finalize_error(self) -> Option<ValidationErrorView> {
        match self.scopes.last().begin {
            Some(b) => Some(ValidationErrorView::UnfinishedBlock(self.instructions[b as int].operation)),
            None => None,
        }
    }
}

/// The builder's state after `instrs`, or the first error they meet.
pub open spec fn run(ctx: ProgramContext, instrs: Seq<InstructionView>) -> Result<BuildState, ValidationErrorView>
    decreases instrs.len(),
{
    if instrs.len() == 0 {
        Ok(initial_state())
    } else {
        match run(ctx, instrs.drop_last()) {
            Ok(s) => match s.append_error(ctx, instrs.last()) {
                Some(e) => Err(e),
                None => Ok(s.accept(instrs.last())),
            },
            Err(e) => Err(e),
        }
    }
}

/// Why a program is not statically valid, if it is not.
pub open spec fn validation_error(ctx: ProgramContext, instrs: Seq<InstructionView>) -> Option<ValidationErrorView> {
    match run(ctx, instrs) {
        Ok(s) => s.finalize_error(),
        Err(e) => Some(e),
    }
}

/// A program is statically valid when the builder accepts each of its instructions in turn
/// and every block it opens is closed.
pub open spec fn is_valid(ctx: ProgramContext, instrs: Seq<InstructionView>) -> bool {
    validation_error(ctx, instrs) is None
}

/// How far `instrs` nest blocks at their end: blocks begun, less blocks ended.
pub open spec fn block_depth(instrs: Seq<InstructionView>) -> int
    decreases instrs.len(),
{
    if instrs.len() == 0 {
        0
    } else {
        block_depth(instrs.drop_last()) + if instrs.last().operation.is_block_begin() {
            1int
        } else if instrs.last().operation.is_block_end() {
            -1int
        } else {
            0int
        }
    }
}

/// No instruction ends a block where none is open.
pub open spec fn no_stray_end(instrs: Seq<InstructionView>) -> bool {
    forall|k: int| 0 <= k < instrs.len() && (#[trigger] instrs[k]).operation.is_block_end() ==> block_depth(instrs.take(k)) >= 1
}

/// How many variables `instrs` define.
pub open spec fn defined_count(instrs: Seq<InstructionView>) -> nat
    decreases instrs.len(),
{
    if instrs.len() == 0 {
        0
    } else {
        defined_count(instrs.drop_last()) + instrs.last().operation.num_defined()
    }
}

/// What a sequence of instructions needs for the builder to take it in without running out of
/// numbers or closing the global scope: no stray block end, and variables and instructions that
/// fit the machine's counters.
pub open spec fn buildable(instrs: Seq<InstructionView>) -> bool {
    &&& no_stray_end(instrs)
    &&& defined_count(instrs) <= usize::MAX
    &&& instrs.len() + 2 < usize::MAX
}

/// Instruction `k` ends a block while only the global scope is open, after the builder took in
/// everything before it and its own inputs passed: the one point where appending cannot go on.
pub open spec fn stray_end_at(ctx: ProgramContext, instrs: Seq<InstructionView>, k: int) -> bool {
    &&& 0 <= k < instrs.len()
    &&& instrs[k].operation.is_block_end()
    &&& run(ctx, instrs.take(k)) matches Ok(s) && s.input_error(ctx, instrs[k]) is None && s.scopes.len() <= 1
}

/// Replaying `instrs` meets a block end with no block open to close.
pub open spec fn reaches_stray_end(ctx: ProgramContext, instrs: Seq<InstructionView>) -> bool {
    exists|k: int| #[trigger] stray_end_at(ctx, instrs, k)
}

/// What the builder needs to replay `instrs` one by one, stopping at the first error: it never
/// meets a block end with no block open, and the variables and instructions fit the machine's
/// counters.
pub open spec fn replayable(ctx: ProgramContext, instrs: Seq<InstructionView>) -> bool {
    &&& !reaches_stray_end(ctx, instrs)
    &&& defined_count(instrs) <= usize::MAX
    &&& instrs.len() + 1 < usize::MAX
}

/// The variables that appeared going from `before` to `after`, with their indices.
pub open spec fn new_variables(before: BuildState, after: BuildState) -> Seq<IndexedVariable> {
    Seq::new((after.variables.len() - before.variables.len()) as nat, |k: int| IndexedVariable {
        var: after.variables[before.variables.len() + k].var,
        index: (before.variables.len() + k) as usize,
    })
}

/// Variable `i` is in scope and of type `var`.
#[verifier::opaque]
pub open spec fn holds_variable(st: BuildState, i: int, var: Variable) -> bool {
    0 <= i < st.variables.len() && st.in_scope(i as usize) && st.variables[i].var == var
}

/// The shape of a state the builder reaches: one scope per open block besides the global
/// one, one variable per variable defined, and the instructions themselves.
pub proof fn lemma_run_shape(ctx: ProgramContext, instrs: Seq<InstructionView>)
    requires
        no_stray_end(instrs),
    ensures
        run(ctx, instrs) matches Ok(s) ==> {
            &&& s.scopes.len() == 1 + block_depth(instrs)
            &&& s.variables.len() == defined_count(instrs)
            &&& s.instructions == instrs
            &&& s.scopes.len() >= 1
            &&& s.scopes[0] == global_scope()
        },
    decreases instrs.len(),
{
    if instrs.len() > 0 {
        assert forall|k: int| 0 <= k < instrs.drop_last().len() && (#[trigger] instrs.drop_last()[k]).operation.is_block_end() implies block_depth(instrs.drop_last().take(k)) >= 1 by {
            assert(instrs.drop_last().take(k) =~= instrs.take(k));
            assert(instrs[k] == instrs.drop_last()[k]);
        }
        lemma_run_shape(ctx, instrs.drop_last());
        if let Ok(s) = run(ctx, instrs.drop_last()) {
            if s.append_error(ctx, instrs.last()) is None {
                let t = s.accept(instrs.last());
                assert(t.instructions =~= instrs);
                let op = instrs.last().operation;
                assert(scoped(op.outputs(), 0).len() == op.outputs().len());
                assert(t.variables.len() == defined_count(instrs));
                if instrs.last().operation.is_block_end() {
                    assert(s.scopes.len() > 1) by {
                        // a block end that passed its input checks closes a non-global block
                        // only when one is open; the depth says so
                        let k = instrs.len() - 1;
                        assert(instrs[k].operation.is_block_end());
                        assert(instrs.take(k) =~= instrs.drop_last());
                    }
                }
                assert(t.scopes.len() == 1 + block_depth(instrs));
                let scopes1 = if op.is_block_end() { s.scopes.drop_last() } else { s.scopes };
                assert(op.is_block_end() ==> s.scopes.len() > 1);
                assert(scopes1.len() >= 1);
                assert(scopes1[0] == s.scopes[0]);
                if op.is_block_begin() {
                    assert(t.scopes[0] == scopes1[0]);
                }
                assert(t.scopes[0] == global_scope());
            }
        }
    }
}

/// A replay that meets no stray block end and is accepted to its end leaves no stray block end
/// behind, and ends in a state of the usual shape.
pub proof fn lemma_run_without_stray(ctx: ProgramContext, instrs: Seq<InstructionView>)
    requires
        !reaches_stray_end(ctx, instrs),
        run(ctx, instrs) is Ok,
    ensures
        no_stray_end(instrs),
    decreases instrs.len(),
{
    if instrs.len() > 0 {
        let a = instrs.drop_last();
        let k = instrs.len() - 1;
        assert(instrs.take(k) =~= a);
        assert forall|j: int| !(#[trigger] stray_end_at(ctx, a, j)) by {
            if stray_end_at(ctx, a, j) {
                assert(a.take(j) =~= instrs.take(j));
                assert(a[j] == instrs[j]);
                assert(stray_end_at(ctx, instrs, j));
            }
        }
        lemma_run_without_stray(ctx, a);
        lemma_run_shape(ctx, a);
        if instrs[k].operation.is_block_end() {
            assert(!stray_end_at(ctx, instrs, k));
            assert(instrs.last() == instrs[k]);
        }
        lemma_no_stray_end_push(a, instrs.last());
        assert(a.push(instrs.last()) =~= instrs);
    }
}

/// A sequence without a stray block end never meets one on replay.
pub proof fn lemma_buildable_replayable(ctx: ProgramContext, instrs: Seq<InstructionView>)
    requires
        buildable(instrs),
    ensures
        replayable(ctx, instrs),
{
    assert forall|k: int| !(#[trigger] stray_end_at(ctx, instrs, k)) by {
        if 0 <= k < instrs.len() && instrs[k].operation.is_block_end() {
            lemma_no_stray_end_prefix(instrs, k);
            lemma_run_shape(ctx, instrs.take(k));
        }
    }
}

/// A prefix defines no more variables than the whole.
pub proof fn lemma_defined_count_prefix(instrs: Seq<InstructionView>, k: int)
    requires
        0 <= k <= instrs.len(),
    ensures
        defined_count(instrs.take(k)) <= defined_count(instrs),
    decreases instrs.len(),
{
    if k < instrs.len() {
        assert(instrs.drop_last().take(k) =~= instrs.take(k));
        lemma_defined_count_prefix(instrs.drop_last(), k);
    } else {
        assert(instrs.take(k) =~= instrs);
    }
}

/// Once the builder rejects an instruction, it rejects every longer sequence with the same error.
pub proof fn lemma_run_error_sticks(ctx: ProgramContext, instrs: Seq<InstructionView>, k: int)
    requires
        0 <= k <= instrs.len(),
        run(ctx, instrs.take(k)) is Err,
    ensures
        run(ctx, instrs) == run(ctx, instrs.take(k)),
    decreases instrs.len() - k,
{
    if k < instrs.len() {
        assert(instrs.take(k + 1).drop_last() =~= instrs.take(k));
        lemma_run_error_sticks(ctx, instrs, k + 1);
    } else {
        assert(instrs.take(k) =~= instrs);
    }
}

/// Running one more instruction is running the prefix and appending it.
pub proof fn lemma_run_push(ctx: ProgramContext, instrs: Seq<InstructionView>, k: int)
    requires
        0 <= k < instrs.len(),
    ensures
        run(ctx, instrs.take(k + 1)) == match run(ctx, instrs.take(k)) {
            Ok(s) => match s.append_error(ctx, instrs[k]) {
                Some(e) => Err(e),
                None => Ok(s.accept(instrs[k])),
            },
            Err(e) => Err(e),
        },
{
    assert(instrs.take(k + 1).drop_last() =~= instrs.take(k));
}

/// One more instruction leaves no stray block end if it ends a block only where one is open.
pub proof fn lemma_no_stray_end_push(instrs: Seq<InstructionView>, ins: InstructionView)
    requires
        no_stray_end(instrs),
        ins.operation.is_block_end() ==> block_depth(instrs) >= 1,
    ensures
        no_stray_end(instrs.push(ins)),
{
    let a = instrs.push(ins);
    assert forall|k: int| 0 <= k < a.len() && (#[trigger] a[k]).operation.is_block_end() implies block_depth(a.take(k)) >= 1 by {
        if k < instrs.len() {
            assert(a.take(k) =~= instrs.take(k));
            assert(a[k] == instrs[k]);
        } else {
            assert(a.take(k) =~= instrs);
        }
    }
}

/// A prefix of a sequence without a stray block end has none either.
pub proof fn lemma_no_stray_end_prefix(instrs: Seq<InstructionView>, k: int)
    requires
        no_stray_end(instrs),
        0 <= k <= instrs.len(),
    ensures
        no_stray_end(instrs.take(k)),
{
    assert forall|j: int| 0 <= j < instrs.take(k).len() && (#[trigger] instrs.take(k)[j]).operation.is_block_end() implies block_depth(instrs.take(k).take(j)) >= 1 by {
        assert(instrs.take(k).take(j) =~= instrs.take(j));
        assert(instrs.take(k)[j] == instrs[j]);
    }
}

/// Where no block ends with none open, blocks are never closed more often than opened.
pub proof fn lemma_block_depth_nonneg(a: Seq<InstructionView>)
    requires
        no_stray_end(a),
    ensures
        block_depth(a) >= 0,
    decreases a.len(),
{
    if a.len() > 0 {
        let k = a.len() - 1;
        lemma_no_stray_end_prefix(a, k);
        assert(a.take(k) =~= a.drop_last());
        lemma_block_depth_nonneg(a.drop_last());
        assert(a[k] == a.last());
    }
}

/// Nesting and variable counts add up over a concatenation.
pub proof fn lemma_concat_counts(a: Seq<InstructionView>, b: Seq<InstructionView>)
    ensures
        block_depth(a + b) == block_depth(a) + block_depth(b),
        defined_count(a + b) == defined_count(a) + defined_count(b),
    decreases b.len(),
{
    if b.len() == 0 {
        assert(a + b =~= a);
    } else {
        assert((a + b).drop_last() =~= a + b.drop_last());
        assert((a + b).last() == b.last());
        lemma_concat_counts(a, b.drop_last());
    }
}

/// Nesting, variable counts and stray block ends depend on the operations alone.
pub proof fn lemma_same_operations(b: Seq<InstructionView>, c: Seq<InstructionView>)
    requires
        b.len() == c.len(),
        forall|k: int| 0 <= k < b.len() ==> (#[trigger] b[k]).operation == c[k].operation,
    ensures
        block_depth(b) == block_depth(c),
        defined_count(b) == defined_count(c),
        no_stray_end(b) ==> no_stray_end(c),
    decreases b.len(),
{
    if b.len() > 0 {
        assert forall|k: int| 0 <= k < b.drop_last().len() implies (#[trigger] b.drop_last()[k]).operation == c.drop_last()[k].operation by {
            assert(b.drop_last()[k] == b[k]);
            assert(c.drop_last()[k] == c[k]);
        }
        lemma_same_operations(b.drop_last(), c.drop_last());
        assert(b.last() == b[b.len() - 1]);
        assert(c.last() == c[c.len() - 1]);
    }
    if no_stray_end(b) {
        assert forall|k: int| 0 <= k < c.len() && (#[trigger] c[k]).operation.is_block_end() implies block_depth(c.take(k)) >= 1 by {
            assert(b[k].operation == c[k].operation);
            assert forall|j: int| 0 <= j < b.take(k).len() implies (#[trigger] b.take(k)[j]).operation == c.take(k)[j].operation by {
                assert(b.take(k)[j] == b[j]);
                assert(c.take(k)[j] == c[j]);
            }
            lemma_same_operations(b.take(k), c.take(k));
        }
    }
}

/// Two sequences without a stray block end make one without.
pub proof fn lemma_no_stray_end_concat(a: Seq<InstructionView>, c: Seq<InstructionView>)
    requires
        no_stray_end(a),
        no_stray_end(c),
    ensures
        no_stray_end(a + c),
{
    let ac = a + c;
    assert forall|k: int| 0 <= k < ac.len() && (#[trigger] ac[k]).operation.is_block_end() implies block_depth(ac.take(k)) >= 1 by {
        if k < a.len() {
            assert(ac.take(k) =~= a.take(k));
            assert(ac[k] == a[k]);
        } else {
            let j = k - a.len();
            assert(ac.take(k) =~= a + c.take(j));
            assert(ac[k] == c[j]);
            lemma_concat_counts(a, c.take(j));
            lemma_block_depth_nonneg(a);
        }
    }
}

/// Two states alike in everything the builder looks at: the same variables and scopes, and
/// instructions of the same shape.
pub open spec fn similar(s: BuildState, t: BuildState) -> bool {
    &&& s.variables == t.variables
    &&& s.scopes == t.scopes
    &&& s.counter == t.counter
    &&& s.instructions.len() == t.instructions.len()
    &&& forall|k: int| 0 <= k < s.instructions.len() ==> (#[trigger] s.instructions[k]).operation.same_shape(t.instructions[k].operation)
}

/// Operations of the same kind are the same with respect to blocks.
pub proof fn lemma_same_shape_blocks(a: OperationView, b: OperationView)
    requires
        a.same_shape(b),
    ensures
        a.is_block_begin() == b.is_block_begin(),
        a.is_block_end() == b.is_block_end(),
        a.is_nop() == b.is_nop(),
        forall|c: OperationView| a.closes(c) == b.closes(c),
        forall|c: OperationView| #[trigger] c.closes(a) == c.closes(b),
        a.num_defined() == b.num_defined(),
{
}

/// Every scope but the global one was opened by an instruction the state holds.
pub open spec fn begins_recorded(s: BuildState) -> bool {
    forall|i: int| 1 <= i < s.scopes.len() ==> (#[trigger] s.scopes[i]).begin is Some && (s.scopes[i].begin.unwrap() as int) < s.instructions.len()
}

/// The scopes of a state the builder reaches were each opened by one of its instructions.
pub proof fn lemma_run_begins(ctx: ProgramContext, instrs: Seq<InstructionView>)
    requires
        no_stray_end(instrs),
    ensures
        run(ctx, instrs) matches Ok(s) ==> begins_recorded(s),
    decreases instrs.len(),
{
    if instrs.len() > 0 {
        let k = instrs.len() - 1;
        lemma_no_stray_end_prefix(instrs, k);
        assert(instrs.take(k) =~= instrs.drop_last());
        lemma_run_begins(ctx, instrs.drop_last());
        lemma_run_shape(ctx, instrs.drop_last());
        if let Ok(s) = run(ctx, instrs.drop_last()) {
            if s.append_error(ctx, instrs.last()) is None {
                let t = s.accept(instrs.last());
                let op = instrs.last().operation;
                assert(instrs[k] == instrs.last());
                assert(op.is_block_end() ==> s.scopes.len() > 1);
                let scopes1 = if op.is_block_end() { s.scopes.drop_last() } else { s.scopes };
                assert forall|i: int| 1 <= i < t.scopes.len() implies (#[trigger] t.scopes[i]).begin is Some && (t.scopes[i].begin.unwrap() as int) < t.instructions.len() by {
                    if i < scopes1.len() {
                        assert(t.scopes[i] == scopes1[i]);
                        assert(scopes1[i] == s.scopes[i]);
                    }
                }
            }
        }
    }
}

/// Alike states reject alike.
pub proof fn lemma_similar_error(ctx: ProgramContext, s: BuildState, t: BuildState, y: InstructionView)
    requires
        similar(s, t),
        begins_recorded(s),
        y.operation.is_block_end() ==> s.scopes.len() > 1,
    ensures
        s.input_error(ctx, y) == t.input_error(ctx, y),
        (s.append_error(ctx, y) is None) == (t.append_error(ctx, y) is None),
{
    if y.operation.is_block_end() {
        let last = s.scopes.len() - 1;
        assert(s.scopes[last] == s.scopes.last());
        let b = s.scopes.last().begin.unwrap() as int;
        assert(0 <= b < s.instructions.len());
        lemma_same_shape_blocks(s.instructions[b].operation, t.instructions[b].operation);
        assert(s.innermost_begin() == s.instructions[b].operation);
        assert(t.innermost_begin() == t.instructions[b].operation);
        assert(s.mismatched_end(y) == t.mismatched_end(y));
    }
}

/// Alike states take alike instructions in alike.
#[verifier::rlimit(30)]
pub proof fn lemma_similar_accept(s: BuildState, t: BuildState, x: InstructionView, y: InstructionView)
    requires
        similar(s, t),
        x.operation.same_shape(y.operation),
    ensures
        similar(s.accept(x), t.accept(y)),
{
    lemma_same_shape_blocks(x.operation, y.operation);
    let sa = s.accept(x);
    let ta = t.accept(y);
    assert(x.entered_context() == y.entered_context());
    assert(sa.variables =~= ta.variables);
    assert(sa.scopes =~= ta.scopes);
    assert forall|k: int| 0 <= k < sa.instructions.len() implies (#[trigger] sa.instructions[k]).operation.same_shape(ta.instructions[k].operation) by {
        if k < s.instructions.len() {
            assert(sa.instructions[k] == s.instructions[k]);
            assert(ta.instructions[k] == t.instructions[k]);
        }
    }
}

/// The states two sequences that differ in instruction `i` alone reach after their first `k`
/// instructions: the same up to `i`, and alike from there on, as long as the builder takes in
/// the replacement where the original stood.
proof fn lemma_run_update_prefix(ctx: ProgramContext, a: Seq<InstructionView>, i: int, x: InstructionView, k: int)
    requires
        no_stray_end(a),
        0 <= i < a.len(),
        0 <= k <= a.len(),
        x.operation.same_shape(a[i].operation),
        run(ctx, a.take(i)) matches Ok(s) ==> s.append_error(ctx, x) is None,
    ensures
        k <= i ==> run(ctx, a.update(i, x).take(k)) == run(ctx, a.take(k)),
        run(ctx, a.take(k)) matches Ok(sa) ==> (run(ctx, a.update(i, x).take(k)) matches Ok(sb) && similar(sa, sb)),
    decreases k,
{
    let b = a.update(i, x);
    if k <= i {
        assert(b.take(k) =~= a.take(k));
    }
    if k > 0 {
        lemma_run_update_prefix(ctx, a, i, x, k - 1);
        lemma_run_push(ctx, a, k - 1);
        lemma_run_push(ctx, b, k - 1);
        let ak = a.take(k - 1);
        lemma_no_stray_end_prefix(a, k - 1);
        lemma_run_shape(ctx, ak);
        lemma_run_begins(ctx, ak);
        if let Ok(sa) = run(ctx, ak) {
            if sa.append_error(ctx, a[k - 1]) is None {
                let sb = run(ctx, b.take(k - 1))->Ok_0;
                if k - 1 == i {
                    assert(sb == sa);
                    assert(similar(sa, sa));
                    lemma_similar_accept(sa, sa, a[i], x);
                } else {
                    assert(b[k - 1] == a[k - 1]);
                    if a[k - 1].operation.is_block_end() {
                        assert(a.take(k - 1) == ak);
                        assert(block_depth(a.take(k - 1)) >= 1);
                    }
                    lemma_similar_error(ctx, sa, sb, a[k - 1]);
                    lemma_similar_accept(sa, sb, a[k - 1], a[k - 1]);
                }
            }
        }
    }
}

/// Putting in place of one instruction another of the same shape, which the builder takes in
/// where the first stood, leaves a program the builder takes in as it did the first, and valid
/// where the first was.
pub proof fn lemma_run_update(ctx: ProgramContext, a: Seq<InstructionView>, i: int, x: InstructionView)
    requires
        no_stray_end(a),
        0 <= i < a.len(),
        x.operation.same_shape(a[i].operation),
        run(ctx, a.take(i)) matches Ok(s) ==> s.append_error(ctx, x) is None,
    ensures
        run(ctx, a) matches Ok(sa) ==> (run(ctx, a.update(i, x)) matches Ok(sb) && similar(sa, sb)),
        is_valid(ctx, a) ==> is_valid(ctx, a.update(i, x)),
{
    lemma_run_update_prefix(ctx, a, i, x, a.len() as int);
    assert(a.take(a.len() as int) =~= a);
    assert(a.update(i, x).take(a.len() as int) =~= a.update(i, x));
}

/// In a sequence the builder takes in, every prefix is taken in and accepts the instruction
/// that follows it.
pub proof fn lemma_run_prefix_ok(ctx: ProgramContext, a: Seq<InstructionView>, k: int)
    requires
        run(ctx, a) is Ok,
        0 <= k < a.len(),
    ensures
        run(ctx, a.take(k)) matches Ok(s) && s.append_error(ctx, a[k]) is None,
{
    lemma_run_push(ctx, a, k);
    if run(ctx, a.take(k)) is Err {
        lemma_run_error_sticks(ctx, a, k);
    } else if run(ctx, a.take(k + 1)) is Err {
        lemma_run_error_sticks(ctx, a, k + 1);
    }
}

/// An instruction of the same shape, on the same inputs, whose operation the context allows, is
/// accepted wherever the one it replaces is.
pub proof fn lemma_accept_same_shape(ctx: ProgramContext, s: BuildState, y: InstructionView, x: InstructionView)
    requires
        s.append_error(ctx, y) is None,
        x.inputs == y.inputs,
        x.operation.same_shape(y.operation),
        context_error(ctx, x.operation) is None,
    ensures
        s.append_error(ctx, x) is None,
{
    lemma_same_shape_blocks(x.operation, y.operation);
    assert(s.input_types(x.inputs) == s.input_types(y.inputs));
    assert(input_type_error(x.operation, s.input_types(x.inputs)) == input_type_error(y.operation, s.input_types(y.inputs)));
}

/// An instruction with one input exchanged for another variable in scope, of the same type, is
/// accepted wherever the original is.
pub proof fn lemma_accept_swapped_input(ctx: ProgramContext, s: BuildState, y: InstructionView, slot: int, v: usize)
    requires
        s.append_error(ctx, y) is None,
        0 <= slot < y.inputs.len(),
        s.in_scope(v),
        s.variables[v as int].var == s.variables[y.inputs[slot] as int].var,
    ensures
        s.append_error(ctx, InstructionView { inputs: y.inputs.update(slot, v), operation: y.operation }) is None,
{
    let x = InstructionView { inputs: y.inputs.update(slot, v), operation: y.operation };
    assert(s.first_undefined(y.inputs) is None);
    assert forall|k: int| 0 <= k < x.inputs.len() implies s.in_scope(#[trigger] x.inputs[k]) by {
        if k != slot {
            assert(x.inputs[k] == y.inputs[k]);
            if !s.in_scope(y.inputs[k]) {
                assert(exists|m: int| 0 <= m < y.inputs.len() && !defined_in(s.variables, s.scopes, y.inputs[m]));
            }
        }
    }
    assert(s.first_undefined(x.inputs) is None);
    assert(s.input_types(x.inputs) =~= s.input_types(y.inputs));
}

/// A well-formed builder always has the global scope open, at the bottom.
pub proof fn lemma_wf_scopes(b: &ProgramBuilder)
    requires
        b.wf(),
    ensures
        b.state().scopes.len() >= 1,
        b.state().scopes[0] == global_scope(),
        b.consistent(),
        b.state().scopes.len() > 1 ==> b.state().scopes.last().begin is Some
            && (b.state().scopes.last().begin.unwrap() as int) < b.state().instructions.len(),
{
    let scopes = b.state().scopes;
    if scopes.len() > 1 {
        assert(scopes[scopes.len() - 1] == scopes.last());
    }
}

/// A builder is where replaying its own instructions leads, however many of the instructions
/// it was asked to append it turned down: rebuilding it from its program reaches the same
/// state, it numbers the variables its instructions define and no others, and no block end
/// stands where no block is open.
pub proof fn lemma_builder_replays(b: &ProgramBuilder)
    requires
        b.wf(),
    ensures
        run(b.spec_context(), b.state().instructions) == Ok::<BuildState, ValidationErrorView>(b.state()),
        b.state().variables.len() == defined_count(b.state().instructions),
        no_stray_end(b.state().instructions),
{
    lemma_run_shape(b.spec_context(), b.state().instructions);
}

/// Finalizing a builder gives the verdict on the instructions it holds, whatever it was asked to
/// append on the way: those it refused left no trace. Its program is valid exactly when no block
/// is left open; otherwise the error names the operation that opened the innermost open block.
pub proof fn lemma_finalize_judges_its_instructions(b: &ProgramBuilder)
    requires
        b.wf(),
    ensures
        validation_error(b.spec_context(), b.state().instructions) == b.state().finalize_error(),
        is_valid(b.spec_context(), b.state().instructions) <==> b.state().scopes.len() == 1,
        b.state().scopes.len() > 1 ==> b.state().finalize_error() == Some(
            ValidationErrorView::UnfinishedBlock(b.state().innermost_begin()),
        ),
{
    lemma_wf_scopes(b);
}

/// The program a builder holds can be rebuilt into the same builder: replaying its instructions
/// meets no block end with no block open, and reaches the builder's own state.
pub proof fn lemma_program_round_trip(b: &ProgramBuilder)
    requires
        b.wf(),
    ensures
        replayable(b.spec_context(), b.state().instructions),
        run(b.spec_context(), b.state().instructions) == Ok::<BuildState, ValidationErrorView>(b.state()),
{
    lemma_builder_replays(b);
    assert(b.variables.len() == b.variables@.len());
    assert forall|k: int| !(#[trigger] stray_end_at(b.spec_context(), b.state().instructions, k)) by {
        let instrs = b.state().instructions;
        if 0 <= k < instrs.len() && instrs[k].operation.is_block_end() {
            lemma_no_stray_end_prefix(instrs, k);
            lemma_run_shape(b.spec_context(), instrs.take(k));
        }
    }
}

/// Builds a [`Program`], rejecting instructions whose inputs are of the wrong type or out of
/// scope. Every program that leaves [`ProgramBuilder::finalize`] is statically valid.
pub struct ProgramBuilder {
    context: ProgramContext,
    active_scopes: Vec<Scope>,
    scope_counter: usize,
    variables: Vec<ScopedVariable>,
    instructions: Vec<Instruction>,
}

impl ProgramBuilder {
    /// What the builder knows, as a value.
    pub closed spec fn state(&self) -> BuildState {
        BuildState {
            variables: self.variables@,
            scopes: self.active_scopes@,
            counter: self.scope_counter as nat,
            instructions: instruction_views(self.instructions@),
        }
    }

    pub closed spec fn spec_context(&self) -> ProgramContext {
        self.context
    }

    /// The builder is where running its own instructions from the start leads: no instruction
    /// it was asked to append was taken in half.
    pub closed spec fn consistent(&self) -> bool {
        run(self.spec_context(), self.state().instructions) == Ok::<BuildState, ValidationErrorView>(self.state())
    }

    /// The builder's own bookkeeping is consistent, and it is where running its own
    /// instructions from the start leads.
    pub closed spec fn wf(&self) -> bool {
        let scopes = self.active_scopes@;
        &&& scopes.len() >= 1
        &&& scopes[0] == global_scope()
        &&& forall|i: int| 1 <= i < scopes.len() ==> (#[trigger] scopes[i]).begin is Some
            && (scopes[i].begin.unwrap() as int) < self.instructions@.len()
        &&& forall|i: int, j: int| 0 <= i < j < scopes.len() ==> (#[trigger] scopes[i]).id < (#[trigger] scopes[j]).id
        &&& forall|i: int| 0 <= i < scopes.len() ==> (#[trigger] scopes[i]).id <= self.scope_counter
        &&& self.scope_counter <= self.instructions@.len() + 1
        &&& self.instructions@.len() + 1 < usize::MAX
        &&& self.consistent()
        &&& no_stray_end(self.state().instructions)
    }

    pub fn new(context: ProgramContext) -> (b: Self)
        ensures
            b.wf(),
            b.state() == initial_state(),
            b.spec_context() == context,
            b.consistent(),
    {
        let mut active_scopes: Vec<Scope> = Vec::new();
        active_scopes.push(Scope { begin: None, id: 1, context: InstructionContext::Global });
        let b = Self {
            context,
            active_scopes,
            scope_counter: 1,
            variables: Vec::new(),
            instructions: Vec::new(),
        };
        assert(b.state().variables =~= initial_state().variables);
        assert(b.state().scopes =~= initial_state().scopes);
        assert(b.state().instructions =~= initial_state().instructions);
        b
    }

    pub fn context(&self) -> (c: &ProgramContext)
        ensures
            *c == self.spec_context(),
    {
        &self.context
    }

    pub fn variable_count(&self) -> (n: usize)
        requires
            self.wf(),
        ensures
            n == self.state().variables.len(),
            n == defined_count(self.state().instructions),
    {
        proof {
            lemma_run_shape(self.context, self.state().instructions);
        }
        self.variables.len()
    }

    pub fn instructions(&self) -> (i: &[Instruction])
        ensures
            instruction_views(i@) == self.state().instructions,
    {
        self.instructions.as_slice()
    }

    /// The context of the innermost open scope.
    pub fn current_context(&self) -> (c: &InstructionContext)
        requires
            self.wf(),
        ensures
            *c == self.state().scopes.last().context,
    {
        let last = self.active_scopes.len() - 1;
        &self.active_scopes[last].context
    }

    fn scope_is_active(&self, id: usize) -> (b: bool)
        ensures
            b == self.state().scope_active(id),
    {
        let mut i: usize = 0;
        while i < self.active_scopes.len()
            invariant
                i <= self.active_scopes@.len(),
                forall|j: int| 0 <= j < i ==> self.active_scopes@[j].id != id,
            decreases self.active_scopes@.len() - i,
        {
            if self.active_scopes[i].id == id {
                return true;
            }
            i = i + 1;
        }
        false
    }

    /// Append an instruction, checking single assignment form and input types.
    ///
    /// The inputs are checked first, in order, then the context, then, for a block end, that it
    /// closes the innermost open block; only then is the instruction taken in. An instruction
    /// that fails any of these checks is refused and leaves the builder as it was. A block end
    /// that passes its input checks needs a block to close: with only the global scope open,
    /// there is none.
    pub fn append(&mut self, instruction: Instruction) -> (r: Result<Vec<IndexedVariable>, ProgramValidationError>)
        requires
            old(self).wf(),
            instruction@.operation.is_block_end() && old(self).state().input_error(old(self).spec_context(), instruction@) is None
                ==> old(self).state().scopes.len() > 1,
            old(self).state().variables.len() + instruction@.operation.num_defined() <= usize::MAX,
            old(self).state().instructions.len() + 2 < usize::MAX,
        ensures
            final(self).wf(),
            final(self).spec_context() == old(self).spec_context(),
            final(self).state() == old(self).state().after_append(old(self).spec_context(), instruction@),
            r is Ok <==> old(self).state().append_error(old(self).spec_context(), instruction@) is None,
            r is Err ==> final(self).state() == old(self).state(),
            r matches Err(e) ==> Some(e@) == old(self).state().append_error(old(self).spec_context(), instruction@),
            r matches Ok(vars) ==> vars@ == new_variables(old(self).state(), final(self).state()),
            old(self).consistent() ==> final(self).consistent(),
    {
        proof {
            let instrs = self.state().instructions;
            assert(instrs.push(instruction@).drop_last() =~= instrs);
            lemma_run_shape(self.context, instrs);
        }
        let ghost s0 = self.state();
        let ghost ins = instruction@;
        let n_inputs = instruction.operation.num_inputs();
        if n_inputs != instruction.inputs.len() {
            return Err(ProgramValidationError::InvalidNumberOfInputs { is: instruction.inputs.len(), expected: n_inputs });
        }

        let mut input_vars: Vec<Variable> = Vec::new();
        let mut k: usize = 0;
        while k < instruction.inputs.len()
            invariant
                self.state() == s0,
                self.wf(),
                self.context == old(self).context,
                ins.inputs.len() == ins.operation.inputs().len(),
                instruction@ == ins,
                k <= ins.inputs.len(),
                input_vars@.len() == k,
                forall|j: int| 0 <= j < k ==> s0.in_scope(#[trigger] ins.inputs[j]),
                forall|j: int| 0 <= j < k ==> input_vars@[j] == s0.variables[ins.inputs[j] as int].var,
            decreases ins.inputs.len() - k,
        {
            let index = instruction.inputs[k];
            match self.get_variable(index) {
                Some(v) => input_vars.push(v.var),
                None => {
                    proof {
                        assert(exists|m: int| 0 <= m < ins.inputs.len() && !s0.in_scope(ins.inputs[m]) && (forall|j: int| 0 <= j < m ==> s0.in_scope(ins.inputs[j]))) by {
                            assert(0 <= k < ins.inputs.len() && !s0.in_scope(ins.inputs[k as int]));
                        }
                        let w = choose|m: int| 0 <= m < ins.inputs.len() && !s0.in_scope(ins.inputs[m]) && (forall|j: int| 0 <= j < m ==> s0.in_scope(ins.inputs[j]));
                        if w < k {
                            assert(s0.in_scope(ins.inputs[w]));
                        } else if w > k {
                            assert(s0.in_scope(ins.inputs[k as int]));
                        }
                        assert(s0.first_undefined(ins.inputs) == Some(k as int));
                    }
                    return Err(ProgramValidationError::VariableNotDefined(index));
                },
            }
            k = k + 1;
        }
        proof {
            assert(s0.first_undefined(ins.inputs) is None);
            assert(input_vars@ =~= s0.input_types(ins.inputs));
        }
        match instruction.operation.check_input_types(input_vars.as_slice()) {
            Ok(()) => {},
            Err(e) => {
                return Err(e);
            },
        }

        match &instruction.operation {
            Operation::LoadRole(i) => {
                if *i >= self.context.num_roles {
                    return Err(ProgramValidationError::RoleNotFound(*i));
                }
            },
            Operation::LoadConnection(i) => {
                if *i >= self.context.num_connections {
                    return Err(ProgramValidationError::ConnectionNotFound(*i));
                }
            },
            _ => {},
        }
        assert(s0.input_error(self.context, ins) is None);
        proof {
            lemma_no_stray_end_push(s0.instructions, ins);
        }

        if instruction.operation.is_block_end() {
            let innermost = self.active_scopes.len() - 1;
            proof {
                assert(self.active_scopes@[innermost as int] == s0.scopes.last());
            }
            let begin_index = self.active_scopes[innermost].begin.unwrap();
            if !instruction.operation.is_matching_block_begin(&self.instructions[begin_index].operation) {
                let begin = self.instructions[begin_index].operation.duplicate();
                return Err(ProgramValidationError::InvalidBlockEnd { begin, end: instruction.operation });
            }
            let exited = self.active_scopes.pop().unwrap();
            proof {
                assert(exited == s0.scopes.last());
            }
        }
        let ghost s1 = self.state();
        assert(s1.scopes == if ins.operation.is_block_end() { s0.scopes.drop_last() } else { s0.scopes });

        let first_new = self.variables.len();
        let is_nop = instruction.operation.is_nop();
        let last_scope = self.active_scopes.len() - 1;
        let scope_id: usize = if is_nop { 0 } else { self.active_scopes[last_scope].id };
        let outputs = instruction.operation.get_output_variables();
        let mut j: usize = 0;
        while j < outputs.len()
            invariant
                j <= outputs@.len(),
                outputs@ == ins.operation.outputs(),
                self.active_scopes@ == s1.scopes,
                self.scope_counter == s1.counter,
                instruction_views(self.instructions@) == s1.instructions,
                self.instructions@.len() == s1.instructions.len(),
                self.context == old(self).context,
                self.variables@ == s0.variables + scoped(outputs@.take(j as int), scope_id),
                s0.variables.len() + ins.operation.num_defined() <= usize::MAX,
            decreases outputs@.len() - j,
        {
            proof {
                assert(outputs@.take(j + 1) =~= outputs@.take(j as int).push(outputs@[j as int]));
            }
            self.variables.push(ScopedVariable { var: outputs[j], scope_id });
            proof {
                assert(self.variables@ =~= s0.variables + scoped(outputs@.take(j + 1), scope_id));
            }
            j = j + 1;
        }
        assert(outputs@.take(outputs@.len() as int) =~= outputs@);

        if instruction.operation.is_block_begin() {
            let context = instruction.entered_context_after_execution().unwrap();
            self.scope_counter = self.scope_counter + 1;
            self.active_scopes.push(Scope { begin: Some(self.instructions.len()), id: self.scope_counter, context });
        }
        let inner_scope_id: usize = if is_nop { 0 } else { self.scope_counter };
        let ghost vars1 = self.variables@;
        let ghost scopes2 = self.active_scopes@;
        let ghost counter2 = self.scope_counter;
        let ghost instrs2 = self.instructions@;
        let inner = instruction.operation.get_inner_output_variables();
        let mut j: usize = 0;
        while j < inner.len()
            invariant
                j <= inner@.len(),
                inner@ == ins.operation.inner_outputs(),
                vars1.len() + inner@.len() <= usize::MAX,
                self.variables@ == vars1 + scoped(inner@.take(j as int), inner_scope_id),
                self.active_scopes@ == scopes2,
                self.scope_counter == counter2,
                self.instructions@ == instrs2,
                self.context == old(self).context,
            decreases inner@.len() - j,
        {
            proof {
                assert(inner@.take(j + 1) =~= inner@.take(j as int).push(inner@[j as int]));
            }
            self.variables.push(ScopedVariable { var: inner[j], scope_id: inner_scope_id });
            proof {
                assert(self.variables@ =~= vars1 + scoped(inner@.take(j + 1), inner_scope_id));
            }
            j = j + 1;
        }
        assert(inner@.take(inner@.len() as int) =~= inner@);

        assert(instruction_views(instrs2) == s0.instructions);
        self.instructions.push(instruction);
        proof {
            assert(self.instructions@ == instrs2.push(instruction));
            assert(instruction_views(self.instructions@) =~= s0.instructions.push(ins));
            assert(self.state().variables =~= s0.accept(ins).variables);
            assert(self.state().scopes =~= s0.accept(ins).scopes);
        }

        let mut result: Vec<IndexedVariable> = Vec::new();
        let mut i: usize = first_new;
        while i < self.variables.len()
            invariant
                first_new == s0.variables.len(),
                first_new <= i <= self.variables@.len(),
                result@.len() == i - first_new,
                forall|m: int| 0 <= m < result@.len() ==> #[trigger] result@[m] == (IndexedVariable {
                    var: self.variables@[first_new + m].var,
                    index: (first_new + m) as usize,
                }),
            decreases self.variables@.len() - i,
        {
            result.push(IndexedVariable { var: self.variables[i].var, index: i });
            i = i + 1;
        }
        assert(result@ =~= new_variables(s0, self.state()));
        Ok(result)
    }

    /// Rebuild the state a program is in after the given instructions.
    ///
    /// Scopes the prefix leaves open stay open, which is what lets a mutator ask what is in
    /// scope at the point it is rewriting.
    pub fn from_prefix(context: ProgramContext, instructions: &[Instruction]) -> (r: Result<Self, ProgramValidationError>)
        requires
            replayable(context, instruction_views(instructions@)),
        ensures
            match run(context, instruction_views(instructions@)) {
                Ok(s) => r matches Ok(b) && b.wf() && b.state() == s && b.spec_context() == context && b.consistent(),
                Err(e) => r matches Err(e2) && e2@ == e,
            },
    {
        assert(instruction_views(instructions@).take(instructions@.len() as int) =~= instruction_views(instructions@));
        Self::from_first(context, instructions, instructions.len())
    }

    /// The builder after the first `len` of the given instructions.
    pub(crate) fn from_first(context: ProgramContext, instructions: &[Instruction], len: usize) -> (r: Result<Self, ProgramValidationError>)
        requires
            len <= instructions@.len(),
            replayable(context, instruction_views(instructions@).take(len as int)),
        ensures
            match run(context, instruction_views(instructions@).take(len as int)) {
                Ok(s) => r matches Ok(b) && b.wf() && b.state() == s && b.spec_context() == context && b.consistent(),
                Err(e) => r matches Err(e2) && e2@ == e,
            },
    {
        let ghost all = instruction_views(instructions@).take(len as int);
        let mut builder = Self::new(context);
        let mut k: usize = 0;
        while k < len
            invariant
                all == instruction_views(instructions@).take(len as int),
                len <= instructions@.len(),
                replayable(context, all),
                k <= all.len(),
                all.len() == len,
                builder.wf(),
                builder.consistent(),
                builder.spec_context() == context,
                builder.state().instructions == all.take(k as int),
                run(context, all.take(k as int)) == Ok::<BuildState, ValidationErrorView>(builder.state()),
            decreases all.len() - k,
        {
            proof {
                lemma_builder_replays(&builder);
                lemma_run_push(context, all, k as int);
                lemma_defined_count_prefix(all, k + 1);
                assert(all.take(k + 1).drop_last() =~= all.take(k as int));
                assert(all.take(k as int + 1).last() == all[k as int]);
                assert(all[k as int] == instructions@[k as int]@);
                assert(!stray_end_at(context, all, k as int));
                assert(all.take(k as int).push(all[k as int]) =~= all.take(k + 1));
            }
            let instruction = instructions[k].duplicate();
            match builder.append(instruction) {
                Ok(_) => {},
                Err(e) => {
                    proof {
                        lemma_run_error_sticks(context, all, k + 1);
                    }
                    return Err(e);
                },
            }
            k = k + 1;
        }
        assert(all.take(all.len() as int) =~= all);
        Ok(builder)
    }

    pub fn from_program(program: Program) -> (r: Result<Self, ProgramValidationError>)
        requires
            replayable(program.context, program@.instructions),
        ensures
            match run(program.context, program@.instructions) {
                Ok(s) => r matches Ok(b) && b.wf() && b.state() == s && b.spec_context() == program.context && b.consistent(),
                Err(e) => r matches Err(e2) && e2@ == e,
            },
    {
        Self::from_prefix(program.context, program.instructions.as_slice())
    }

    /// Append an operation, resolving its inputs from the given variables.
    pub fn append_op(&mut self, operation: Operation, inputs: &[&IndexedVariable]) -> (r: Result<Vec<IndexedVariable>, ProgramValidationError>)
        requires
            old(self).wf(),
            ({
                let ins = InstructionView { inputs: Seq::new(inputs@.len(), |k: int| inputs@[k].index), operation: operation@ };
                ins.operation.is_block_end() && old(self).state().input_error(old(self).spec_context(), ins) is None
                    ==> old(self).state().scopes.len() > 1
            }),
            old(self).state().variables.len() + operation@.num_defined() <= usize::MAX,
            old(self).state().instructions.len() + 2 < usize::MAX,
        ensures
            ({
                let ins = InstructionView { inputs: Seq::new(inputs@.len(), |k: int| inputs@[k].index), operation: operation@ };
                &&& final(self).wf()
                &&& final(self).spec_context() == old(self).spec_context()
                &&& final(self).state() == old(self).state().after_append(old(self).spec_context(), ins)
                &&& (r is Ok <==> old(self).state().append_error(old(self).spec_context(), ins) is None)
                &&& (r is Err ==> final(self).state() == old(self).state())
                &&& (r matches Err(e) ==> Some(e@) == old(self).state().append_error(old(self).spec_context(), ins))
                &&& (r matches Ok(vars) ==> vars@ == new_variables(old(self).state(), final(self).state()))
                &&& (old(self).consistent() ==> final(self).consistent())
            }),
    {
        let mut indices: Vec<usize> = Vec::new();
        let mut k: usize = 0;
        while k < inputs.len()
            invariant
                k <= inputs@.len(),
                indices@ == Seq::new(k as nat, |j: int| inputs@[j].index),
            decreases inputs@.len() - k,
        {
            indices.push(inputs[k].index);
            k = k + 1;
            assert(indices@ =~= Seq::new(k as nat, |j: int| inputs@[j].index));
        }
        self.append(Instruction::new(operation, indices))
    }

    /// The most recently defined in-scope variable of the given type.
    pub fn get_nearest_variable(&self, var: &Variable) -> (v: Option<IndexedVariable>)
        ensures
            v is Some <==> exists|i: int| 0 <= i < self.state().variables.len() && self.state().in_scope(i as usize) && self.state().variables[i].var == *var,
            v matches Some(iv) ==> {
                &&& iv.var == *var
                &&& self.state().in_scope(iv.index)
                &&& self.state().variables[iv.index as int].var == *var
                &&& forall|j: int| iv.index < j < self.state().variables.len() ==> !(self.state().in_scope(j as usize) && self.state().variables[j].var == *var)
            },
    {
        let mut i: usize = self.variables.len();
        while i > 0
            invariant
                i <= self.state().variables.len(),
                forall|j: int| i <= j < self.state().variables.len() ==> !(self.state().in_scope(j as usize) && self.state().variables[j].var == *var),
            decreases i,
        {
            i = i - 1;
            if let Some(found) = self.get_variable(i) {
                if found.var == *var {
                    return Some(found);
                }
            }
        }
        None
    }

    /// The in-scope variables of the given type, in the order they were defined.
    pub fn variables_of_type(&self, var: &Variable) -> (found: Vec<IndexedVariable>)
        ensures
            forall|k: int| 0 <= k < found@.len() ==> (#[trigger] found@[k]).var == *var && holds_variable(self.state(), found@[k].index as int, *var),
            forall|i: int| holds_variable(self.state(), i, *var) ==> exists|k: int| 0 <= k < found@.len() && (#[trigger] found@[k]).index == i,
    {
        let ghost st = self.state();
        let mut found: Vec<IndexedVariable> = Vec::new();
        let mut i: usize = 0;
        while i < self.variables.len()
            invariant
                st == self.state(),
                st.variables.len() == self.variables@.len(),
                i <= st.variables.len(),
                forall|k: int| 0 <= k < found@.len() ==> (#[trigger] found@[k]).var == *var && holds_variable(st, found@[k].index as int, *var) && found@[k].index < i,
                forall|j: int| 0 <= j < i && holds_variable(st, j, *var) ==> exists|k: int| 0 <= k < found@.len() && (#[trigger] found@[k]).index == j,
            decreases st.variables.len() - i,
        {
            let ghost before = found@;
            let got = self.get_variable(i);
            proof {
                reveal(holds_variable);
            }
            if let Some(v) = got {
                if v.var == *var {
                    found.push(v);
                }
            }
            proof {
                assert(holds_variable(st, i as int, *var) <==> (got is Some && got.unwrap().var == *var));
                assert forall|j: int| 0 <= j < i + 1 && holds_variable(st, j, *var)
                    implies exists|k: int| 0 <= k < found@.len() && (#[trigger] found@[k]).index == j by {
                    if j < i {
                        let k = choose|k: int| 0 <= k < before.len() && (#[trigger] before[k]).index == j;
                        assert(found@[k] == before[k]);
                    } else {
                        assert(found@[found@.len() - 1].index == i);
                    }
                }
            }
            i = i + 1;
        }
        proof {
            reveal(holds_variable);
        }
        found
    }

    /// A random in-scope variable of the given type.
    pub fn get_random_variable(&self, rng: &mut SmallRng, var: &Variable) -> (v: Option<IndexedVariable>)
        ensures
            v is Some <==> exists|i: int| holds_variable(self.state(), i, *var),
            v matches Some(iv) ==> iv.var == *var && holds_variable(self.state(), iv.index as int, *var),
    {
        let found = self.variables_of_type(var);
        let ghost candidates = found@;
        let chosen = choose_from(rng, found);
        proof {
            if chosen is None {
                assert forall|i: int| !holds_variable(self.state(), i, *var) by {
                    if holds_variable(self.state(), i, *var) {
                        let k = choose|k: int| 0 <= k < candidates.len() && (#[trigger] candidates[k]).index == i;
                    }
                }
            } else {
                let k = choose|k: int| 0 <= k < candidates.len() && candidates[k] == chosen.unwrap();
                assert(candidates[k].var == *var);
                assert(holds_variable(self.state(), candidates[k].index as int, *var));
            }
        }
        chosen
    }

    pub fn finalize(self) -> (r: Result<Program, ProgramValidationError>)
        requires
            self.wf(),
        ensures
            r is Ok <==> self.state().finalize_error() is None,
            r matches Err(e) ==> Some(e@) == self.state().finalize_error(),
            r matches Ok(p) ==> p@.context == self.spec_context() && p@.instructions == self.state().instructions,
            r is Ok <==> is_valid(self.spec_context(), self.state().instructions),
            r matches Err(e) ==> Some(e@) == validation_error(self.spec_context(), self.state().instructions),
    {
        let last = self.active_scopes.len() - 1;
        match self.active_scopes[last].begin {
            Some(begin) => {
                assert(last >= 1);
                Err(ProgramValidationError::UnfinishedBlock(self.instructions[begin].operation.duplicate()))
            },
            None => Ok(Program { context: self.context, instructions: self.instructions }),
        }
    }

    /// The variable at `index`, if it is defined and its scope is open.
    pub fn get_variable(&self, index: usize) -> (v: Option<IndexedVariable>)
        ensures
            v is Some <==> self.state().in_scope(index),
            v matches Some(iv) ==> iv.index == index && iv.var == self.state().variables[index as int].var,
    {
        if index >= self.variables.len() {
            return None;
        }
        let scoped = self.variables[index];
        if self.scope_is_active(scoped.scope_id) {
            Some(IndexedVariable { var: scoped.var, index })
        } else {
            None
        }
    }
}

} // verus!
