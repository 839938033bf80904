//! Dropping the nops a minimizer left behind keeps a valid program valid.
//!
//! A nop's variables live in a scope that is never open, so no instruction of a valid program
//! reads them, and a nop opens and closes no block. Without the nops the builder goes through
//! the same scopes, defines the same variables the other instructions read, in the same order,
//! and so accepts what it accepted before.
use vstd::prelude::*;

use crate::builder::{
    lemma_run_prefix_ok, block_depth, defined_count, defined_in, first_out_of_scope, is_valid, lemma_no_stray_end_prefix,
    lemma_run_error_sticks, lemma_run_push, lemma_run_shape, lemma_run_without_stray, no_stray_end,
    reaches_stray_end, run, scope_open, types_of,
    validation_error, BuildState,
};
use crate::errors::ValidationErrorView;
use crate::instruction::InstructionView;
use crate::program::{
    is_kept, kept_defined, kept_instructions, lemma_renumbering_len, nop_marks, renumber, renumbering,
    without_marked, ProgramContext,
};

verus! {

/// The builder's state `s` after the first `k` instructions of `a`, and its state `t` after
/// those of them that are not nops, renumbered, correspond: the same scopes, opened by the same
/// operations, and every variable `s` has outside the never open scope of nops at the number the
/// renumbering gives it in `t`.
pub open spec fn corresponds(a: Seq<InstructionView>, k: int, s: BuildState, t: BuildState) -> bool {
    let marks = nop_marks(a);
    let m = renumbering(a, marks);
    &&& s.instructions == a.take(k)
    &&& t.instructions == kept_instructions(a.take(k), marks, m)
    &&& s.variables.len() == defined_count(a.take(k))
    &&& t.variables.len() == kept_defined(a.take(k), marks)
    &&& t.counter == s.counter
    &&& 1 <= s.counter <= k + 1
    &&& t.scopes.len() == s.scopes.len()
    &&& s.scopes.len() >= 1
    &&& s.scopes[0].begin is None
    &&& forall|i: int|
        0 <= i < s.scopes.len() ==> {
            &&& (#[trigger] s.scopes[i]).id >= 1
            &&& s.scopes[i].id <= s.counter
            &&& t.scopes[i].id == s.scopes[i].id
            &&& t.scopes[i].context == s.scopes[i].context
            &&& (t.scopes[i].begin is Some <==> s.scopes[i].begin is Some)
        }
    &&& forall|i: int|
        1 <= i < s.scopes.len() ==> {
            &&& (#[trigger] s.scopes[i]).begin is Some
            &&& (s.scopes[i].begin.unwrap() as int) < s.instructions.len()
            &&& (t.scopes[i].begin.unwrap() as int) < t.instructions.len()
            &&& t.instructions[t.scopes[i].begin.unwrap() as int].operation == s.instructions[s.scopes[i].begin.unwrap() as int].operation
        }
    &&& forall|x: int|
        0 <= x < s.variables.len() && (#[trigger] s.variables[x]).scope_id != 0 ==> {
            &&& (m[x] as int) < t.variables.len()
            &&& t.variables[m[x] as int] == s.variables[x]
        }
}

/// The renumbering of a prefix is the start of the renumbering of the whole.
pub proof fn lemma_renumbering_prefix(a: Seq<InstructionView>, marks: Seq<bool>, k: int)
    requires
        0 <= k <= a.len(),
    ensures
        renumbering(a, marks).take(defined_count(a.take(k)) as int) == renumbering(a.take(k), marks),
        defined_count(a.take(k)) <= renumbering(a, marks).len(),
    decreases a.len(),
{
    lemma_renumbering_len(a, marks);
    lemma_renumbering_len(a.take(k), marks);
    crate::builder::lemma_defined_count_prefix(a, k);
    if k == a.len() {
        assert(a.take(k) =~= a);
        assert(renumbering(a, marks).take(defined_count(a) as int) =~= renumbering(a, marks));
    } else {
        let b = a.drop_last();
        assert(b.take(k) =~= a.take(k));
        lemma_renumbering_prefix(b, marks, k);
        lemma_renumbering_len(b, marks);
        assert(renumbering(a, marks).take(defined_count(a.take(k)) as int) =~= renumbering(b, marks).take(
            defined_count(b.take(k)) as int,
        ));
    }
}

/// The variables instruction `k` defines are renumbered from how many the kept instructions
/// before it define: one apart if it is kept, all to that count if it is dropped.
pub proof fn lemma_renumbering_at(a: Seq<InstructionView>, marks: Seq<bool>, k: int, x: int)
    requires
        0 <= k < a.len(),
        defined_count(a.take(k)) <= x < defined_count(a.take(k + 1)),
    ensures
        x < renumbering(a, marks).len(),
        renumbering(a, marks)[x] == (kept_defined(a.take(k), marks) + if is_kept(marks, k) { x - defined_count(a.take(k)) } else { 0 }) as usize,
{
    lemma_renumbering_prefix(a, marks, k + 1);
    let p = a.take(k + 1);
    assert(p.drop_last() =~= a.take(k));
    assert(p.last() == a[k]);
    lemma_renumbering_len(a.take(k), marks);
    lemma_renumbering_len(p, marks);
    let r = renumbering(p, marks);
    let d = defined_count(a.take(k));
    let extra = Seq::new(a[k].operation.num_defined(), |j: int| (kept_defined(a.take(k), marks) + if is_kept(marks, p.len() - 1) { j } else { 0 }) as usize);
    assert(r == renumbering(a.take(k), marks) + extra);
    assert(x < r.len());
    assert(r[x] == extra[x - d]);
    assert(renumbering(a, marks)[x] == renumbering(a, marks).take(defined_count(p) as int)[x]);
}

/// One more instruction of `a`: what the prefixes define, what their kept instructions define,
/// and the kept instructions themselves.
pub proof fn lemma_prefix_step(a: Seq<InstructionView>, marks: Seq<bool>, m: Seq<usize>, k: int)
    requires
        0 <= k < a.len(),
    ensures
        defined_count(a.take(k + 1)) == defined_count(a.take(k)) + a[k].operation.num_defined(),
        kept_defined(a.take(k + 1), marks) == kept_defined(a.take(k), marks) + if is_kept(marks, k) {
            a[k].operation.num_defined()
        } else {
            0
        },
        kept_instructions(a.take(k + 1), marks, m) == kept_instructions(a.take(k), marks, m) + if is_kept(marks, k) {
            seq![renumber(a[k], m)]
        } else {
            seq![]
        },
{
    let p = a.take(k + 1);
    assert(p.drop_last() =~= a.take(k));
    assert(p.last() == a[k]);
}

/// An operation other than a nop defines at most one variable.
pub proof fn lemma_one_variable(ins: InstructionView)
    requires
        !ins.operation.is_nop(),
    ensures
        ins.operation.num_defined() <= 1,
        ins.operation.outputs().len() + ins.operation.inner_outputs().len() <= 1,
{
}

/// The instructions of `a`'s first `k` that are not nops, renumbered.
pub open spec fn kept_prefix(a: Seq<InstructionView>, k: int) -> Seq<InstructionView> {
    kept_instructions(a.take(k), nop_marks(a), renumbering(a, nop_marks(a)))
}

/// Where the builder accepts instruction `k` of `a`, it accepts its renumbered copy after the
/// kept instructions before it, and the states go on corresponding.
#[verifier::rlimit(60)]
pub proof fn lemma_step(ctx: ProgramContext, a: Seq<InstructionView>, k: int, s: BuildState, t: BuildState)
    requires
        no_stray_end(a),
        0 <= k < a.len(),
        run(ctx, a.take(k)) == Ok::<BuildState, ValidationErrorView>(s),
        run(ctx, kept_prefix(a, k)) == Ok::<BuildState, ValidationErrorView>(t),
        corresponds(a, k, s, t),
        s.append_error(ctx, a[k]) is None,
        defined_count(a) <= usize::MAX,
        a.len() + 2 < usize::MAX,
    ensures
        run(ctx, kept_prefix(a, k + 1)) matches Ok(t2) && corresponds(a, k + 1, s.accept(a[k]), t2),
{
    let marks = nop_marks(a);
    let m = renumbering(a, marks);
    let ins = a[k];
    let op = ins.operation;
    lemma_prefix_step(a, marks, m, k);
    assert(a.take(k + 1) =~= a.take(k).push(ins));
    let s2 = s.accept(ins);
    assert(is_kept(marks, k) == !op.is_nop());
    crate::program::lemma_kept_len(a.take(k), marks, m);
    assert(t.instructions.len() <= k);
    if op.is_nop() {
        assert(kept_prefix(a, k + 1) =~= kept_prefix(a, k));
        assert(s2.scopes == s.scopes);
        assert forall|i: int| 1 <= i < s2.scopes.len() implies {
            &&& (#[trigger] s2.scopes[i]).begin is Some
            &&& (s2.scopes[i].begin.unwrap() as int) < s2.instructions.len()
            &&& (t.scopes[i].begin.unwrap() as int) < t.instructions.len()
            &&& t.instructions[t.scopes[i].begin.unwrap() as int].operation == s2.instructions[s2.scopes[i].begin.unwrap() as int].operation
        } by {
            assert(s.scopes[i].begin is Some);
            assert(s2.instructions[s.scopes[i].begin.unwrap() as int] == s.instructions[s.scopes[i].begin.unwrap() as int]);
        }
        assert forall|x: int| 0 <= x < s2.variables.len() && (#[trigger] s2.variables[x]).scope_id != 0 implies {
            &&& (m[x] as int) < t.variables.len()
            &&& t.variables[m[x] as int] == s2.variables[x]
        } by {
            if x >= s.variables.len() {
                assert(s2.variables[x].scope_id == 0);
            } else {
                assert(s2.variables[x] == s.variables[x]);
            }
        }
        assert(corresponds(a, k + 1, s2, t));
    } else {
        lemma_one_variable(ins);
        let r = renumber(ins, m);
        assert(kept_prefix(a, k + 1) =~= kept_prefix(a, k).push(r));
        // The builder takes the copy in.
        assert(r.inputs.len() == ins.inputs.len());
        assert forall|j: int| 0 <= j < r.inputs.len() implies defined_in(t.variables, t.scopes, #[trigger] r.inputs[j]) by {
            let x = ins.inputs[j];
            assert(defined_in(s.variables, s.scopes, x));
            let i = choose|i: int| 0 <= i < s.scopes.len() && s.scopes[i].id == s.variables[x as int].scope_id;
            assert(s.scopes[i].id >= 1);
            assert(s.variables[x as int].scope_id != 0);
            assert(r.inputs[j] == m[x as int]);
            assert(t.scopes[i].id == s.scopes[i].id);
            assert(scope_open(t.scopes, t.variables[m[x as int] as int].scope_id));
        }
        assert(first_out_of_scope(t.variables, t.scopes, r.inputs) is None);
        assert(types_of(t.variables, r.inputs) =~= types_of(s.variables, ins.inputs)) by {
            assert forall|j: int| 0 <= j < ins.inputs.len() implies #[trigger] t.variables[r.inputs[j] as int].var == s.variables[ins.inputs[j] as int].var by {
                let x = ins.inputs[j];
                assert(defined_in(s.variables, s.scopes, x));
                let i = choose|i: int| 0 <= i < s.scopes.len() && s.scopes[i].id == s.variables[x as int].scope_id;
                assert(s.scopes[i].id >= 1);
            }
        }
        assert(t.input_error(ctx, r) is None);
        if op.is_block_end() {
            lemma_no_stray_end_prefix(a, k);
            lemma_run_shape(ctx, a.take(k));
            assert(a.take(k + 1)[k] == ins);
            assert(block_depth(a.take(k)) >= 1);
            assert(s.scopes.len() >= 2);
            let last = s.scopes.len() - 1;
            assert(s.scopes[last].begin is Some);
            assert(t.innermost_begin() == s.innermost_begin());
        }
        assert(t.append_error(ctx, r) is None);
        let t2 = t.accept(r);
        assert(kept_prefix(a, k + 1).drop_last() =~= kept_prefix(a, k));
        assert(run(ctx, kept_prefix(a, k + 1)) == Ok::<BuildState, ValidationErrorView>(t2));
        // The states still correspond.
        if op.is_block_end() {
            lemma_no_stray_end_prefix(a, k);
            lemma_run_shape(ctx, a.take(k));
            assert(s.scopes.len() >= 2);
        }
        assert(t2.scopes.len() == s2.scopes.len());
        assert forall|i: int| 0 <= i < s2.scopes.len() implies {
            &&& (#[trigger] s2.scopes[i]).id >= 1
            &&& s2.scopes[i].id <= s2.counter
            &&& t2.scopes[i].id == s2.scopes[i].id
            &&& t2.scopes[i].context == s2.scopes[i].context
            &&& (t2.scopes[i].begin is Some <==> s2.scopes[i].begin is Some)
        } by {
            if op.is_block_begin() && i == s2.scopes.len() - 1 {
                assert(r.entered_context() == ins.entered_context());
                assert(s2.scopes[i].id == s2.counter);
            } else {
                assert(i < s.scopes.len());
                assert(s2.scopes[i] == s.scopes[i]);
                assert(t2.scopes[i] == t.scopes[i]);
                assert(s.scopes[i].id >= 1 && s.scopes[i].id <= s.counter);
                assert(t.scopes[i].id == s.scopes[i].id);
            }
        }
        assert forall|i: int| 1 <= i < s2.scopes.len() implies {
            &&& (#[trigger] s2.scopes[i]).begin is Some
            &&& (s2.scopes[i].begin.unwrap() as int) < s2.instructions.len()
            &&& (t2.scopes[i].begin.unwrap() as int) < t2.instructions.len()
            &&& t2.instructions[t2.scopes[i].begin.unwrap() as int].operation == s2.instructions[s2.scopes[i].begin.unwrap() as int].operation
        } by {
            if op.is_block_begin() && i == s2.scopes.len() - 1 {
                assert(s2.instructions[s.instructions.len() as int] == ins);
                assert(t2.instructions[t.instructions.len() as int] == r);
            } else {
                assert(i < s.scopes.len());
                assert(s2.scopes[i] == s.scopes[i]);
                assert(t2.scopes[i] == t.scopes[i]);
                assert(s.scopes[i].begin is Some);
                assert(s2.instructions[s.scopes[i].begin.unwrap() as int] == s.instructions[s.scopes[i].begin.unwrap() as int]);
                assert(t2.instructions[t.scopes[i].begin.unwrap() as int] == t.instructions[t.scopes[i].begin.unwrap() as int]);
            }
        }
        assert forall|x: int| 0 <= x < s2.variables.len() && (#[trigger] s2.variables[x]).scope_id != 0 implies {
            &&& (m[x] as int) < t2.variables.len()
            &&& t2.variables[m[x] as int] == s2.variables[x]
        } by {
            if x < s.variables.len() {
                assert(s2.variables[x] == s.variables[x]);
                assert(t2.variables[m[x] as int] == t.variables[m[x] as int]);
            } else {
                lemma_renumbering_at(a, marks, k, x);
                lemma_renumbering_len(a.take(k), marks);
                crate::builder::lemma_defined_count_prefix(a, k);
                assert(kept_defined(a.take(k), marks) <= usize::MAX);
                assert(x == s.variables.len());
                assert(m[x] as int == t.variables.len());
            }
        }
        assert(corresponds(a, k + 1, s2, t2));
    }
}

/// Wherever the builder accepts a prefix of `a`, it accepts the prefix's kept instructions,
/// renumbered, in a state that corresponds.
pub proof fn lemma_prefix(ctx: ProgramContext, a: Seq<InstructionView>, k: int) -> (t: BuildState)
    requires
        no_stray_end(a),
        defined_count(a) <= usize::MAX,
        a.len() + 2 < usize::MAX,
        0 <= k <= a.len(),
        run(ctx, a.take(k)) is Ok,
    ensures
        run(ctx, kept_prefix(a, k)) == Ok::<BuildState, ValidationErrorView>(t),
        corresponds(a, k, run(ctx, a.take(k))->Ok_0, t),
    decreases k,
{
    if k == 0 {
        let marks = nop_marks(a);
        let m = renumbering(a, marks);
        assert(a.take(0) =~= Seq::<InstructionView>::empty());
        assert(kept_prefix(a, 0) =~= Seq::<InstructionView>::empty());
        let s = run(ctx, a.take(0))->Ok_0;
        assert(s == crate::builder::initial_state());
        assert(corresponds(a, 0, s, s));
        s
    } else {
        lemma_run_push(ctx, a, k - 1);
        if run(ctx, a.take(k - 1)) is Err {
            assert(run(ctx, a.take(k)) is Err);
        }
        let s = run(ctx, a.take(k - 1))->Ok_0;
        assert(s.append_error(ctx, a[k - 1]) is None);
        let t = lemma_prefix(ctx, a, k - 1);
        lemma_step(ctx, a, k - 1, s, t);
        run(ctx, kept_prefix(a, k))->Ok_0
    }
}

/// Dropping the nops of a valid program leaves a valid program: the builder accepts the rest,
/// renumbered, in the same scopes, and every block is closed as before.
pub proof fn lemma_removing_nops_keeps_validity(ctx: ProgramContext, a: Seq<InstructionView>)
    requires
        is_valid(ctx, a),
        no_stray_end(a),
        defined_count(a) <= usize::MAX,
        a.len() + 2 < usize::MAX,
    ensures
        is_valid(ctx, without_marked(a, nop_marks(a))),
{
    assert(a.take(a.len() as int) =~= a);
    assert(run(ctx, a) is Ok);
    let t = lemma_prefix(ctx, a, a.len() as int);
    let s = run(ctx, a)->Ok_0;
    assert(kept_prefix(a, a.len() as int) == without_marked(a, nop_marks(a)));
    assert(s.finalize_error() is None);
    let last = s.scopes.len() - 1;
    assert(s.scopes[last].begin is None);
    assert(t.scopes[last].begin is None);
    assert(t.finalize_error() is None);
}


/// The states the builder reaches with instruction `i` as it is and with `i` nopped, once past
/// `i`: the same scopes and instructions but at `i`, where neither opens a block, and the same
/// variables but those `i` defines, numbered from `lo` below `hi`.
pub open spec fn nop_alike(s: BuildState, t: BuildState, i: int, lo: int, hi: int) -> bool {
    &&& s.scopes == t.scopes
    &&& s.counter == t.counter
    &&& s.instructions.len() == t.instructions.len()
    &&& s.variables.len() == t.variables.len()
    &&& 0 <= i < s.instructions.len()
    &&& forall|k: int| 0 <= k < s.instructions.len() && k != i ==> #[trigger] s.instructions[k] == t.instructions[k]
    &&& !s.instructions[i].operation.is_block_begin()
    &&& !t.instructions[i].operation.is_block_begin()
    &&& forall|x: int| 0 <= x < s.variables.len() && !(lo <= x < hi) ==> #[trigger] s.variables[x] == t.variables[x]
}

/// An instruction that reads none of the nopped instruction's variables is taken in alike.
proof fn lemma_nop_alike_step(ctx: ProgramContext, s: BuildState, t: BuildState, i: int, lo: int, hi: int, y: InstructionView)
    requires
        nop_alike(s, t, i, lo, hi),
        crate::builder::begins_recorded(s),
        y.operation.is_block_end() ==> s.scopes.len() > 1,
        forall|m: int| 0 <= m < y.inputs.len() ==> !(lo <= #[trigger] y.inputs[m] < hi),
    ensures
        (s.append_error(ctx, y) is None) == (t.append_error(ctx, y) is None),
        s.append_error(ctx, y) is None ==> nop_alike(s.accept(y), t.accept(y), i, lo, hi),
{
    assert forall|m: int| 0 <= m < y.inputs.len() implies
        defined_in(s.variables, s.scopes, #[trigger] y.inputs[m]) == defined_in(t.variables, t.scopes, y.inputs[m]) by {
        let x = y.inputs[m] as int;
        if x < s.variables.len() {
            assert(s.variables[x] == t.variables[x]);
        }
    }
    if first_out_of_scope(s.variables, s.scopes, y.inputs) is None {
        assert(first_out_of_scope(t.variables, t.scopes, y.inputs) is None);
        assert(types_of(s.variables, y.inputs) =~= types_of(t.variables, y.inputs)) by {
            assert forall|m: int| 0 <= m < y.inputs.len() implies #[trigger] types_of(s.variables, y.inputs)[m] == types_of(t.variables, y.inputs)[m] by {
                assert(defined_in(s.variables, s.scopes, y.inputs[m]));
                assert(s.variables[y.inputs[m] as int] == t.variables[y.inputs[m] as int]);
            }
        }
    } else {
        if first_out_of_scope(t.variables, t.scopes, y.inputs) is None {
            let k = choose|k: int| 0 <= k < y.inputs.len() && !defined_in(s.variables, s.scopes, y.inputs[k]);
            assert(defined_in(t.variables, t.scopes, y.inputs[k]));
        }
    }
    assert(s.input_error(ctx, y) is None <==> t.input_error(ctx, y) is None);
    if y.operation.is_block_end() {
        let last = s.scopes.len() - 1;
        assert(s.scopes[last] == s.scopes.last());
        let b = s.scopes.last().begin.unwrap() as int;
        assert(0 <= b < s.instructions.len());
        if b == i {
            assert(!y.operation.closes(s.instructions[i].operation));
            assert(!y.operation.closes(t.instructions[i].operation));
        } else {
            assert(s.instructions[b] == t.instructions[b]);
        }
        assert(s.mismatched_end(y) == t.mismatched_end(y));
    }
    if s.append_error(ctx, y) is None {
        let sa = s.accept(y);
        let ta = t.accept(y);
        assert(sa.scopes =~= ta.scopes);
        assert forall|k: int| 0 <= k < sa.instructions.len() && k != i implies #[trigger] sa.instructions[k] == ta.instructions[k] by {
            if k < s.instructions.len() {
                assert(sa.instructions[k] == s.instructions[k]);
                assert(ta.instructions[k] == t.instructions[k]);
            }
        }
        assert(sa.instructions[i] == s.instructions[i]);
        assert(ta.instructions[i] == t.instructions[i]);
        assert forall|x: int| 0 <= x < sa.variables.len() && !(lo <= x < hi) implies #[trigger] sa.variables[x] == ta.variables[x] by {
            if x < s.variables.len() {
                assert(sa.variables[x] == s.variables[x]);
                assert(ta.variables[x] == t.variables[x]);
            }
        }
    }
}

/// What a program's instructions from `i + 1` on read: none of the variables instruction `i`
/// defines.
pub open spec fn unread_after(a: Seq<InstructionView>, i: int) -> bool {
    let lo = defined_count(a.take(i));
    let hi = defined_count(a.take(i + 1));
    forall|j: int, m: int| i < j < a.len() && 0 <= m < a[j].inputs.len() ==> !(lo <= #[trigger] a[j].inputs[m] < hi)
}

proof fn lemma_nop_prefix(ctx: ProgramContext, a: Seq<InstructionView>, i: int, k: int)
    requires
        no_stray_end(a),
        run(ctx, a) is Ok,
        0 <= i < a.len(),
        !a[i].operation.is_block_begin(),
        !a[i].operation.is_block_end(),
        unread_after(a, i),
        0 <= k <= a.len(),
    ensures
        ({
            let b = a.update(i, a[i].nopped());
            &&& run(ctx, b.take(k)) is Ok
            &&& k <= i ==> run(ctx, b.take(k)) == run(ctx, a.take(k))
            &&& k > i ==> nop_alike(run(ctx, a.take(k))->Ok_0, run(ctx, b.take(k))->Ok_0, i,
                defined_count(a.take(i)) as int, defined_count(a.take(i + 1)) as int)
        }),
    decreases k,
{
    let b = a.update(i, a[i].nopped());
    if k <= i {
        assert(b.take(k) =~= a.take(k));
        if k < a.len() {
            lemma_run_prefix_ok(ctx, a, k);
        } else {
            assert(a.take(k) =~= a);
        }
    }
    if k > 0 {
        lemma_nop_prefix(ctx, a, i, k - 1);
        lemma_run_push(ctx, a, k - 1);
        lemma_run_push(ctx, b, k - 1);
        lemma_run_prefix_ok(ctx, a, k - 1);
        let ak = a.take(k - 1);
        lemma_no_stray_end_prefix(a, k - 1);
        lemma_run_shape(ctx, ak);
        crate::builder::lemma_run_begins(ctx, ak);
        let sa = run(ctx, ak)->Ok_0;
        let sb = run(ctx, b.take(k - 1))->Ok_0;
        let lo = defined_count(a.take(i)) as int;
        let hi = defined_count(a.take(i + 1)) as int;
        if k - 1 == i {
            assert(sb == sa);
            let x = a[i].nopped();
            assert(b[i] == x);
            assert(sa.append_error(ctx, x) is None);
            let s1 = sa.accept(a[i]);
            let t1 = sa.accept(x);
            lemma_prefix_step(a, Seq::<bool>::empty(), Seq::<usize>::empty(), i);
            assert(sa.variables.len() == lo);
            assert(s1.scopes =~= t1.scopes);
            assert(s1.variables.len() == t1.variables.len());
            assert forall|y: int| 0 <= y < s1.variables.len() && !(lo <= y < hi) implies #[trigger] s1.variables[y] == t1.variables[y] by {
                assert(s1.variables[y] == sa.variables[y]);
                assert(t1.variables[y] == sa.variables[y]);
            }
            assert forall|j: int| 0 <= j < s1.instructions.len() && j != i implies #[trigger] s1.instructions[j] == t1.instructions[j] by {
                assert(s1.instructions[j] == sa.instructions[j]);
                assert(t1.instructions[j] == sa.instructions[j]);
            }
            assert(s1.instructions[i] == a[i]);
            assert(t1.instructions[i] == x);
            assert(b.take(k) =~= b.take(k - 1).push(x));
        } else if k - 1 > i {
            let y = a[k - 1];
            assert(b[k - 1] == y);
            if y.operation.is_block_end() {
                assert(a.take(k - 1) == ak);
                assert(block_depth(a.take(k - 1)) >= 1);
            }
            assert forall|m: int| 0 <= m < y.inputs.len() implies !(lo <= #[trigger] y.inputs[m] < hi) by {
                assert(a[k - 1].inputs[m] == y.inputs[m]);
            }
            lemma_nop_alike_step(ctx, sa, sb, i, lo, hi, y);
        }
    }
}

/// Nopping an instruction that opens or closes no block and whose variables no later
/// instruction reads leaves a valid program valid: the nop defines as many variables, in a
/// scope nothing reads from, and nothing else changes. (A program whose replay meets a block end
/// with no block open has no verdict at all: the builder cannot go on there.)
pub proof fn lemma_nopping_unused_keeps_validity(ctx: ProgramContext, a: Seq<InstructionView>, i: int)
    requires
        is_valid(ctx, a),
        !reaches_stray_end(ctx, a),
        0 <= i < a.len(),
        !a[i].operation.is_block_begin(),
        !a[i].operation.is_block_end(),
        unread_after(a, i),
    ensures
        is_valid(ctx, a.update(i, a[i].nopped())),
{
    let b = a.update(i, a[i].nopped());
    lemma_run_without_stray(ctx, a);
    lemma_nop_prefix(ctx, a, i, a.len() as int);
    assert(a.take(a.len() as int) =~= a);
    assert(b.take(b.len() as int) =~= b);
}

} // verus!
