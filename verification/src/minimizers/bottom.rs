//! What is left when every reduction fails: a program the minimizers can propose nothing from
//! is empty.
use vstd::prelude::*;

use crate::builder::{
    block_depth, is_valid, lemma_block_depth_nonneg, lemma_buildable_replayable, lemma_no_stray_end_prefix,
    lemma_run_begins, lemma_run_shape, no_stray_end, run,
};
use crate::instruction::InstructionView;
use crate::minimizers::has_nop;
use crate::minimizers::nopping::{nop_family, nop_view, nopped_at};
use crate::nops::{lemma_nopping_unused_keeps_validity, unread_after};
use crate::program::{
    inputs_in_range, is_kept, kept_instructions, lemma_kept_all, lemma_renumbering_identity, lemma_renumbering_len, renumbering,
    without_marked,
};
use crate::builder::{defined_count, lemma_concat_counts, lemma_defined_count_prefix, lemma_run_prefix_ok};
use crate::minimizers::block::{block_family, block_view, depth_between, matches_begin, range_marks};
use crate::mutators::within_limits;
use crate::program::{ProgramContext, ProgramView};

verus! {

/// A valid program leaves no block open: its blocks begun and ended balance, and it does not
/// end by opening one.
proof fn lemma_valid_balances(ctx: ProgramContext, a: Seq<InstructionView>)
    requires
        is_valid(ctx, a),
        no_stray_end(a),
    ensures
        block_depth(a) == 0,
        a.len() > 0 ==> !a.last().operation.is_block_begin(),
{
    lemma_run_shape(ctx, a);
    lemma_run_begins(ctx, a);
    let s = run(ctx, a)->Ok_0;
    if s.scopes.len() > 1 {
        assert(s.scopes[s.scopes.len() - 1] == s.scopes.last());
    }
    if a.len() > 0 {
        let k = a.len() - 1;
        lemma_no_stray_end_prefix(a, k);
        lemma_block_depth_nonneg(a.take(k));
        assert(a.take(k) =~= a.drop_last());
    }
}

/// Nopping the last instruction of a valid program, when it neither opens nor closes a block,
/// is one of the candidates the nopping minimizer proposes.
proof fn lemma_last_noppable(p: ProgramView)
    requires
        within_limits(p),
        p.is_valid(),
        p.instructions.len() > 0,
        !p.instructions.last().operation.is_block_begin(),
        !p.instructions.last().operation.is_block_end(),
        !p.instructions.last().operation.is_nop(),
    ensures
        nop_family(p).contains(nop_view(p, p.instructions.len() - 1)),
{
    let a = p.instructions;
    let n = a.len() - 1;
    let q = nop_view(p, n);
    let b = q.instructions;
    assert(a[n] == a.last());
    lemma_buildable_replayable(p.context, a);
    assert(unread_after(a, n));
    lemma_nopping_unused_keeps_validity(p.context, a, n);
    assert(b.drop_last() =~= a.drop_last());
    assert(b.last() == a[n].nopped());
    assert(defined_count(b) == defined_count(a));
    assert forall|k: int| 0 <= k < b.len() && (#[trigger] b[k]).operation.is_block_end() implies block_depth(b.take(k)) >= 1 by {
        assert(k < n);
        assert(b.take(k) =~= a.take(k));
        assert(b[k] == a[k]);
    }
    assert forall|i: int, j: int| 0 <= i < b.len() && 0 <= j < b[i].inputs.len() implies (#[trigger] b[i].inputs[j]) < defined_count(b) by {
        assert(i < n);
        assert(b[i] == a[i]);
    }
    assert(within_limits(q));
    assert(nopped_at(a, b, n));
}

/// Where the prefixes of `a` up to `k` last return to the top level.
pub open spec fn last_level(a: Seq<InstructionView>, k: int) -> int
    decreases k,
{
    if k <= 0 {
        0
    } else if block_depth(a.take(k)) == 0 {
        k
    } else {
        last_level(a, k - 1)
    }
}

proof fn lemma_last_level(a: Seq<InstructionView>, k: int)
    requires
        0 <= k <= a.len(),
    ensures
        0 <= last_level(a, k) <= k,
        block_depth(a.take(last_level(a, k))) == 0,
        forall|j: int| last_level(a, k) < j <= k ==> block_depth(#[trigger] a.take(j)) != 0,
    decreases k,
{
    if k <= 0 {
        assert(a.take(0) =~= Seq::<InstructionView>::empty());
    } else if block_depth(a.take(k)) != 0 {
        lemma_last_level(a, k - 1);
    }
}

/// Blocks begun less blocks ended between `b` and `k` is the depth at `k` less that at `b`.
proof fn lemma_depth_between(a: Seq<InstructionView>, b: int, k: int)
    requires
        0 <= b <= k <= a.len(),
    ensures
        depth_between(a, b, k) == block_depth(a.take(k)) - block_depth(a.take(b)),
{
    assert(a.take(k) =~= a.take(b) + a.subrange(b, k));
    lemma_concat_counts(a.take(b), a.subrange(b, k));
}

/// Dropping everything from `b` on keeps the instructions before it, whatever the mapping.
proof fn lemma_kept_suffix(a: Seq<InstructionView>, b: int, remove: Seq<bool>, mapping: Seq<usize>)
    requires
        0 <= b <= a.len(),
        forall|i: int| b <= i < a.len() ==> !is_kept(remove, i),
    ensures
        kept_instructions(a, remove, mapping) == kept_instructions(a.take(b), remove, mapping),
    decreases a.len(),
{
    if a.len() > b {
        assert(!is_kept(remove, a.len() - 1));
        lemma_kept_suffix(a.drop_last(), b, remove, mapping);
        assert(a.drop_last().take(b) =~= a.take(b));
    } else {
        assert(a.take(b) =~= a);
    }
}

/// The variables of a prefix are numbered the same in the prefix as in the whole.
proof fn lemma_renumbering_prefix(a: Seq<InstructionView>, b: int, remove: Seq<bool>)
    requires
        0 <= b <= a.len(),
    ensures
        forall|x: int| 0 <= x < defined_count(a.take(b)) ==> #[trigger] renumbering(a, remove)[x] == renumbering(a.take(b), remove)[x],
    decreases a.len(),
{
    lemma_renumbering_len(a.take(b), remove);
    if a.len() > b {
        let d = a.drop_last();
        lemma_renumbering_prefix(d, b, remove);
        assert(d.take(b) =~= a.take(b));
        lemma_renumbering_len(d, remove);
        lemma_defined_count_prefix(d, b);
    } else {
        assert(a.take(b) =~= a);
    }
}

/// Every input of a valid program's instruction names a variable defined before it.
proof fn lemma_inputs_defined_before(ctx: ProgramContext, a: Seq<InstructionView>, k: int)
    requires
        is_valid(ctx, a),
        no_stray_end(a),
        0 <= k < a.len(),
    ensures
        forall|j: int| 0 <= j < a[k].inputs.len() ==> #[trigger] a[k].inputs[j] < defined_count(a.take(k)),
{
    lemma_run_prefix_ok(ctx, a, k);
    lemma_no_stray_end_prefix(a, k);
    lemma_run_shape(ctx, a.take(k));
    let s = run(ctx, a.take(k))->Ok_0;
    assert forall|j: int| 0 <= j < a[k].inputs.len() implies #[trigger] a[k].inputs[j] < defined_count(a.take(k)) by {
        if !crate::builder::defined_in(s.variables, s.scopes, a[k].inputs[j]) {
            assert(exists|m: int| 0 <= m < a[k].inputs.len() && !crate::builder::defined_in(s.variables, s.scopes, a[k].inputs[m]));
        }
    }
}

/// A valid program that ends by closing a block can lose that whole block, and what is left is
/// one of the candidates the block minimizer proposes.
proof fn lemma_last_block_removable(p: ProgramView)
    requires
        within_limits(p),
        p.is_valid(),
        p.instructions.len() > 0,
        p.instructions.last().operation.is_block_end(),
    ensures
        exists|q: ProgramView| #[trigger] block_family(p).contains(q),
{
    let a = p.instructions;
    let ctx = p.context;
    let n = a.len() as int;
    lemma_valid_balances(ctx, a);
    assert(a[n - 1] == a.last());
    assert(a.take(n) =~= a);
    assert(a.take(n - 1) =~= a.drop_last());
    assert(block_depth(a.take(n - 1)) >= 1);
    let b = last_level(a, n - 1);
    lemma_last_level(a, n - 1);
    assert(b < n - 1);
    assert forall|j: int| b < j <= n - 1 implies block_depth(#[trigger] a.take(j)) >= 1 by {
        lemma_no_stray_end_prefix(a, j);
        lemma_block_depth_nonneg(a.take(j));
    }
    assert(a.take(b + 1).drop_last() =~= a.take(b));
    assert(a.take(b + 1).last() == a[b]);
    assert(block_depth(a.take(b + 1)) >= 1);
    assert(a[b].operation.is_block_begin());
    assert forall|j: int| b <= j < n - 1 implies #[trigger] depth_between(a, b, j + 1) > 0 by {
        lemma_depth_between(a, b, j + 1);
    }
    lemma_depth_between(a, b, n);
    assert(matches_begin(a, b, n - 1));

    // What is left is the prefix before the block.
    let remove = range_marks(n as nat, b, n - 1);
    let pre = a.take(b);
    lemma_no_stray_end_prefix(a, b);
    lemma_defined_count_prefix(a, b);
    assert forall|i: int, j: int| 0 <= i < pre.len() && 0 <= j < pre[i].inputs.len() implies (#[trigger] pre[i].inputs[j]) < defined_count(pre) by {
        assert(pre[i] == a[i]);
        lemma_inputs_defined_before(ctx, a, i);
        assert(pre.take(i) =~= a.take(i));
        lemma_defined_count_prefix(pre, i);
    }
    assert forall|i: int| 0 <= i < pre.len() implies is_kept(remove, i) by {}
    lemma_kept_suffix(a, b, remove, renumbering(a, remove));
    lemma_renumbering_prefix(a, b, remove);
    lemma_renumbering_identity(pre, remove);
    lemma_kept_all(pre, remove, renumbering(a, remove), defined_count(pre));
    assert(without_marked(a, remove) == pre);
    let q = block_view(p, b, n - 1);
    assert(q.instructions == pre);

    // The prefix is valid: everything in it is accepted, and it leaves no block open.
    lemma_run_prefix_ok(ctx, a, b);
    lemma_run_shape(ctx, pre);
    assert(is_valid(ctx, pre));
    assert(within_limits(q));
    assert(block_family(p).contains(q));
}

/// A valid program within the minimizers' limits and without a nop, from which the minimizers
/// can remove no block and nop no instruction, is empty: any other has a last instruction, and
/// either that instruction can be nopped or the block it closes can go.
pub proof fn lemma_irreducible_is_empty(p: ProgramView)
    requires
        within_limits(p),
        p.is_valid(),
        !has_nop(p.instructions),
        forall|q: ProgramView| !(#[trigger] block_family(p).contains(q)),
        forall|q: ProgramView| !(#[trigger] nop_family(p).contains(q)),
    ensures
        p.instructions.len() == 0,
{
    let a = p.instructions;
    if a.len() > 0 {
        lemma_valid_balances(p.context, a);
        if a.last().operation.is_block_end() {
            lemma_last_block_removable(p);
        } else {
            assert(a[a.len() - 1] == a.last());
            lemma_last_noppable(p);
        }
    }
}

} // verus!
