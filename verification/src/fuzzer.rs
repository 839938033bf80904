//! The campaign: seed a corpus, mutate its entries, run what comes out, and reduce what fails.
use rand::rngs::SmallRng;
use vstd::prelude::*;

use crate::builder::{lemma_buildable_replayable, ProgramBuilder};
use crate::corpus::{bumped, Corpus, Entry};
use crate::generators::raw_frame::RawFrameGenerator;
use crate::generators::setup_connection::{
    conforming, AdversarialSetupGenerator, ConnectionChoice, SetupConnectionGenerator, SetupViolation,
};
use crate::generators::Generator;
use crate::minimizers::block::{block_family, BlockMinimizer};
use crate::minimizers::cutting::{cut_family, CuttingMinimizer};
use crate::minimizers::nopping::{nop_family, NoppingMinimizer};
use crate::minimizers::{has_nop, Minimizer};
use crate::mutators::concat::ConcatMutator;
use crate::mutators::generate::GeneratorMutator;
use crate::mutators::input::InputMutator;
use crate::mutators::operation::OperationMutator;
use crate::mutators::{
    is_within_limits, within_limits, Mutator, MutatorError, MutatorResult, SIZE_LIMIT,
};
use crate::observer::{NoObserver, Observer};
use crate::program::{Program, ProgramContext};
use crate::random::{random_below, random_range_u32, random_range_u8, ExSmallRng};
use crate::target::{Behaviour, Outcome, Target};

verus! {

#[derive(Debug, Default, Clone, Copy)]
pub struct Stats {
    pub iterations: u64,
    pub skipped: u64,
    /// Mutations the builder rejected, which cost nothing but a clone.
    pub rejected: u64,
    pub corpus_additions: u64,
    /// Of the corpus additions, those the observer alone asked for: their behaviour was old
    /// and what they reached inside the target was not.
    pub coverage_additions: u64,
    /// Entries taken back from an earlier campaign's saved corpus.
    pub loaded: u64,
    pub failures: u64,
    /// Runs the harness could not give the program, which end the campaign.
    pub infrastructure: u64,
}

/// The counts of a campaign that has not run anything yet.
pub open spec fn no_stats() -> Stats {
    Stats {
        iterations: 0,
        skipped: 0,
        rejected: 0,
        corpus_additions: 0,
        coverage_additions: 0,
        loaded: 0,
        failures: 0,
        infrastructure: 0,
    }
}

/// A crash the fuzzer found, reduced unless the target died with it.
pub struct Failure {
    pub program: Program,
    pub reason: String,
    /// Whether the target stopped serving. Such a program is reported as it was run: with the
    /// target down every candidate fails alike, so there is nothing for a minimizer to tell
    /// apart.
    pub killed_the_target: bool,
    /// The iteration it was found at; zero for a seed program, found before the campaign.
    pub iteration: u64,
    /// The corpus entry it was mutated from; none for a seed program, which was generated.
    pub parent: Option<Program>,
    /// Whether the reduced program failed the same way when run once more, which against a
    /// target that resets between runs means from a clean start.
    pub confirmed: bool,
    /// The record of the confirming run, or of the run that stopped the target, as the target
    /// encodes it.
    pub trace: Option<Vec<u8>>,
}

/// How many mutations are stacked on one program at most before it is run.
pub const MAX_MUTATIONS: u32 = 4;

/// Programs past this length are discarded. Concatenation doubles a program, so without a cap
/// the corpus grows until a single run dominates the budget.
pub const MAX_INSTRUCTIONS: usize = 256;

pub struct Fuzzer<T> {
    target: T,
    rng: SmallRng,
    observer: Box<dyn Observer>,
    corpus: Corpus,
    stats: Stats,
    /// Why the campaign cannot go on, once the harness has failed to run a program.
    stopped: Option<String>,
    /// Roles a generated fragment may connect to.
    num_roles: usize,
    /// How many mutations to stack on one program before running it.
    max_mutations: u32,
    /// Programs past this length are discarded.
    max_instructions: usize,
    /// The verdicts the target gave, each with the program it judged, in order.
    answers: Ghost<Seq<(Program, Outcome)>>,
    /// The runs made to reduce a failure and to confirm it, each with the program run and the
    /// target's verdict, in order.
    trials: Ghost<Seq<(Program, Outcome)>>,
}

/// The target failed the program for `reason`.
pub open spec fn fails_for(outcome: Outcome, reason: Seq<char>) -> bool {
    match outcome {
        Outcome::Fail(r) => r@ == reason,
        _ => false,
    }
}

/// One of `trials` ran `p` and the target failed it for `reason`.
pub open spec fn reproduced(trials: Seq<(Program, Outcome)>, p: crate::program::ProgramView, reason: Seq<char>) -> bool {
    exists|j: int| 0 <= j < trials.len() && (#[trigger] trials[j]).0@ == p && fails_for(trials[j].1, reason)
}

/// `after` is `before` with more trials after it.
pub open spec fn more_trials(before: Seq<(Program, Outcome)>, after: Seq<(Program, Outcome)>) -> bool {
    before.len() <= after.len() && after.take(before.len() as int) == before
}

proof fn lemma_more_trials_chain(a: Seq<(Program, Outcome)>, b: Seq<(Program, Outcome)>, c: Seq<(Program, Outcome)>)
    requires
        more_trials(a, b),
        more_trials(b, c),
    ensures
        more_trials(a, c),
{
    assert(c.take(a.len() as int) =~= c.take(b.len() as int).take(a.len() as int));
}

proof fn lemma_reproduced_stays(
    before: Seq<(Program, Outcome)>,
    after: Seq<(Program, Outcome)>,
    p: crate::program::ProgramView,
    reason: Seq<char>,
)
    requires
        more_trials(before, after),
        reproduced(before, p, reason),
    ensures
        reproduced(after, p, reason),
{
    let j = choose|j: int| 0 <= j < before.len() && (#[trigger] before[j]).0@ == p && fails_for(before[j].1, reason);
    assert(after.take(before.len() as int)[j] == after[j]);
    assert(after[j] == before[j]);
}

/// One of `trials` ran `q`, and the target did not fail it for `reason`.
pub open spec fn tried_and_not(trials: Seq<(Program, Outcome)>, q: crate::program::ProgramView, reason: Seq<char>) -> bool {
    exists|j: int| 0 <= j < trials.len() && (#[trigger] trials[j]).0@ == q && !fails_for(trials[j].1, reason)
}

/// No reduction the minimizers propose from `p` still fails for `reason`: every cut of its
/// end, every removal of a whole block and every nopping of one instruction that the builder
/// accepts was run, and the target failed none of them that way.
pub open spec fn minimal(trials: Seq<(Program, Outcome)>, p: crate::program::ProgramView, reason: Seq<char>) -> bool {
    forall|q: crate::program::ProgramView|
        #![trigger cut_family(p).contains(q)] #![trigger block_family(p).contains(q)] #![trigger nop_family(p).contains(q)]
        (cut_family(p).contains(q) || block_family(p).contains(q) || nop_family(p).contains(q))
            ==> tried_and_not(trials, q, reason)
}

/// A failure reduced as far as the minimizers go, against a target that failed every run among
/// `trials` for that same reason, is the empty program, if it is valid and fits the limits.
pub proof fn lemma_minimal_against_a_target_that_always_fails(
    trials: Seq<(Program, Outcome)>,
    p: crate::program::ProgramView,
    reason: Seq<char>,
)
    requires
        minimal(trials, p, reason),
        forall|j: int| 0 <= j < trials.len() ==> fails_for(#[trigger] trials[j].1, reason),
        within_limits(p),
        p.is_valid(),
        !has_nop(p.instructions),
    ensures
        p.instructions.len() == 0,
{
    assert forall|q: crate::program::ProgramView| !(#[trigger] block_family(p).contains(q)) by {
        if block_family(p).contains(q) {
            let j = choose|j: int| 0 <= j < trials.len() && (#[trigger] trials[j]).0@ == q && !fails_for(trials[j].1, reason);
            assert(fails_for(trials[j].1, reason));
        }
    }
    assert forall|q: crate::program::ProgramView| !(#[trigger] nop_family(p).contains(q)) by {
        if nop_family(p).contains(q) {
            let j = choose|j: int| 0 <= j < trials.len() && (#[trigger] trials[j]).0@ == q && !fails_for(trials[j].1, reason);
            assert(fails_for(trials[j].1, reason));
        }
    }
    crate::minimizers::bottom::lemma_irreducible_is_empty(p);
}

/// `after` is shorter than `before`, or as long and holds a nop: what keeping any candidate of
/// the minimizers leads to.
pub open spec fn reduced(before: crate::program::ProgramView, after: crate::program::ProgramView) -> bool {
    ||| after.instructions.len() < before.instructions.len()
    ||| (after.instructions.len() == before.instructions.len() && has_nop(after.instructions))
}

proof fn lemma_reduced_then(a: crate::program::ProgramView, b: crate::program::ProgramView, c: crate::program::ProgramView)
    requires
        b.instructions.len() <= a.instructions.len(),
        c.instructions.len() <= b.instructions.len(),
        reduced(a, b) || b == a,
        reduced(b, c) || c == b,
        reduced(a, b) || reduced(b, c),
    ensures
        reduced(a, c),
{
}

/// Dropping the nops of a program with one shortens it.
proof fn lemma_dropping_nops_shortens(instrs: Seq<crate::instruction::InstructionView>)
    requires
        has_nop(instrs),
    ensures
        crate::program::without_marked(instrs, crate::program::nop_marks(instrs)).len() < instrs.len(),
{
    let marks = crate::program::nop_marks(instrs);
    let i = choose|i: int| 0 <= i < instrs.len() && (#[trigger] instrs[i]).operation.is_nop();
    assert(!crate::program::is_kept(marks, i));
    crate::program::lemma_kept_len(instrs, marks, crate::program::renumbering(instrs, marks));
}

/// Dropping the nops of a program with none leaves it as it was.
proof fn lemma_dropping_no_nops(p: crate::program::ProgramView)
    requires
        within_limits(p),
        !has_nop(p.instructions),
    ensures
        crate::program::without_marked(p.instructions, crate::program::nop_marks(p.instructions)) == p.instructions,
{
    let marks = crate::program::nop_marks(p.instructions);
    assert forall|i: int| 0 <= i < p.instructions.len() implies crate::program::is_kept(marks, i) by {
        assert(!p.instructions[i].operation.is_nop());
    }
    crate::program::lemma_without_nothing(p.instructions, marks);
}

/// Every failure among `failures` that the target survived, and that fits the minimizers'
/// limits, is reduced as far as the minimizers go, by runs among `trials`, and holds no nop.
pub open spec fn all_minimized(trials: Seq<(Program, Outcome)>, failures: Seq<Failure>) -> bool {
    forall|k: int| 0 <= k < failures.len() && !(#[trigger] failures[k]).killed_the_target && within_limits(failures[k].program@)
        ==> minimal(trials, failures[k].program@, failures[k].reason@) && !has_nop(failures[k].program@.instructions)
}

proof fn lemma_minimal_stays(
    before: Seq<(Program, Outcome)>,
    after: Seq<(Program, Outcome)>,
    p: crate::program::ProgramView,
    reason: Seq<char>,
)
    requires
        more_trials(before, after),
        minimal(before, p, reason),
    ensures
        minimal(after, p, reason),
{
    assert forall|q: crate::program::ProgramView|
        #![trigger cut_family(p).contains(q)] #![trigger block_family(p).contains(q)] #![trigger nop_family(p).contains(q)]
        (cut_family(p).contains(q) || block_family(p).contains(q) || nop_family(p).contains(q))
        implies tried_and_not(after, q, reason) by {
        lemma_tried_stays(before, after, q, reason);
    }
}

/// Reductions stay shown as more trials are run.
pub proof fn lemma_all_minimized_stays(before: Seq<(Program, Outcome)>, after: Seq<(Program, Outcome)>, failures: Seq<Failure>)
    requires
        more_trials(before, after),
        all_minimized(before, failures),
    ensures
        all_minimized(after, failures),
{
    assert forall|k: int| 0 <= k < failures.len() && !(#[trigger] failures[k]).killed_the_target && within_limits(failures[k].program@)
        implies minimal(after, failures[k].program@, failures[k].reason@) && !has_nop(failures[k].program@.instructions) by {
        lemma_minimal_stays(before, after, failures[k].program@, failures[k].reason@);
    }
}

/// Two runs of failures, each reduced as far as the minimizers go, are so one after the other.
pub proof fn lemma_all_minimized_concat(trials: Seq<(Program, Outcome)>, a: Seq<Failure>, b: Seq<Failure>)
    requires
        all_minimized(trials, a),
        all_minimized(trials, b),
    ensures
        all_minimized(trials, a + b),
{
    let all = a + b;
    assert forall|k: int| 0 <= k < all.len() && !(#[trigger] all[k]).killed_the_target && within_limits(all[k].program@)
        implies minimal(trials, all[k].program@, all[k].reason@) && !has_nop(all[k].program@.instructions) by {
        if k < a.len() {
            assert(all[k] == a[k]);
        } else {
            assert(all[k] == b[k - a.len()]);
        }
    }
}

proof fn lemma_all_minimized_push(trials: Seq<(Program, Outcome)>, failures: Seq<Failure>, f: Failure)
    requires
        all_minimized(trials, failures),
        all_minimized(trials, seq![f]),
    ensures
        all_minimized(trials, failures.push(f)),
{
    let all = failures.push(f);
    assert forall|k: int| 0 <= k < all.len() && !(#[trigger] all[k]).killed_the_target && within_limits(all[k].program@)
        implies minimal(trials, all[k].program@, all[k].reason@) && !has_nop(all[k].program@.instructions) by {
        if k < failures.len() {
            assert(all[k] == failures[k]);
        } else {
            assert(all[k] == seq![f][0]);
        }
    }
}

proof fn lemma_tried_stays(
    before: Seq<(Program, Outcome)>,
    after: Seq<(Program, Outcome)>,
    q: crate::program::ProgramView,
    reason: Seq<char>,
)
    requires
        more_trials(before, after),
        tried_and_not(before, q, reason),
    ensures
        tried_and_not(after, q, reason),
{
    let j = choose|j: int| 0 <= j < before.len() && (#[trigger] before[j]).0@ == q && !fails_for(before[j].1, reason);
    assert(after.take(before.len() as int)[j] == after[j]);
}

/// The reason a campaign stopped, as text.
pub open spec fn stopped_view(stopped: Option<String>) -> Option<Seq<char>> {
    match stopped {
        Some(s) => Some(s@),
        None => None,
    }
}

/// `after` counts what `before` did, and `infrastructure` ends of the campaign besides.
pub open spec fn counted_besides(before: Stats, after: Stats, failures: u64, infrastructure: u64) -> bool {
    after == Stats { failures, infrastructure, ..before }
}

/// `n` counted up `k` times, stopping where a `u64` ends.
pub open spec fn added(n: u64, k: nat) -> u64 {
    if n + k <= u64::MAX { (n + k) as u64 } else { u64::MAX }
}

/// `taken` are some of `given`, each as it was given, in the order they were given.
pub open spec fn taken_in_order(taken: Seq<Program>, given: Seq<Program>) -> bool {
    exists|at: Seq<int>| #[trigger] taken_at(taken, given, at)
}

/// `taken[j]` is `given[at[j]]`, the positions `at` in increasing order.
pub open spec fn taken_at(taken: Seq<Program>, given: Seq<Program>, at: Seq<int>) -> bool {
    &&& at.len() == taken.len()
    &&& forall|j: int| 0 <= j < at.len() ==> 0 <= at[j] < given.len() && (#[trigger] taken[j])@ == given[at[j]]@
    &&& forall|j: int, l: int| 0 <= j < l < at.len() ==> at[j] < at[l]
}

/// The programs of the corpus entries, in order.
pub open spec fn corpus_programs(entries: Seq<Entry>) -> Seq<Program> {
    entries.map_values(|e: Entry| e.program)
}

/// The counts after a run that behaved, from those before it: one more corpus addition if
/// its program was kept, which the observer alone may have asked for, and nothing else.
pub open spec fn behaved_counts(before: Stats, after: Stats, kept: bool) -> bool {
    &&& after == Stats { corpus_additions: after.corpus_additions, coverage_additions: after.coverage_additions, ..before }
    &&& after.corpus_additions == before.corpus_additions + if kept { 1int } else { 0int }
    &&& (after.coverage_additions == before.coverage_additions || (kept && after.coverage_additions == before.coverage_additions + 1))
}

/// `stats` with one more iteration.
pub open spec fn next_iteration(stats: Stats) -> Stats {
    Stats { iterations: bumped(stats.iterations), ..stats }
}

/// `stats` with one more mutation the builder turned down.
pub open spec fn one_more_rejected(stats: Stats) -> Stats {
    Stats { rejected: bumped(stats.rejected), ..stats }
}

/// `stats` with one more run the target skipped.
pub open spec fn one_more_skipped(stats: Stats) -> Stats {
    Stats { skipped: bumped(stats.skipped), ..stats }
}

/// The reasons of the failures among `answers`, in order.
pub open spec fn fail_reasons(answers: Seq<(Program, Outcome)>) -> Seq<Seq<char>>
    decreases answers.len(),
{
    if answers.len() == 0 {
        seq![]
    } else {
        fail_reasons(answers.drop_last()) + match answers.last().1 {
            Outcome::Fail(r) => seq![r@],
            _ => seq![],
        }
    }
}

/// How many of `answers` say the program behaved.
pub open spec fn behaved_count(answers: Seq<(Program, Outcome)>) -> nat
    decreases answers.len(),
{
    if answers.len() == 0 {
        0
    } else {
        behaved_count(answers.drop_last()) + if answers.last().1 is Behaved { 1nat } else { 0nat }
    }
}

/// The programs of `answers` that behaved, in order.
pub open spec fn behaved_programs(answers: Seq<(Program, Outcome)>) -> Seq<crate::program::ProgramView>
    decreases answers.len(),
{
    if answers.len() == 0 {
        seq![]
    } else {
        behaved_programs(answers.drop_last()) + if answers.last().1 is Behaved { seq![answers.last().0@] } else { seq![] }
    }
}

/// The programs, as values.
pub open spec fn views(programs: Seq<Program>) -> Seq<crate::program::ProgramView> {
    programs.map_values(|p: Program| p@)
}

proof fn lemma_behaved_len(answers: Seq<(Program, Outcome)>)
    ensures
        behaved_programs(answers).len() == behaved_count(answers),
    decreases answers.len(),
{
    if answers.len() > 0 {
        lemma_behaved_len(answers.drop_last());
    }
}

/// The failures of two runs of answers, one after the other, are those of the first and then
/// those of the second.
pub proof fn lemma_fail_reasons_concat(a: Seq<(Program, Outcome)>, b: Seq<(Program, Outcome)>)
    ensures
        fail_reasons(a + b) == fail_reasons(a) + fail_reasons(b),
    decreases b.len(),
{
    if b.len() == 0 {
        assert(a + b =~= a);
        assert(fail_reasons(a) + fail_reasons(b) =~= fail_reasons(a));
    } else {
        lemma_fail_reasons_concat(a, b.drop_last());
        assert((a + b).drop_last() =~= a + b.drop_last());
        assert((a + b).last() == b.last());
        assert(fail_reasons(a + b) =~= fail_reasons(a) + fail_reasons(b));
    }
}

/// The reasons of `failures`, in order.
pub open spec fn reasons(failures: Seq<Failure>) -> Seq<Seq<char>> {
    failures.map_values(|f: Failure| f.reason@)
}

/// Whether a failure's parent is the program `parent` names.
pub open spec fn same_parent(parent: Option<Program>, expected: Option<crate::program::ProgramView>) -> bool {
    match (parent, expected) {
        (Some(p), Some(q)) => p@ == q,
        (None, None) => true,
        _ => false,
    }
}

/// What the verdict `outcome` on `program` does to a campaign, from its counts, corpus programs,
/// facts seen and stop reason before to those after, and what it hands back:
/// - a program that behaved is kept at the end of the corpus when it shows a fact not seen
///   before and the corpus has room, and may be kept for what the observer saw; it is counted
///   as a corpus addition if kept;
/// - a skipped one is counted as skipped;
/// - a failing one is counted and handed back, with the reason, its parent and the iteration,
///   reduced unless the target died with it;
/// - a harness failure is counted and stops the campaign with its reason.
pub open spec fn recorded(
    before: Stats,
    after: Stats,
    programs_before: Seq<Program>,
    programs_after: Seq<Program>,
    seen: Set<u64>,
    stopped_before: Option<Seq<char>>,
    stopped_after: Option<Seq<char>>,
    program: Program,
    outcome: Outcome,
    parent: Option<crate::program::ProgramView>,
    found: Option<Failure>,
) -> bool {
    match outcome {
        Outcome::Behaved(behaviour) => {
            &&& found is None
            &&& stopped_after == stopped_before
            &&& {
                ||| (programs_after == programs_before && after == before)
                ||| (programs_after == programs_before.push(program) && behaved_counts(before, after, true))
            }
            &&& programs_before.len() >= SIZE_LIMIT ==> programs_after == programs_before
            &&& programs_before.len() < SIZE_LIMIT && (exists|k: int| 0 <= k < behaviour.features@.len()
                && !seen.contains(#[trigger] behaviour.features@[k])) ==> programs_after.len() == programs_before.len() + 1
        },
        Outcome::Skip => {
            &&& found is None
            &&& after == one_more_skipped(before)
            &&& programs_after == programs_before
            &&& stopped_after == stopped_before
        },
        Outcome::Fail(reason) => {
            &&& found matches Some(f)
            &&& f.reason == reason
            &&& same_parent(f.parent, parent)
            &&& f.iteration == before.iterations
            &&& f.program@.context == program@.context
            &&& f.program@.instructions.len() <= program@.instructions.len()
            &&& (program@.is_valid() ==> f.program@.is_valid())
            &&& (f.killed_the_target ==> f.program@ == program@ && !f.confirmed)
            &&& counted_besides(before, after, bumped(before.failures), after.infrastructure)
            &&& programs_after == programs_before
            &&& (stopped_before is Some ==> stopped_after is Some)
        },
        Outcome::Infrastructure(reason) => {
            &&& found is None
            &&& counted_besides(before, after, before.failures, bumped(before.infrastructure))
            &&& programs_after == programs_before
            &&& stopped_after == Some(reason@)
        },
    }
}

/// Entry `i` was picked once more, and no other entry was.
pub open spec fn picked_once(before: Seq<Entry>, after: Seq<Entry>, i: int) -> bool {
    &&& 0 <= i < before.len() <= after.len()
    &&& after[i].picks == bumped(before[i].picks)
    &&& forall|j: int| 0 <= j < before.len() && j != i ==> (#[trigger] after[j]).picks == before[j].picks
}

/// One iteration on a corpus that is not empty, from its state before to its state after:
/// entry `i` was picked, and either its mutant was turned down and only that is counted, or
/// the target judged the mutant, a valid program of the entry's context within the instruction
/// limit, and its verdict was [`recorded`] as the mutant of entry `i`.
pub open spec fn iterated(
    before: Stats,
    after: Stats,
    corpus_before: Seq<Entry>,
    corpus_after: Seq<Entry>,
    seen: Set<u64>,
    stopped_before: Option<Seq<char>>,
    stopped_after: Option<Seq<char>>,
    answers_before: Seq<(Program, Outcome)>,
    answers_after: Seq<(Program, Outcome)>,
    found: Option<Failure>,
    i: int,
) -> bool {
    &&& picked_once(corpus_before, corpus_after, i)
    &&& {
        ||| {
            &&& found is None
            &&& answers_after == answers_before
            &&& after == one_more_rejected(next_iteration(before))
            &&& corpus_programs(corpus_after) == corpus_programs(corpus_before)
            &&& stopped_after == stopped_before
        }
        ||| {
            &&& answers_after.len() == answers_before.len() + 1
            &&& answers_after.drop_last() == answers_before
            &&& answers_after.last().0@.is_valid()
            &&& answers_after.last().0@.context == corpus_before[i].program@.context
            &&& answers_after.last().0@.instructions.len() <= MAX_INSTRUCTIONS
            &&& recorded(
                next_iteration(before),
                after,
                corpus_programs(corpus_before),
                corpus_programs(corpus_after),
                seen,
                stopped_before,
                stopped_after,
                answers_after.last().0,
                answers_after.last().1,
                Some(corpus_before[i].program@),
                found,
            )
        }
    }
}

/// The `j`th of the programs a seeding had judged: a conforming setup, on a fresh connection
/// to role `j`, of a program in `context` that the builder accepts.
pub open spec fn seeded_at(answers: Seq<(Program, Outcome)>, context: ProgramContext, j: int) -> bool {
    &&& answers[j].0@.context == context
    &&& answers[j].0@.is_valid()
    &&& exists|protocol: crate::variable::Protocol| #[trigger] conforming(
        j as usize,
        ConnectionChoice::Fresh,
        protocol,
        crate::generators::ops_since(answers[j].0@.instructions, 0),
    )
}

/// Every program a seeding had judged is the setup for its own role, in order of the roles.
pub open spec fn seeded(answers: Seq<(Program, Outcome)>, context: ProgramContext) -> bool {
    forall|j: int| 0 <= j < answers.len() ==> #[trigger] seeded_at(answers, context, j)
}

/// `stats` with `loaded` entries taken back.
pub open spec fn with_loaded(stats: Stats, loaded: int) -> Stats {
    Stats { loaded: loaded as u64, ..stats }
}

/// One more, unless the count is already as high as it goes.
fn bump(n: u64) -> (m: u64)
    ensures
        m == bumped(n),
{
    if n < u64::MAX {
        n + 1
    } else {
        n
    }
}

impl<T: Target> Fuzzer<T> {
    /// The counts so far.
    pub closed spec fn spec_stats(&self) -> Stats {
        self.stats
    }

    /// The corpus entries, in the order they were admitted.
    pub closed spec fn spec_corpus(&self) -> Seq<Entry> {
        self.corpus.spec_entries()
    }

    /// Why the campaign stopped, if it did.
    pub closed spec fn spec_stopped(&self) -> Option<Seq<char>> {
        stopped_view(self.stopped)
    }

    /// Roles a generated fragment may connect to.
    pub closed spec fn spec_num_roles(&self) -> nat {
        self.num_roles as nat
    }

    /// The verdicts the target gave, each with the program it judged, in order.
    pub closed spec fn spec_answers(&self) -> Seq<(Program, Outcome)> {
        self.answers@
    }

    /// The runs made to reduce failures and to confirm them, in order.
    pub closed spec fn spec_trials(&self) -> Seq<(Program, Outcome)> {
        self.trials@
    }

    /// Every fact of behaviour a corpus entry has shown.
    pub closed spec fn spec_seen(&self) -> Set<u64> {
        self.corpus.seen()
    }

    /// The campaign's counts agree with its corpus: every entry was either admitted by this
    /// campaign or taken back from an earlier one, of the admitted ones those the observer
    /// alone asked for are fewer, and the corpus stays within [`SIZE_LIMIT`] entries.
    pub closed spec fn wf(&self) -> bool {
        &&& self.corpus.spec_entries().len() <= SIZE_LIMIT
        &&& self.stats.corpus_additions + self.stats.loaded == self.corpus.spec_entries().len()
        &&& self.stats.coverage_additions <= self.stats.corpus_additions
        &&& self.max_mutations == MAX_MUTATIONS
        &&& self.max_instructions == MAX_INSTRUCTIONS
    }

    pub fn new(target: T, rng: SmallRng, num_roles: usize) -> (f: Self)
        ensures
            f.wf(),
            f.spec_stats() == no_stats(),
            f.spec_corpus().len() == 0,
            f.spec_stopped() is None,
            f.spec_num_roles() == num_roles,
            f.spec_answers() == Seq::<(Program, Outcome)>::empty(),
    {
        Self {
            target,
            rng,
            observer: Box::new(NoObserver),
            corpus: Corpus::new(),
            stats: Stats {
                iterations: 0,
                skipped: 0,
                rejected: 0,
                corpus_additions: 0,
                coverage_additions: 0,
                loaded: 0,
                failures: 0,
                infrastructure: 0,
            },
            stopped: None,
            num_roles,
            max_mutations: MAX_MUTATIONS,
            max_instructions: MAX_INSTRUCTIONS,
            answers: Ghost(Seq::empty()),
            trials: Ghost(Seq::empty()),
        }
    }

    /// See inside the target as well as watch what it answers.
    pub fn with_observer(self, observer: Box<dyn Observer>) -> (f: Self)
        requires
            self.wf(),
        ensures
            f.wf(),
            f.spec_stats() == self.spec_stats(),
            f.spec_corpus() == self.spec_corpus(),
            f.spec_stopped() == self.spec_stopped(),
            f.spec_num_roles() == self.spec_num_roles(),
    {
        let mut fuzzer = self;
        fuzzer.observer = observer;
        fuzzer
    }

    /// Take back the programs an earlier campaign saved, running each once so that its
    /// behaviour and coverage are this campaign's to compare against. Returns how many were
    /// kept; one that no longer behaves is a finding for the caller's own run to make.
    pub fn load_corpus(&mut self, programs: Vec<Program>) -> (kept: usize)
        requires
            old(self).wf(),
        ensures
            final(self).wf(),
            kept <= programs@.len(),
            final(self).spec_corpus().len() == old(self).spec_corpus().len() + kept,
            final(self).spec_corpus().subrange(0, old(self).spec_corpus().len() as int) == old(self).spec_corpus(),
            final(self).spec_stats() == with_loaded(old(self).spec_stats(), old(self).spec_stats().loaded + kept),
            final(self).spec_stopped() == old(self).spec_stopped(),
            final(self).spec_num_roles() == old(self).spec_num_roles(),
            taken_in_order(corpus_programs(final(self).spec_corpus()).subrange(old(self).spec_corpus().len() as int,
                final(self).spec_corpus().len() as int), programs@),
            final(self).spec_answers().len() == old(self).spec_answers().len() + programs@.len(),
            final(self).spec_answers().subrange(0, old(self).spec_answers().len() as int) == old(self).spec_answers(),
            forall|k: int| 0 <= k < programs@.len() ==> (#[trigger] final(self).spec_answers()[old(self).spec_answers().len() + k]).0@ == programs@[k]@,
            old(self).spec_corpus().len() + behaved_count(final(self).spec_answers().subrange(old(self).spec_answers().len() as int, final(self).spec_answers().len() as int)) <= SIZE_LIMIT
                ==> views(corpus_programs(final(self).spec_corpus()).subrange(old(self).spec_corpus().len() as int, final(self).spec_corpus().len() as int))
                == behaved_programs(final(self).spec_answers().subrange(old(self).spec_answers().len() as int, final(self).spec_answers().len() as int)),
    {
        let ghost n = self.answers@.len() as int;
        let ghost c = self.corpus.spec_entries().len() as int;
        assert(self.answers@.subrange(0, n) =~= self.answers@);
        assert(views(corpus_programs(self.corpus.spec_entries()).subrange(c, c)) =~= behaved_programs(self.answers@.subrange(n, n)));
        let mut kept: usize = 0;
        let mut i: usize = 0;
        let ghost mut at: Seq<int> = Seq::empty();
        while i < programs.len()
            invariant
                n == old(self).answers@.len(),
                c == old(self).corpus.spec_entries().len(),
                self.answers@.len() == n + i,
                self.answers@.subrange(0, n) == old(self).answers@,
                forall|k: int| 0 <= k < i ==> (#[trigger] self.answers@[n + k]).0@ == programs@[k]@,
                c + behaved_count(self.answers@.subrange(n, n + i)) <= SIZE_LIMIT
                    ==> views(corpus_programs(self.corpus.spec_entries()).subrange(c, c + kept)) == behaved_programs(self.answers@.subrange(n, n + i)),
                at.len() == kept,
                forall|j: int| 0 <= j < at.len() ==> 0 <= #[trigger] at[j] < i,
                forall|j: int| 0 <= j < at.len() ==>
                    (#[trigger] corpus_programs(self.corpus.spec_entries())[old(self).spec_corpus().len() + j])@ == programs@[at[j]]@,
                forall|j: int, l: int| 0 <= j < l < at.len() ==> at[j] < at[l],
                self.wf(),
                i <= programs@.len(),
                kept <= i,
                self.spec_corpus().len() == old(self).spec_corpus().len() + kept,
                self.spec_corpus().subrange(0, old(self).spec_corpus().len() as int) == old(self).spec_corpus(),
                self.stats.loaded == old(self).stats.loaded + kept,
                self.stats == with_loaded(old(self).stats, old(self).stats.loaded + kept),
                self.stopped == old(self).stopped,
                self.num_roles == old(self).num_roles,
            decreases programs@.len() - i,
        {
            let program = programs[i].clone();
            let ghost before_answers = self.answers@;
            let ghost before_entries = self.corpus.spec_entries();
            let outcome = self.ask(&program);
            proof {
                let prev = before_answers.subrange(n, n + i);
                let cur = self.answers@.subrange(n, n + i + 1);
                assert(cur.drop_last() =~= prev);
                assert(cur.last() == (program, outcome));
                assert(self.answers@.subrange(0, n) =~= before_answers.subrange(0, n));
                assert forall|k: int| 0 <= k < i + 1 implies (#[trigger] self.answers@[n + k]).0@ == programs@[k]@ by {
                    if k < i {
                        assert(self.answers@[n + k] == before_answers[n + k]);
                    }
                }
                lemma_behaved_len(prev);
                lemma_behaved_len(cur);
                if !(outcome is Behaved) {
                    assert(behaved_programs(cur) == behaved_programs(prev));
                }
            }
            match outcome {
                Outcome::Behaved(behaviour) => {
                    self.observer.observe();
                    if self.corpus.len() < SIZE_LIMIT {
                        let ghost before = self.corpus.spec_entries();
                        self.corpus.restore(program, behaviour);
                        proof {
                            assert(self.corpus.spec_entries().subrange(0, old(self).spec_corpus().len() as int) =~= before.subrange(0, old(self).spec_corpus().len() as int));
                            let now = self.corpus.spec_entries();
                            assert forall|j: int| 0 <= j < at.len() implies
                                (#[trigger] corpus_programs(now)[old(self).spec_corpus().len() + j]) == corpus_programs(before)[old(self).spec_corpus().len() + j] by {
                                assert(now[old(self).spec_corpus().len() + j] == before[old(self).spec_corpus().len() + j]);
                            }
                            let earlier = at;
                            assert(views(corpus_programs(now).subrange(c, c + kept + 1)) =~= views(corpus_programs(before).subrange(c, c + kept)).push(program@));
                            at = at.push(i as int);
                            assert(corpus_programs(now)[old(self).spec_corpus().len() + kept] == program);
                            assert(program@ == programs@[i as int]@);
                            assert forall|j: int| 0 <= j < at.len() implies 0 <= #[trigger] at[j] < i + 1 by {
                                if j < earlier.len() {
                                    assert(at[j] == earlier[j]);
                                }
                            }
                            assert forall|j: int| 0 <= j < at.len() implies
                                (#[trigger] corpus_programs(now)[old(self).spec_corpus().len() + j])@ == programs@[at[j]]@ by {
                                if j < earlier.len() {
                                    assert(at[j] == earlier[j]);
                                    assert(corpus_programs(before)[old(self).spec_corpus().len() + j]@ == programs@[earlier[j]]@);
                                }
                            }
                            assert forall|j: int, l: int| 0 <= j < l < at.len() implies at[j] < at[l] by {
                                assert(at[j] == earlier[j]);
                                if l < earlier.len() {
                                    assert(at[l] == earlier[l]);
                                }
                            }
                        }
                        kept = kept + 1;
                        self.stats.loaded = self.stats.loaded + 1;
                    }
                },
                _ => {},
            }
            i = i + 1;
        }
        proof {
            let taken = corpus_programs(self.corpus.spec_entries()).subrange(old(self).spec_corpus().len() as int, self.corpus.spec_entries().len() as int);
            assert forall|j: int| 0 <= j < at.len() implies 0 <= at[j] < programs@.len() && (#[trigger] taken[j])@ == programs@[at[j]]@ by {
                assert(taken[j] == corpus_programs(self.corpus.spec_entries())[old(self).spec_corpus().len() + j]);
                assert(0 <= at[j] < i);
            }
            assert(taken_at(taken, programs@, at));
        }
        kept
    }

    pub fn stats(&self) -> (s: Stats)
        ensures
            s == self.spec_stats(),
    {
        self.stats
    }

    /// How much of the target any run has reached, in the observer's unit.
    pub fn coverage(&self) -> usize {
        self.observer.seen()
    }

    pub fn observer_name(&self) -> &'static str {
        self.observer.name()
    }

    pub fn corpus(&self) -> (c: &Corpus)
        ensures
            c.spec_entries() == self.spec_corpus(),
    {
        &self.corpus
    }

    /// Why the campaign stopped, if the harness failed to run a program.
    pub fn stopped(&self) -> (s: Option<&str>)
        ensures
            match s {
                Some(r) => self.spec_stopped() == Some(r@),
                None => self.spec_stopped() is None,
            },
    {
        match &self.stopped {
            Some(reason) => Some(reason.as_str()),
            None => None,
        }
    }

    /// End the campaign: the harness could not run a program, so no later run would mean
    /// anything.
    fn stop(&mut self, reason: String)
        requires
            old(self).wf(),
        ensures
            final(self).wf(),
            final(self).spec_answers() == old(self).spec_answers(),
            final(self).spec_stopped() == Some(reason@),
            counted_besides(old(self).spec_stats(), final(self).spec_stats(), old(self).spec_stats().failures, bumped(old(self).spec_stats().infrastructure)),
            final(self).spec_corpus() == old(self).spec_corpus(),
            final(self).spec_num_roles() == old(self).spec_num_roles(),
            final(self).spec_trials() == old(self).spec_trials(),
    {
        self.stats.infrastructure = bump(self.stats.infrastructure);
        self.stopped = Some(reason);
    }

    /// Keep a program that behaved if it is new to the corpus by either measure: what it drew
    /// out of the target, or what it reached inside it; and credit the entry it came from.
    /// Once the corpus holds [`SIZE_LIMIT`] entries nothing more is kept.
    fn keep_if_new(&mut self, program: Program, behaviour: Behaviour, parent: Option<usize>)
        requires
            old(self).wf(),
        ensures
            final(self).wf(),
            final(self).spec_answers() == old(self).spec_answers(),
            final(self).spec_stopped() == old(self).spec_stopped(),
            final(self).spec_num_roles() == old(self).spec_num_roles(),
            final(self).spec_corpus().len() == old(self).spec_corpus().len()
                || final(self).spec_corpus().len() == old(self).spec_corpus().len() + 1,
            final(self).spec_corpus().len() == old(self).spec_corpus().len() + 1 ==> {
                &&& final(self).spec_corpus().last().program == program
                &&& final(self).spec_corpus().last().behaviour == behaviour
                &&& corpus_programs(final(self).spec_corpus()) == corpus_programs(old(self).spec_corpus()).push(program)
                &&& behaved_counts(old(self).spec_stats(), final(self).spec_stats(), true)
            },
            final(self).spec_corpus().len() == old(self).spec_corpus().len() ==> {
                &&& final(self).spec_corpus() == old(self).spec_corpus()
                &&& final(self).spec_stats() == old(self).spec_stats()
            },
            old(self).spec_corpus().len() >= SIZE_LIMIT ==> final(self).spec_corpus().len() == old(self).spec_corpus().len(),
            forall|j: int| 0 <= j < old(self).spec_corpus().len() ==> (#[trigger] final(self).spec_corpus()[j]).picks == old(self).spec_corpus()[j].picks,
            old(self).spec_corpus().len() < SIZE_LIMIT && (exists|k: int| 0 <= k < behaviour.features@.len()
                && !old(self).corpus.seen().contains(#[trigger] behaviour.features@[k]))
                ==> final(self).spec_corpus().len() == old(self).spec_corpus().len() + 1,
            final(self).spec_trials() == old(self).spec_trials(),
    {
        let reached_new = self.observer.observe();
        if self.corpus.len() >= SIZE_LIMIT {
            return;
        }
        let kept = if reached_new {
            self.corpus.keep(program, behaviour);
            self.stats.coverage_additions = self.stats.coverage_additions + 1;
            true
        } else {
            self.corpus.add(program, behaviour)
        };
        if kept {
            self.stats.corpus_additions = self.stats.corpus_additions + 1;
            let ghost added = self.corpus.spec_entries();
            match parent {
                Some(index) => self.corpus.credit(index),
                None => {},
            }
            assert(corpus_programs(self.corpus.spec_entries()) =~= corpus_programs(added));
            assert(corpus_programs(added) =~= corpus_programs(old(self).spec_corpus()).push(program));
        }
    }

    /// Have the target judge `program`, on a fresh record of what the observer sees.
    fn ask(&mut self, program: &Program) -> (outcome: Outcome)
        requires
            old(self).wf(),
        ensures
            final(self).wf(),
            final(self).spec_answers() == old(self).spec_answers().push((*program, outcome)),
            final(self).stopped == old(self).stopped,
            final(self).corpus == old(self).corpus,
            final(self).spec_stats() == old(self).spec_stats(),
            final(self).spec_corpus() == old(self).spec_corpus(),
            final(self).spec_seen() == old(self).spec_seen(),
            final(self).spec_stopped() == old(self).spec_stopped(),
            final(self).spec_trials() == old(self).spec_trials(),
            final(self).spec_num_roles() == old(self).spec_num_roles(),
    {
        self.observer.reset();
        let outcome = self.target.run(program);
        self.answers = Ghost(self.answers@.push((*program, outcome)));
        outcome
    }

    /// Take in the target's verdict `outcome` on `program`, mutated from corpus entry `parent`
    /// if it was one, and hand back the failure it is, if it is one.
    pub fn record(&mut self, program: Program, outcome: Outcome, parent: Option<usize>) -> (found: Option<Failure>)
        requires
            old(self).wf(),
            parent matches Some(i) ==> i < old(self).spec_corpus().len(),
        ensures
            final(self).wf(),
            final(self).spec_num_roles() == old(self).spec_num_roles(),
            final(self).spec_answers() == old(self).spec_answers(),
            recorded(
                old(self).spec_stats(),
                final(self).spec_stats(),
                corpus_programs(old(self).spec_corpus()),
                corpus_programs(final(self).spec_corpus()),
                old(self).spec_seen(),
                old(self).spec_stopped(),
                final(self).spec_stopped(),
                program,
                outcome,
                match parent {
                    Some(i) => Some(old(self).spec_corpus()[i as int].program@),
                    None => None,
                },
                found,
            ),
            forall|j: int| 0 <= j < old(self).spec_corpus().len() ==> (#[trigger] final(self).spec_corpus()[j]).picks == old(self).spec_corpus()[j].picks,
            found is None ==> final(self).spec_trials() == old(self).spec_trials(),
            more_trials(old(self).spec_trials(), final(self).spec_trials()),
            found matches Some(f) ==> (!f.killed_the_target ==> {
                &&& final(self).spec_trials().len() > old(self).spec_trials().len()
                &&& final(self).spec_trials().last().0@ == f.program@
                &&& (f.confirmed <==> fails_for(final(self).spec_trials().last().1, f.reason@))
            }),
            found matches Some(f) ==> (final(self).spec_stopped() is None ==> all_minimized(final(self).spec_trials(), seq![f])),
    {
        assert(self.trials@.take(self.trials@.len() as int) =~= self.trials@);
        match outcome {
            Outcome::Behaved(behaviour) => {
                self.keep_if_new(program, behaviour, parent);
                None
            },
            Outcome::Skip => {
                self.stats.skipped = bump(self.stats.skipped);
                None
            },
            Outcome::Fail(reason) => {
                let parent_program = match parent {
                    Some(i) => Some(self.corpus.program(i).clone()),
                    None => None,
                };
                Some(self.failure(program, reason, parent_program))
            },
            Outcome::Infrastructure(reason) => {
                self.stop(reason);
                None
            },
        }
    }

    /// Run up to `iterations` iterations, fewer if the target dies or the harness fails.
    pub fn run(&mut self, iterations: u64) -> (failures: Vec<Failure>)
        requires
            old(self).wf(),
            old(self).spec_num_roles() > 0 || old(self).spec_corpus().len() == 0,
        ensures
            final(self).wf(),
            final(self).spec_num_roles() == old(self).spec_num_roles(),
            final(self).spec_num_roles() > 0 || final(self).spec_corpus().len() == 0,
            failures@.len() <= iterations,
            final(self).spec_stats().iterations <= old(self).spec_stats().iterations + iterations,
            forall|k: int| 0 <= k < failures@.len() ==> (#[trigger] failures@[k]).parent is Some,
            forall|k: int| 0 <= k < failures@.len() ==> (#[trigger] failures@[k]).program@.is_valid(),
            old(self).spec_stopped() is Some ==> {
                &&& failures@.len() == 0
                &&& final(self).spec_stats() == old(self).spec_stats()
                &&& final(self).spec_corpus() == old(self).spec_corpus()
                &&& final(self).spec_stopped() == old(self).spec_stopped()
            },
            final(self).spec_stats().failures == added(old(self).spec_stats().failures, failures@.len()),
            old(self).spec_answers().len() <= final(self).spec_answers().len(),
            final(self).spec_answers().subrange(0, old(self).spec_answers().len() as int) == old(self).spec_answers(),
            reasons(failures@) == fail_reasons(final(self).spec_answers().subrange(old(self).spec_answers().len() as int, final(self).spec_answers().len() as int)),
            old(self).spec_corpus().len() > 0 && old(self).spec_stats().iterations + iterations <= u64::MAX
                && old(self).spec_stats().rejected + iterations <= u64::MAX ==> {
                &&& final(self).spec_stats().iterations >= old(self).spec_stats().iterations
                &&& final(self).spec_stats().rejected >= old(self).spec_stats().rejected
                &&& (final(self).spec_answers().len() - old(self).spec_answers().len()) + (final(self).spec_stats().rejected
                    - old(self).spec_stats().rejected) == final(self).spec_stats().iterations - old(self).spec_stats().iterations
            },
            forall|k: int| 0 <= k < failures@.len() - 1 ==> !(#[trigger] failures@[k]).killed_the_target,
            final(self).spec_stopped() is None && (failures@.len() == 0 || !failures@.last().killed_the_target)
                ==> final(self).spec_stats().iterations == added(old(self).spec_stats().iterations, iterations as nat),
            more_trials(old(self).spec_trials(), final(self).spec_trials()),
            final(self).spec_stopped() is None ==> all_minimized(final(self).spec_trials(), failures@),
    {
        let mut failures: Vec<Failure> = Vec::new();
        assert(self.trials@.take(self.trials@.len() as int) =~= self.trials@);
        assert(self.answers@.subrange(0, self.answers@.len() as int) =~= self.answers@);
        assert(reasons(failures@) =~= fail_reasons(self.answers@.subrange(self.answers@.len() as int, self.answers@.len() as int)));
        let mut k: u64 = 0;
        while k < iterations
            invariant_except_break
                k <= iterations,
                forall|j: int| 0 <= j < failures@.len() ==> !(#[trigger] failures@[j]).killed_the_target,
            invariant
                self.wf(),
                self.num_roles == old(self).num_roles,
                self.num_roles > 0 || self.corpus.spec_entries().len() == 0,
                failures@.len() <= k,
                k <= iterations,
                self.stats.iterations <= old(self).stats.iterations + k,
                forall|j: int| 0 <= j < failures@.len() ==> (#[trigger] failures@[j]).parent is Some,
                forall|j: int| 0 <= j < failures@.len() ==> (#[trigger] failures@[j]).program@.is_valid(),
                old(self).stopped is Some ==> {
                    &&& k == 0
                    &&& self.stats == old(self).stats
                    &&& self.corpus.spec_entries() == old(self).corpus.spec_entries()
                    &&& self.stopped == old(self).stopped
                },
                self.stats.failures == added(old(self).stats.failures, failures@.len()),
                old(self).answers@.len() <= self.answers@.len(),
                self.answers@.subrange(0, old(self).answers@.len() as int) == old(self).answers@,
                reasons(failures@) == fail_reasons(self.answers@.subrange(old(self).answers@.len() as int, self.answers@.len() as int)),
                old(self).corpus.spec_entries().len() <= self.corpus.spec_entries().len(),
                old(self).corpus.spec_entries().len() > 0 && old(self).stats.iterations + iterations <= u64::MAX
                    && old(self).stats.rejected + iterations <= u64::MAX ==> {
                    &&& self.stats.rejected >= old(self).stats.rejected
                    &&& (self.answers@.len() - old(self).answers@.len()) + (self.stats.rejected - old(self).stats.rejected)
                        == self.stats.iterations - old(self).stats.iterations
                    &&& self.stats.rejected - old(self).stats.rejected <= self.stats.iterations - old(self).stats.iterations
                },
                self.stats.iterations == added(old(self).stats.iterations, k as nat),
                more_trials(old(self).trials@, self.trials@),
                self.stopped is None ==> all_minimized(self.trials@, failures@),
            ensures
                more_trials(old(self).trials@, self.trials@),
                self.stopped is None ==> all_minimized(self.trials@, failures@),
                self.wf(),
                self.num_roles == old(self).num_roles,
                self.num_roles > 0 || self.corpus.spec_entries().len() == 0,
                failures@.len() <= iterations,
                self.stats.iterations <= old(self).stats.iterations + iterations,
                forall|j: int| 0 <= j < failures@.len() ==> (#[trigger] failures@[j]).parent is Some,
                forall|j: int| 0 <= j < failures@.len() ==> (#[trigger] failures@[j]).program@.is_valid(),
                old(self).stopped is Some ==> {
                    &&& failures@.len() == 0
                    &&& self.stats == old(self).stats
                    &&& self.corpus.spec_entries() == old(self).corpus.spec_entries()
                    &&& self.stopped == old(self).stopped
                },
                self.stats.failures == added(old(self).stats.failures, failures@.len()),
                old(self).answers@.len() <= self.answers@.len(),
                self.answers@.subrange(0, old(self).answers@.len() as int) == old(self).answers@,
                reasons(failures@) == fail_reasons(self.answers@.subrange(old(self).answers@.len() as int, self.answers@.len() as int)),
                old(self).corpus.spec_entries().len() <= self.corpus.spec_entries().len(),
                old(self).corpus.spec_entries().len() > 0 && old(self).stats.iterations + iterations <= u64::MAX
                    && old(self).stats.rejected + iterations <= u64::MAX ==> {
                    &&& self.stats.rejected >= old(self).stats.rejected
                    &&& (self.answers@.len() - old(self).answers@.len()) + (self.stats.rejected - old(self).stats.rejected)
                        == self.stats.iterations - old(self).stats.iterations
                    &&& self.stats.rejected - old(self).stats.rejected <= self.stats.iterations - old(self).stats.iterations
                },
                forall|j: int| 0 <= j < failures@.len() - 1 ==> !(#[trigger] failures@[j]).killed_the_target,
                stopped_view(self.stopped) is None && (failures@.len() == 0 || !failures@.last().killed_the_target)
                    ==> self.stats.iterations == added(old(self).stats.iterations, iterations as nat),
            decreases iterations - k,
        {
            if self.stopped.is_some() {
                break;
            }
            let ghost before_stats = self.stats;
            let ghost before_answers = self.answers@;
            let ghost before_failures = failures@;
            let ghost before_entries = self.corpus.spec_entries();
            let ghost before_corpus_len = before_entries.len();
            let ghost before_seen = self.corpus.seen();
            let ghost before_stopped = stopped_view(self.stopped);
            let ghost before_trials = self.trials@;
            let found = self.run_one();
            proof {
                lemma_more_trials_chain(old(self).trials@, before_trials, self.trials@);
                if self.stopped is None {
                    lemma_all_minimized_stays(before_trials, self.trials@, failures@);
                }
                if before_corpus_len > 0 {
                    let i = choose|i: int| #[trigger] iterated(before_stats, self.stats, before_entries, self.corpus.spec_entries(),
                        before_seen, before_stopped, stopped_view(self.stopped), before_answers, self.answers@, found, i);
                    assert(self.corpus.spec_entries().len() >= before_corpus_len);
                }
                let n = old(self).answers@.len() as int;
                let new_before = before_answers.subrange(n, before_answers.len() as int);
                if self.answers@.len() == before_answers.len() + 1 {
                    let new_after = self.answers@.subrange(n, self.answers@.len() as int);
                    assert(self.answers@.drop_last() == before_answers);
                    assert(new_after.drop_last() =~= new_before);
                    assert(new_after.last() == self.answers@.last());
                    assert(self.answers@.subrange(0, n) =~= before_answers.subrange(0, n));
                } else {
                    assert(self.answers@ == before_answers);
                }
            }
            proof {
                if found is None {
                    assert(self.stats.failures == before_stats.failures);
                }
            }
            k = k + 1;
            match found {
                Some(failure) => {
                    let killed_the_target = failure.killed_the_target;
                    let ghost earlier = failures@;
                    failures.push(failure);
                    assert(failures@.drop_last() == earlier);
                    proof {
                        if self.stopped is None {
                            lemma_all_minimized_push(self.trials@, earlier, failures@.last());
                            assert(earlier.push(failures@.last()) =~= failures@);
                        }
                    }
                    assert(reasons(failures@) =~= reasons(earlier).push(failures@.last().reason@));
                    if killed_the_target {
                        break;
                    }
                },
                None => {},
            }
        }
        failures
    }

    /// Run one iteration. Returns a failure if the target violated a property.
    pub fn run_one(&mut self) -> (found: Option<Failure>)
        requires
            old(self).wf(),
            old(self).spec_num_roles() > 0 || old(self).spec_corpus().len() == 0,
        ensures
            final(self).wf(),
            final(self).spec_num_roles() == old(self).spec_num_roles(),
            final(self).spec_stats().iterations == bumped(old(self).spec_stats().iterations),
            old(self).spec_corpus().len() == 0 ==> {
                &&& found is None
                &&& final(self).spec_corpus() == old(self).spec_corpus()
                &&& final(self).spec_stopped() == old(self).spec_stopped()
                &&& final(self).spec_stats() == next_iteration(old(self).spec_stats())
            },
            old(self).spec_stopped() is Some ==> final(self).spec_stopped() is Some,
            old(self).spec_corpus().len() == 0 ==> final(self).spec_answers() == old(self).spec_answers(),
            old(self).spec_corpus().len() > 0 ==> exists|i: int| #[trigger] iterated(
                old(self).spec_stats(),
                final(self).spec_stats(),
                old(self).spec_corpus(),
                final(self).spec_corpus(),
                old(self).spec_seen(),
                old(self).spec_stopped(),
                final(self).spec_stopped(),
                old(self).spec_answers(),
                final(self).spec_answers(),
                found,
                i,
            ),
            found matches Some(f) ==> {
                &&& f.iteration == final(self).spec_stats().iterations
                &&& f.parent matches Some(p) && exists|i: int| 0 <= i < old(self).spec_corpus().len()
                    && p@ == (#[trigger] old(self).spec_corpus()[i]).program@
                &&& final(self).spec_stats().failures == bumped(old(self).spec_stats().failures)
                &&& f.program@.is_valid()
            },
            more_trials(old(self).spec_trials(), final(self).spec_trials()),
            found matches Some(f) ==> (final(self).spec_stopped() is None ==> all_minimized(final(self).spec_trials(), seq![f])),
    {
        assert(self.trials@.take(self.trials@.len() as int) =~= self.trials@);
        self.stats.iterations = bump(self.stats.iterations);
        let ghost counted = self.stats;
        assert(counted == next_iteration(old(self).stats));
        let picked = match self.corpus.pick(&mut self.rng) {
            Some(index) => index,
            None => {
                return None;
            },
        };
        let ghost programs = corpus_programs(old(self).spec_corpus());
        assert(corpus_programs(self.corpus.spec_entries()) =~= programs);
        let parent = self.corpus.program(picked).clone();
        assert(parent@ == old(self).spec_corpus()[picked as int].program@);
        let mutated = match self.mutate(parent.clone()) {
            Some(program) => program,
            None => {
                self.stats.rejected = bump(self.stats.rejected);
                assert(self.stats == one_more_rejected(counted));
                assert(iterated(old(self).spec_stats(), self.spec_stats(), old(self).spec_corpus(), self.spec_corpus(), old(self).spec_seen(),
                    old(self).spec_stopped(), self.spec_stopped(), old(self).spec_answers(), self.spec_answers(), None, picked as int));
                return None;
            },
        };
        let ghost after_pick = self.corpus.spec_entries();
        let outcome = self.ask(&mutated);
        let ghost judged = mutated;
        let found = self.record(mutated, outcome, Some(picked));
        proof {
            assert(self.answers@.drop_last() =~= old(self).answers@);
            assert(self.answers@.last() == (judged, outcome));
            assert(corpus_programs(after_pick) =~= programs);
            assert forall|j: int| 0 <= j < old(self).spec_corpus().len() && j != picked implies
                (#[trigger] self.corpus.spec_entries()[j]).picks == old(self).spec_corpus()[j].picks by {
                assert(self.corpus.spec_entries()[j].picks == after_pick[j].picks);
            }
            assert(self.corpus.spec_entries()[picked as int].picks == after_pick[picked as int].picks);
            assert(iterated(old(self).spec_stats(), self.spec_stats(), old(self).spec_corpus(), self.spec_corpus(), old(self).spec_seen(),
                old(self).spec_stopped(), self.spec_stopped(), old(self).spec_answers(), self.spec_answers(), found, picked as int));
        }
        found
    }

    /// Account for a failing program and reduce it, unless the target died with it.
    fn failure(&mut self, program: Program, reason: String, parent: Option<Program>) -> (f: Failure)
        requires
            old(self).wf(),
        ensures
            final(self).wf(),
            final(self).spec_answers() == old(self).spec_answers(),
            final(self).spec_num_roles() == old(self).spec_num_roles(),
            final(self).spec_corpus() == old(self).spec_corpus(),
            old(self).spec_stopped() is Some ==> final(self).spec_stopped() is Some,
            counted_besides(old(self).spec_stats(), final(self).spec_stats(), bumped(old(self).spec_stats().failures), final(self).spec_stats().infrastructure),
            f.reason == reason,
            f.iteration == old(self).spec_stats().iterations,
            f.parent == parent,
            f.program@.context == program@.context,
            f.program@.instructions.len() <= program@.instructions.len(),
            f.killed_the_target ==> f.program@ == program@ && !f.confirmed,
            program@.is_valid() ==> f.program@.is_valid(),
            more_trials(old(self).spec_trials(), final(self).spec_trials()),
            f.killed_the_target ==> final(self).spec_trials() == old(self).spec_trials(),
            !f.killed_the_target ==> final(self).spec_trials().len() > old(self).spec_trials().len()
                && final(self).spec_trials().last().0@ == f.program@
                && (f.confirmed <==> fails_for(final(self).spec_trials().last().1, reason@)),
            !f.killed_the_target && final(self).spec_stopped() is None && within_limits(f.program@) ==> {
                &&& minimal(final(self).spec_trials(), f.program@, reason@)
                &&& !has_nop(f.program@.instructions)
            },
    {
        assert(self.trials@.take(self.trials@.len() as int) =~= self.trials@);
        self.stats.failures = bump(self.stats.failures);
        let iteration = self.stats.iterations;
        if !self.target.is_alive() {
            return Failure {
                trace: self.target.trace(),
                program,
                reason,
                killed_the_target: true,
                iteration,
                parent,
                confirmed: false,
            };
        }
        let program = self.minimize(program, &reason);
        // Once more, so that what is reported is known to reproduce, and so that the trace
        // saved with it is the trace of the program saved with it.
        let outcome = self.target.run(&program);
        let ghost t0 = self.trials@;
        self.trials = Ghost(self.trials@.push((program, outcome)));
        proof {
            assert(self.trials@.take(t0.len() as int) =~= t0);
            lemma_more_trials_chain(old(self).trials@, t0, self.trials@);
            if self.stopped is None && within_limits(program@) {
                lemma_minimal_stays(t0, self.trials@, program@, reason@);
            }
        }
        let confirmed = match outcome {
            Outcome::Fail(other) => other == reason,
            _ => false,
        };
        let trace = if confirmed {
            self.target.trace()
        } else {
            None
        };
        Failure { trace, program, reason, killed_the_target: false, iteration, parent, confirmed }
    }

    /// Reduce a failing program to the smallest one that still fails the same way.
    ///
    /// Each pass runs forward once, so an instruction can only go after whatever consumed it
    /// has already gone, and an empty block only after its contents have. Repeating the
    /// pipeline until it stops shrinking is what lets a chain of dead instructions unwind.
    fn minimize(&mut self, program: Program, reason: &String) -> (p: Program)
        requires
            old(self).wf(),
        ensures
            final(self).wf(),
            final(self).spec_answers() == old(self).spec_answers(),
            final(self).spec_num_roles() == old(self).spec_num_roles(),
            final(self).spec_corpus() == old(self).spec_corpus(),
            old(self).spec_stopped() is Some ==> final(self).spec_stopped() is Some,
            counted_besides(old(self).spec_stats(), final(self).spec_stats(), old(self).spec_stats().failures, final(self).spec_stats().infrastructure),
            p@.context == program@.context,
            p@.instructions.len() <= program@.instructions.len(),
            program@.is_valid() ==> p@.is_valid(),
            more_trials(old(self).spec_trials(), final(self).spec_trials()),
            final(self).spec_stopped() is None && within_limits(p@) ==> {
                &&& minimal(final(self).spec_trials(), p@, reason@)
                &&& !has_nop(p@.instructions)
            },
    {
        let ghost original = program@;
        let mut current = program;
        assert(self.trials@.take(self.trials@.len() as int) =~= self.trials@);
        loop
            invariant
                self.wf(),
                self.num_roles == old(self).num_roles,
                self.answers == old(self).answers,
                self.corpus.spec_entries() == old(self).corpus.spec_entries(),
                old(self).stopped is Some ==> self.stopped is Some,
                counted_besides(old(self).stats, self.stats, old(self).stats.failures, self.stats.infrastructure),
                original == program@,
                current@.context == original.context,
                current@.instructions.len() <= original.instructions.len(),
                original.is_valid() ==> current@.is_valid(),
                more_trials(old(self).trials@, self.trials@),
            decreases current@.instructions.len(),
        {
            if !is_within_limits(&current) {
                return current;
            }
            let before = current.instructions.len();
            let ghost t0 = self.trials@;
            let ghost p0 = current@;
            let ghost s0 = self.stopped;
            current = self.minimize_with::<CuttingMinimizer>(current, reason);
            let ghost t1 = self.trials@;
            let ghost p1 = current@;
            let ghost s1 = self.stopped;
            current = self.minimize_with::<BlockMinimizer>(current, reason);
            let ghost t2 = self.trials@;
            let ghost p2 = current@;
            let ghost s2 = self.stopped;
            current = self.minimize_with::<NoppingMinimizer>(current, reason);
            let ghost p3 = current@;
            proof {
                lemma_more_trials_chain(old(self).trials@, t0, t1);
                lemma_more_trials_chain(old(self).trials@, t1, t2);
                lemma_more_trials_chain(old(self).trials@, t2, self.trials@);
                crate::program::lemma_kept_len(current@.instructions, crate::program::nop_marks(current@.instructions), crate::program::renumbering(current@.instructions, crate::program::nop_marks(current@.instructions)));
                if reduced(p0, p1) || reduced(p1, p2) {
                    lemma_reduced_then(p0, p1, p2);
                }
                if reduced(p0, p2) || reduced(p2, p3) {
                    lemma_reduced_then(p0, p2, p3);
                }
                if reduced(p0, p3) && has_nop(p3.instructions) {
                    lemma_dropping_nops_shortens(p3.instructions);
                }
            }
            current.remove_nops();
            if current.instructions.len() >= before {
                proof {
                    assert(!reduced(p0, p3));
                    assert(p1 == p0 && p2 == p0 && p3 == p0);
                    if has_nop(p0.instructions) {
                        lemma_dropping_nops_shortens(p0.instructions);
                    }
                    lemma_dropping_no_nops(p0);
                    assert(current@ == p0);
                    if self.stopped is None {
                        assert(s2 is None && s1 is None);
                        assert forall|q: crate::program::ProgramView|
                            #![trigger cut_family(p0).contains(q)] #![trigger block_family(p0).contains(q)] #![trigger nop_family(p0).contains(q)]
                            (cut_family(p0).contains(q) || block_family(p0).contains(q) || nop_family(p0).contains(q))
                            implies tried_and_not(self.trials@, q, reason@) by {
                            if cut_family(p0).contains(q) {
                                assert(CuttingMinimizer::family(p0).contains(q));
                                assert(tried_and_not(t1, q, reason@));
                                lemma_more_trials_chain(t1, t2, self.trials@);
                                lemma_tried_stays(t1, self.trials@, q, reason@);
                            } else if block_family(p0).contains(q) {
                                assert(BlockMinimizer::family(p1).contains(q));
                                assert(tried_and_not(t2, q, reason@));
                                lemma_tried_stays(t2, self.trials@, q, reason@);
                            } else {
                                assert(NoppingMinimizer::family(p2).contains(q));
                            }
                        }
                    }
                }
                return current;
            }
        }
    }

    /// Hand the minimizer's candidates to the target, one at a time, and keep those that fail
    /// the same way.
    fn minimize_with<M: Minimizer>(&mut self, program: Program, reason: &String) -> (p: Program)
        requires
            old(self).wf(),
            within_limits(program@),
        ensures
            final(self).wf(),
            final(self).spec_answers() == old(self).spec_answers(),
            final(self).spec_num_roles() == old(self).spec_num_roles(),
            final(self).spec_corpus() == old(self).spec_corpus(),
            old(self).spec_stopped() is Some ==> final(self).spec_stopped() is Some,
            counted_besides(old(self).spec_stats(), final(self).spec_stats(), old(self).spec_stats().failures, final(self).spec_stats().infrastructure),
            within_limits(p@),
            p@.context == program@.context,
            p@.instructions.len() <= program@.instructions.len(),
            program@.is_valid() ==> p@.is_valid(),
            more_trials(old(self).spec_trials(), final(self).spec_trials()),
            p@ == program@ || reproduced(final(self).spec_trials(), p@, reason@),
            !reduced(program@, p@) ==> p@ == program@,
            !reduced(program@, p@) && final(self).spec_stopped() is None ==> forall|q: crate::program::ProgramView|
                #[trigger] M::family(program@).contains(q) ==> tried_and_not(final(self).spec_trials(), q, reason@),
    {
        let ghost original = program@;
        let mut minimizer = M::new(program);
        let ghost mut kept = false;
        assert(self.trials@.take(self.trials@.len() as int) =~= self.trials@);
        loop
            invariant
                original == program@,
                self.wf(),
                self.num_roles == old(self).num_roles,
                self.answers == old(self).answers,
                self.corpus.spec_entries() == old(self).corpus.spec_entries(),
                old(self).stopped is Some ==> self.stopped is Some,
                counted_besides(old(self).stats, self.stats, old(self).stats.failures, self.stats.infrastructure),
                minimizer.inv(),
                within_limits(minimizer.spec_current()),
                minimizer.spec_current().context == original.context,
                minimizer.spec_current().instructions.len() <= original.instructions.len(),
                original.is_valid() ==> minimizer.spec_current().is_valid(),
                more_trials(old(self).trials@, self.trials@),
                minimizer.spec_current() == original || reproduced(self.trials@, minimizer.spec_current(), reason@),
                !kept ==> minimizer.spec_current() == original,
                kept ==> reduced(original, minimizer.spec_current()),
                !kept && self.stopped is None ==> forall|q: crate::program::ProgramView| #[trigger] M::family(original).contains(q)
                    ==> minimizer.todo().contains(q) || tried_and_not(self.trials@, q, reason@),
            ensures
                self.stopped is None ==> forall|q: crate::program::ProgramView| !(#[trigger] minimizer.todo().contains(q)),
            decreases (if self.stopped is None { 1nat } else { 0nat }), minimizer.remaining(),
        {
            let candidate = match minimizer.next() {
                Some(candidate) => candidate,
                None => {
                    break;
                },
            };
            if self.stopped.is_some() {
                break;
            }
            let outcome = self.target.run(&candidate);
            let ghost t0 = self.trials@;
            self.trials = Ghost(self.trials@.push((candidate, outcome)));
            proof {
                assert(self.trials@.take(t0.len() as int) =~= t0);
                assert(self.trials@[t0.len() as int] == (candidate, outcome));
                lemma_more_trials_chain(old(self).trials@, t0, self.trials@);
                if minimizer.spec_current() != original {
                    lemma_reproduced_stays(t0, self.trials@, minimizer.spec_current(), reason@);
                }
                if !fails_for(outcome, reason@) {
                    assert(tried_and_not(self.trials@, candidate@, reason@));
                }
                if !kept && self.stopped is None {
                    assert forall|q: crate::program::ProgramView| #[trigger] M::family(original).contains(q)
                        implies minimizer.todo().contains(q) || q == candidate@ || tried_and_not(self.trials@, q, reason@) by {
                        if !minimizer.todo().contains(q) && q != candidate@ {
                            lemma_tried_stays(t0, self.trials@, q, reason@);
                        }
                    }
                }
            }
            let ghost todo_before = minimizer.todo();
            match outcome {
                // Only the same failure counts; a different one would be a different bug.
                Outcome::Fail(other) => {
                    if other == *reason {
                        proof {
                            assert(fails_for(outcome, reason@));
                            assert(reproduced(self.trials@, candidate@, reason@));
                        }
                        minimizer.success();
                        proof {
                            kept = true;
                        }
                    } else {
                        minimizer.failure();
                    }
                },
                // The harness, not the candidate, failed: what is left is reported as it is
                // rather than shrunk against a target that cannot be trusted to run it.
                Outcome::Infrastructure(why) => self.stop(why),
                _ => minimizer.failure(),
            }
        }
        minimizer.current().clone()
    }

    /// Stack a few random mutations on the program. Hands back what came out only if some
    /// mutation applied, the program is no longer than [`MAX_INSTRUCTIONS`], and the builder
    /// accepts it: a mutator may leave a program the builder would not, which is cheaper to
    /// discard here than to run.
    fn mutate(&mut self, program: Program) -> (r: Option<Program>)
        requires
            old(self).wf(),
            old(self).spec_num_roles() > 0,
        ensures
            final(self).wf(),
            final(self).spec_seen() == old(self).spec_seen(),
            final(self).spec_answers() == old(self).spec_answers(),
            final(self).spec_num_roles() == old(self).spec_num_roles(),
            final(self).spec_corpus() == old(self).spec_corpus(),
            final(self).spec_stats() == old(self).spec_stats(),
            final(self).spec_stopped() == old(self).spec_stopped(),
            final(self).spec_trials() == old(self).spec_trials(),
            r matches Some(p) ==> {
                &&& p@.is_valid()
                &&& p@.context == program@.context
                &&& p@.instructions.len() <= MAX_INSTRUCTIONS
            },
    {
        let ghost context = program@.context;
        let mut program = program;
        let rounds = random_range_u32(&mut self.rng, 1, self.max_mutations + 1);
        let mut applied = false;
        let mut round: u32 = 0;
        while round < rounds
            invariant
                self.wf(),
                self.num_roles == old(self).num_roles,
                self.num_roles > 0,
                self.answers == old(self).answers,
                self.corpus.seen() == old(self).corpus.seen(),
                self.corpus.spec_entries() == old(self).corpus.spec_entries(),
                self.stats == old(self).stats,
                self.stopped == old(self).stopped,
                self.trials == old(self).trials,
                program@.context == context,
            decreases rounds - round,
        {
            let role = random_below(&mut self.rng, self.num_roles);
            let choice = random_range_u8(&mut self.rng, 0, 7);
            let result: MutatorResult = if !is_within_limits(&program) {
                Err(MutatorError::CreatedInvalidProgram)
            } else if choice == 0 {
                let mut mutator = InputMutator;
                mutator.mutate(&mut program, &mut self.rng)
            } else if choice == 1 {
                let mut mutator = OperationMutator;
                mutator.mutate(&mut program, &mut self.rng)
            } else if choice == 2 {
                let mut mutator = ConcatMutator;
                mutator.mutate(&mut program, &mut self.rng)
            } else if choice == 3 {
                let mut mutator = GeneratorMutator::new(RawFrameGenerator { role });
                mutator.mutate(&mut program, &mut self.rng)
            } else if choice == 4 {
                // A valid setup on a fresh connection is what reaches deep states, and one on
                // a connection the program already has is a named violation in its own right.
                let mut mutator = GeneratorMutator::new(SetupConnectionGenerator::new(role));
                mutator.mutate(&mut program, &mut self.rng)
            } else if choice == 5 {
                let mut mutator = GeneratorMutator::new(
                    SetupConnectionGenerator { role, protocol: None, connection: ConnectionChoice::Reuse },
                );
                mutator.mutate(&mut program, &mut self.rng)
            } else {
                let violation = SetupViolation::any(&mut self.rng);
                let mut mutator = GeneratorMutator::new(
                    AdversarialSetupGenerator { role, protocol: None, violation },
                );
                mutator.mutate(&mut program, &mut self.rng)
            };
            applied = applied || result.is_ok();
            round = round + 1;
        }
        if !applied || program.instructions.len() > self.max_instructions {
            return None;
        }
        if !is_within_limits(&program) {
            return None;
        }
        proof {
            lemma_buildable_replayable(program.context, program@.instructions);
        }
        if program.is_statically_valid() {
            Some(program)
        } else {
            None
        }
    }

    /// Fill the corpus with generated programs, one per role.
    ///
    /// A seed that fails is a finding like any other, and the first one worth knowing about:
    /// a target that rejects a plain generated setup would otherwise leave the corpus empty
    /// and the campaign silent. It is minimized and returned, and if it stopped the target
    /// the seeding ends there.
    pub fn seed(&mut self, context: ProgramContext) -> (failures: Vec<Failure>)
        requires
            old(self).wf(),
        ensures
            final(self).wf(),
            final(self).spec_num_roles() == old(self).spec_num_roles(),
            final(self).spec_stats().iterations == old(self).spec_stats().iterations,
            final(self).spec_corpus().len() >= old(self).spec_corpus().len(),
            final(self).spec_corpus().len() <= old(self).spec_corpus().len() + old(self).spec_num_roles(),
            failures@.len() <= old(self).spec_num_roles(),
            old(self).spec_stopped() is Some ==> final(self).spec_stopped() is Some,
            forall|k: int| 0 <= k < failures@.len() ==> {
                &&& (#[trigger] failures@[k]).parent is None
                &&& failures@[k].iteration == old(self).spec_stats().iterations
                &&& failures@[k].program@.context == context
                &&& failures@[k].program@.is_valid()
            },
            final(self).spec_stats().failures == added(old(self).spec_stats().failures, failures@.len()),
            forall|k: int| 0 <= k < failures@.len() - 1 ==> !(#[trigger] failures@[k]).killed_the_target,
            old(self).spec_answers().len() <= final(self).spec_answers().len(),
            final(self).spec_answers().subrange(0, old(self).spec_answers().len() as int) == old(self).spec_answers(),
            seeded(
                final(self).spec_answers().subrange(old(self).spec_answers().len() as int, final(self).spec_answers().len() as int),
                context,
            ),
            reasons(failures@) == fail_reasons(
                final(self).spec_answers().subrange(old(self).spec_answers().len() as int, final(self).spec_answers().len() as int),
            ),
            final(self).spec_corpus().len() <= old(self).spec_corpus().len() + behaved_count(
                final(self).spec_answers().subrange(old(self).spec_answers().len() as int, final(self).spec_answers().len() as int),
            ),
            final(self).spec_stopped() is None && (failures@.len() == 0 || !failures@.last().killed_the_target)
                ==> final(self).spec_answers().len() - old(self).spec_answers().len() == (if old(self).spec_num_roles() <= context.num_roles {
                    old(self).spec_num_roles()
                } else {
                    context.num_roles as nat
                }),
            more_trials(old(self).spec_trials(), final(self).spec_trials()),
            final(self).spec_stopped() is None ==> all_minimized(final(self).spec_trials(), failures@),
    {
        let mut failures: Vec<Failure> = Vec::new();
        assert(self.trials@.take(self.trials@.len() as int) =~= self.trials@);
        let ghost n = self.answers@.len() as int;
        assert(self.answers@.subrange(0, n) =~= self.answers@);
        assert(self.answers@.subrange(n, n) =~= Seq::<(Program, Outcome)>::empty());
        let mut role: usize = 0;
        while role < self.num_roles
            invariant_except_break
                old(self).corpus.spec_entries().len() <= self.corpus.spec_entries().len() <= old(self).corpus.spec_entries().len() + role,
                failures@.len() <= role,
                forall|j: int| 0 <= j < failures@.len() ==> !(#[trigger] failures@[j]).killed_the_target,
                self.answers@.len() - n == (if role <= context.num_roles { role as int } else { context.num_roles as int }),
            invariant
                self.stats.failures == added(old(self).stats.failures, failures@.len()),
                self.wf(),
                self.num_roles == old(self).num_roles,
                role <= self.num_roles,
                self.stats.iterations == old(self).stats.iterations,
                old(self).stopped is Some ==> self.stopped is Some,
                forall|k: int| 0 <= k < failures@.len() ==> {
                    &&& (#[trigger] failures@[k]).parent is None
                    &&& failures@[k].iteration == old(self).stats.iterations
                    &&& failures@[k].program@.context == context
                    &&& failures@[k].program@.is_valid()
                },
                n == old(self).answers@.len(),
                n <= self.answers@.len(),
                self.answers@.subrange(0, n) == old(self).answers@,
                seeded(self.answers@.subrange(n, self.answers@.len() as int), context),
                reasons(failures@) == fail_reasons(self.answers@.subrange(n, self.answers@.len() as int)),
                self.corpus.spec_entries().len() <= old(self).corpus.spec_entries().len() + behaved_count(self.answers@.subrange(n, self.answers@.len() as int)),
                more_trials(old(self).trials@, self.trials@),
                self.stopped is None ==> all_minimized(self.trials@, failures@),
            ensures
                more_trials(old(self).trials@, self.trials@),
                self.stopped is None ==> all_minimized(self.trials@, failures@),
                self.wf(),
                self.num_roles == old(self).num_roles,
                self.stats.iterations == old(self).stats.iterations,
                old(self).corpus.spec_entries().len() <= self.corpus.spec_entries().len() <= old(self).corpus.spec_entries().len() + self.num_roles,
                failures@.len() <= self.num_roles,
                old(self).stopped is Some ==> self.stopped is Some,
                forall|k: int| 0 <= k < failures@.len() ==> {
                    &&& (#[trigger] failures@[k]).parent is None
                    &&& failures@[k].iteration == old(self).stats.iterations
                    &&& failures@[k].program@.context == context
                    &&& failures@[k].program@.is_valid()
                },
                self.stats.failures == added(old(self).stats.failures, failures@.len()),
                forall|j: int| 0 <= j < failures@.len() - 1 ==> !(#[trigger] failures@[j]).killed_the_target,
                n <= self.answers@.len(),
                self.answers@.subrange(0, n) == old(self).answers@,
                seeded(self.answers@.subrange(n, self.answers@.len() as int), context),
                reasons(failures@) == fail_reasons(self.answers@.subrange(n, self.answers@.len() as int)),
                self.corpus.spec_entries().len() <= old(self).corpus.spec_entries().len() + behaved_count(self.answers@.subrange(n, self.answers@.len() as int)),
                stopped_view(self.stopped) is None && (failures@.len() == 0 || !failures@.last().killed_the_target)
                    ==> self.answers@.len() - n == (if self.num_roles <= context.num_roles { self.num_roles as int } else { context.num_roles as int }),
            decreases self.num_roles - role,
        {
            let mut builder = ProgramBuilder::new(context);
            let generator = SetupConnectionGenerator::new(role);
            let generated = generator.generate(&mut builder, &mut self.rng);
            if generated.is_err() {
                role = role + 1;
                continue;
            }
            assert(builder.state().scopes == seq![crate::builder::global_scope()]);
            assert(role < context.num_roles);
            let ghost made = builder.state().instructions;
            assert(exists|protocol: crate::variable::Protocol| #[trigger] conforming(role, ConnectionChoice::Fresh, protocol, crate::generators::ops_since(made, 0)));
            let program = match builder.finalize() {
                Ok(program) => program,
                Err(_) => {
                    role = role + 1;
                    continue;
                },
            };
            let ghost before_answers = self.answers@;
            let ghost before_failures = failures@;
            let ghost before_corpus = self.corpus.spec_entries();
            let ghost judged = program;
            let ghost before_trials = self.trials@;
            let outcome = self.ask(&program);
            let found = self.record(program, outcome, None);
            proof {
                lemma_more_trials_chain(old(self).trials@, before_trials, self.trials@);
                if self.stopped is None {
                    lemma_all_minimized_stays(before_trials, self.trials@, failures@);
                }
                let new_before = before_answers.subrange(n, before_answers.len() as int);
                let new_after = self.answers@.subrange(n, self.answers@.len() as int);
                assert(self.answers@.drop_last() == before_answers);
                assert(new_after.drop_last() =~= new_before);
                assert(new_after.last() == (judged, outcome));
                assert(self.answers@.subrange(0, n) =~= before_answers.subrange(0, n));
                assert(seeded(new_after, context)) by {
                    assert forall|j: int| 0 <= j < new_after.len() implies #[trigger] seeded_at(new_after, context, j) by {
                        if j < new_before.len() {
                            assert(new_after[j] == new_before[j]);
                            assert(seeded_at(new_before, context, j));
                        } else {
                            assert(j == role);
                            assert(new_after[j] == (judged, outcome));
                            assert(judged@.instructions == made);
                            assert(judged@.is_valid());
                            let protocol = choose|protocol: crate::variable::Protocol| #[trigger] conforming(role, ConnectionChoice::Fresh, protocol, crate::generators::ops_since(made, 0));
                            assert((j as usize) == role);
                            assert(conforming(j as usize, ConnectionChoice::Fresh, protocol, crate::generators::ops_since(new_after[j].0@.instructions, 0)));
                        }
                    }
                }
                assert(corpus_programs(self.corpus.spec_entries()).len() == self.corpus.spec_entries().len());
                assert(corpus_programs(before_corpus).len() == before_corpus.len());
            }
            match found {
                Some(failure) => {
                    let killed_the_target = failure.killed_the_target;
                    let ghost earlier = failures@;
                    failures.push(failure);
                    assert(failures@.drop_last() == earlier);
                    proof {
                        if self.stopped is None {
                            lemma_all_minimized_push(self.trials@, earlier, failures@.last());
                            assert(earlier.push(failures@.last()) =~= failures@);
                        }
                    }
                    assert(reasons(failures@) =~= reasons(earlier).push(failures@.last().reason@));
                    if killed_the_target {
                        break;
                    }
                },
                None => {},
            }
            if self.stopped.is_some() {
                break;
            }
            role = role + 1;
        }
        failures
    }
}

} // verus!
