//! The IR's mutators and generators as a coverage-guided campaign applies them.
//!
//! A mutation is kept only if the program it made is statically valid and within the
//! instruction limit; the IR's mutators may leave a program invalid and expect the caller to
//! discard it. Generated fragments go in at any point of the program that is outside every
//! block, rather than only at its end.
use rand::rngs::SmallRng;
use vstd::prelude::*;

use crate::builder::{defined_count, lemma_buildable_replayable, lemma_no_stray_end_prefix, lemma_run_shape, ProgramBuilder};
use crate::errors::ProgramValidationError;
use crate::generators::raw_frame::RawFrameGenerator;
use crate::generators::setup_connection::{AdversarialSetupGenerator, SetupConnectionGenerator, SetupViolation};
use crate::generators::{extends, room, Generator, FRAGMENT_ROOM};
use crate::instruction::{Instruction, InstructionView};
use crate::minimizers::Minimizer;
use crate::mutators::{is_within_limits, within_limits, Mutator, Splicer, SIZE_LIMIT};
use crate::program::{duplicate_instructions, instruction_views, Program};
use crate::random::{random_below, ExSmallRng};

verus! {

/// Instruction limit for mutated programs.
pub const MAX_INSTRUCTIONS: usize = 4096;

/// A program a mutation may leave behind: within the instruction limit, within what the
/// mutators can work on, and one the builder accepts.
pub open spec fn keepable(p: crate::program::ProgramView) -> bool {
    &&& p.instructions.len() <= MAX_INSTRUCTIONS
    &&& within_limits(p)
    &&& p.is_valid()
}

/// Whether a mutated program is kept. Every program the builder accepts that is this short is
/// also one the mutators can work on, so this is the limit and the builder's verdict.
pub fn acceptable(program: &Program) -> (b: bool)
    ensures
        b == keepable(program@),
{
    if program.instructions.len() > MAX_INSTRUCTIONS || !is_within_limits(program) {
        return false;
    }
    proof {
        lemma_buildable_replayable(program.context, program@.instructions);
    }
    program.is_statically_valid()
}

/// The program one of the IR's mutators makes of `program`, if it made one that is kept.
pub fn mutated<M: Mutator>(mutator: &mut M, program: &Program, rng: &mut SmallRng) -> (r: Option<Program>)
    requires
        within_limits(program@),
    ensures
        r matches Some(p) ==> keepable(p@) && p@.context == program@.context,
{
    let mut candidate = program.clone();
    if mutator.mutate(&mut candidate, rng).is_err() || !acceptable(&candidate) {
        return None;
    }
    Some(candidate)
}

/// The program a splicer makes of `program` and another corpus entry, if it made one that is
/// kept.
pub fn spliced<M: Splicer>(splicer: &mut M, program: &Program, other: &Program, rng: &mut SmallRng) -> (r: Option<Program>)
    requires
        within_limits(program@),
        within_limits(other@),
    ensures
        r matches Some(p) ==> keepable(p@) && p@.context == program@.context,
{
    let mut candidate = program.clone();
    if splicer.splice(&mut candidate, other, rng).is_err() || !acceptable(&candidate) {
        return None;
    }
    Some(candidate)
}

/// How many blocks are open after the instructions, a stray end closing none.
pub open spec fn open_blocks(a: Seq<InstructionView>) -> nat
    decreases a.len(),
{
    if a.len() == 0 {
        0
    } else {
        let d = open_blocks(a.drop_last());
        let op = a.last().operation;
        if op.is_block_begin() {
            d + 1
        } else if op.is_block_end() {
            if d > 0 {
                (d - 1) as nat
            } else {
                0
            }
        } else {
            d
        }
    }
}

/// A point outside every block, where a fragment that opens connections and sends on them can
/// go: the start, or just after an instruction that leaves no block open.
pub open spec fn global_point(a: Seq<InstructionView>, k: int) -> bool {
    k == 0 || (1 <= k <= a.len() && open_blocks(a.take(k)) == 0)
}

/// The points outside every block, in order.
pub fn global_points(program: &Program) -> (points: Vec<usize>)
    ensures
        forall|j: int| 0 <= j < points@.len() ==> global_point(program@.instructions, #[trigger] points@[j] as int),
        forall|k: int| global_point(program@.instructions, k) ==> points@.contains(k as usize),
        forall|i: int, j: int| 0 <= i < j < points@.len() ==> points@[i] < points@[j],
        points@.len() > 0 && points@[0] == 0,
{
    let ghost a = program@.instructions;
    let mut depth: usize = 0;
    let mut points: Vec<usize> = Vec::new();
    points.push(0);
    let mut index: usize = 0;
    while index < program.instructions.len()
        invariant
            a == program@.instructions,
            index <= a.len(),
            depth == open_blocks(a.take(index as int)),
            depth <= index,
            points@.len() > 0 && points@[0] == 0,
            forall|j: int| 0 <= j < points@.len() ==> global_point(a, #[trigger] points@[j] as int),
            forall|k: int| 0 <= k <= index && global_point(a, k) ==> points@.contains(k as usize),
            forall|i: int, j: int| 0 <= i < j < points@.len() ==> points@[i] < points@[j],
            forall|j: int| 0 <= j < points@.len() ==> #[trigger] points@[j] <= index,
        decreases a.len() - index,
    {
        proof {
            assert(a.take(index + 1).drop_last() =~= a.take(index as int));
        }
        let operation = &program.instructions[index].operation;
        if operation.is_block_begin() {
            depth = depth + 1;
        } else if operation.is_block_end() {
            if depth > 0 {
                depth = depth - 1;
            }
        }
        if depth == 0 {
            let ghost before = points@;
            points.push(index + 1);
            proof {
                assert(points@.last() == index + 1);
                assert forall|k: int| 0 <= k <= index + 1 && global_point(a, k) implies points@.contains(k as usize) by {
                    if k <= index {
                        assert(before.contains(k as usize));
                        let j = choose|j: int| 0 <= j < before.len() && before[j] == k as usize;
                        assert(points@[j] == k as usize);
                    } else {
                        assert(points@[points@.len() - 1] == k as usize);
                    }
                }
            }
        } else {
            proof {
                assert(!global_point(a, index + 1));
            }
        }
        index = index + 1;
    }
    points
}

/// The instruction with every input at or past `from` moved up by `by`.
pub open spec fn shifted(ins: InstructionView, from: nat, by: nat) -> InstructionView {
    InstructionView {
        inputs: ins.inputs.map_values(|x: usize| if x >= from { (x + by) as usize } else { x }),
        operation: ins.operation,
    }
}

/// `after` is `a` with a fragment in at point `k`: the first `k` instructions as they were,
/// then the fragment, then the rest of `a` with every variable numbered from `from` on moved up
/// by `by`, the variables the fragment made.
pub open spec fn inserted_at(a: Seq<InstructionView>, after: Seq<InstructionView>, k: int, from: nat, by: nat) -> bool {
    &&& 0 <= k <= a.len()
    &&& a.len() <= after.len()
    &&& after.take(k) == a.take(k)
    &&& forall|j: int| 0 <= j < a.len() - k ==> #[trigger] after[after.len() - (a.len() - k) + j] == shifted(a[k + j], from, by)
}

/// `after` is `a` with a fragment in at some point outside every block.
pub open spec fn is_insertion(a: Seq<InstructionView>, after: Seq<InstructionView>) -> bool {
    exists|k: int, from: nat, by: nat| global_point(a, k) && #[trigger] inserted_at(a, after, k, from, by)
}

/// `after` is `a` with a fragment in at point `k`, the rest renumbered past exactly the
/// variables the fragment defines: each variable numbered below the count defined before the
/// point keeps its number, each later one moves up by the count the fragment defines, and no
/// number passes what a `usize` holds.
pub open spec fn fragment_inserted(a: Seq<InstructionView>, after: Seq<InstructionView>, k: int) -> bool {
    let from = defined_count(a.take(k));
    let by = defined_count(after.subrange(k, k + after.len() - a.len()));
    &&& inserted_at(a, after, k, from, by)
    &&& forall|i: int, m: int| k <= i < a.len() && 0 <= m < a[i].inputs.len() && #[trigger] a[i].inputs[m] >= from
        ==> a[i].inputs[m] + by <= usize::MAX
}

/// What the rest of a program reads once a fragment has gone in ahead of it: a variable
/// defined before the insertion point is read as it was, every later one under its number
/// moved up by the count of variables the fragment defines; so no instruction of the rest reads
/// a variable the fragment made, and each still reads what it read before.
pub proof fn lemma_rest_reads_past_the_fragment(a: Seq<InstructionView>, after: Seq<InstructionView>, k: int)
    requires
        fragment_inserted(a, after, k),
    ensures
        forall|i: int, m: int| k <= i < a.len() && 0 <= m < a[i].inputs.len() ==> {
            let x = #[trigger] a[i].inputs[m];
            let y = after[after.len() - a.len() + i].inputs[m];
            let from = defined_count(a.take(k));
            let by = defined_count(after.subrange(k, k + after.len() - a.len()));
            &&& x < from ==> y == x
            &&& x >= from ==> y == x + by
            &&& !(from <= y < from + by)
        },
{
    let from = defined_count(a.take(k));
    let by = defined_count(after.subrange(k, k + after.len() - a.len()));
    assert forall|i: int, m: int| k <= i < a.len() && 0 <= m < a[i].inputs.len() implies {
        let x = #[trigger] a[i].inputs[m];
        let y = after[after.len() - a.len() + i].inputs[m];
        &&& x < from ==> y == x
        &&& x >= from ==> y == x + by
        &&& !(from <= y < from + by)
    } by {
        let j = i - k;
        assert(after[after.len() - (a.len() - k) + j] == shifted(a[k + j], from, by));
        assert(after.len() - (a.len() - k) + j == after.len() - a.len() + i);
    }
}

/// The instruction with its inputs at or past `from` moved up by `by`, or none if one would
/// pass what a `usize` holds.
fn shift_inputs(instruction: &Instruction, from: usize, by: usize) -> (r: Option<Instruction>)
    ensures
        r matches Some(i) ==> i@ == shifted(instruction@, from as nat, by as nat),
        r is None <==> exists|j: int| 0 <= j < instruction@.inputs.len() && instruction@.inputs[j] >= from
            && instruction@.inputs[j] + by > usize::MAX,
{
    let mut inputs: Vec<usize> = Vec::new();
    let mut k: usize = 0;
    while k < instruction.inputs.len()
        invariant
            k <= instruction@.inputs.len(),
            inputs@.len() == k,
            forall|j: int| 0 <= j < k ==> #[trigger] inputs@[j] == (if instruction@.inputs[j] >= from {
                (instruction@.inputs[j] + by) as usize
            } else {
                instruction@.inputs[j]
            }),
            forall|j: int| 0 <= j < k ==> !(#[trigger] instruction@.inputs[j] >= from && instruction@.inputs[j] + by > usize::MAX),
        decreases instruction@.inputs.len() - k,
    {
        let input = instruction.inputs[k];
        if input >= from {
            match input.checked_add(by) {
                Some(moved) => inputs.push(moved),
                None => {
                    return None;
                },
            }
        } else {
            inputs.push(input);
        }
        k = k + 1;
    }
    let result = Instruction { inputs, operation: instruction.operation.duplicate() };
    assert(result@.inputs =~= shifted(instruction@, from as nat, by as nat).inputs);
    Some(result)
}

/// Inserts a generated fragment at a point of the program drawn from those outside every block.
///
/// The rest of the program refers to variables numbered before the fragment went in; those at
/// or past the insertion point move up by what the fragment made. What comes out is kept only
/// if it is [`keepable`].
pub fn insert_fragment<G: Generator>(generator: &G, program: &Program, rng: &mut SmallRng) -> (r: Option<Program>)
    ensures
        r matches Some(p) ==> {
            &&& keepable(p@)
            &&& p@.context == program@.context
            &&& is_insertion(program@.instructions, p@.instructions)
            &&& exists|k: int| global_point(program@.instructions, k) && #[trigger] fragment_inserted(program@.instructions, p@.instructions, k)
        },
{
    let ghost a = program@.instructions;
    let points = global_points(program);
    let index = points[random_below(rng, points.len())];
    assert(global_point(a, index as int));
    assert(index <= a.len());
    if !is_within_limits(program) {
        return None;
    }
    proof {
        lemma_no_stray_end_prefix(a, index as int);
        crate::builder::lemma_defined_count_prefix(a, index as int);
        assert(instruction_views(program.instructions@).take(index as int) =~= a.take(index as int));
        lemma_run_shape(program.context, a.take(index as int));
        lemma_buildable_replayable(program.context, a.take(index as int));
    }
    let mut builder = match ProgramBuilder::from_first(program.context, program.instructions.as_slice(), index) {
        Ok(builder) => builder,
        Err(_) => {
            return None;
        },
    };
    let before = builder.variable_count();
    let ghost start = builder.state();
    assert(start.instructions == a.take(index as int));
    if generator.generate(&mut builder, rng).is_err() {
        return None;
    }
    let after = builder.variable_count();
    if after < before {
        return None;
    }
    let added = after - before;

    let mut instructions = duplicate_instructions(builder.instructions());
    let ghost fragment = instruction_views(instructions@);
    assert(extends(a.take(index as int), fragment));
    let mut rest: usize = index;
    while rest < program.instructions.len()
        invariant
            a == program@.instructions,
            index <= rest <= a.len(),
            fragment.len() >= index,
            forall|i: int| 0 <= i < index ==> #[trigger] fragment[i] == a[i],
            instruction_views(instructions@).len() == fragment.len() + (rest - index),
            instruction_views(instructions@).take(fragment.len() as int) == fragment,
            forall|j: int| 0 <= j < rest - index ==> #[trigger] instruction_views(instructions@)[fragment.len() + j] == shifted(a[index + j], before as nat, added as nat),
            forall|i: int, m: int| index <= i < rest && 0 <= m < a[i].inputs.len() && #[trigger] a[i].inputs[m] >= before
                ==> a[i].inputs[m] + added <= usize::MAX,
        decreases a.len() - rest,
    {
        let moved = match shift_inputs(&program.instructions[rest], before, added) {
            Some(moved) => moved,
            None => {
                return None;
            },
        };
        let ghost previous = instruction_views(instructions@);
        instructions.push(moved);
        proof {
            assert(instruction_views(instructions@) =~= previous.push(moved@));
            assert(instruction_views(instructions@).take(fragment.len() as int) =~= previous.take(fragment.len() as int));
        }
        rest = rest + 1;
    }
    let candidate = Program::unchecked_new(program.context, instructions);
    if !acceptable(&candidate) {
        return None;
    }
    proof {
        let b = candidate@.instructions;
        assert(b.take(index as int) =~= a.take(index as int)) by {
            assert forall|i: int| 0 <= i < index implies b[i] == a[i] by {
                assert(b.take(fragment.len() as int)[i] == fragment[i]);
            }
        }
        assert forall|j: int| 0 <= j < a.len() - index implies #[trigger] b[b.len() - (a.len() - index) + j] == shifted(a[index + j], before as nat, added as nat) by {
            assert(b.len() - (a.len() - index) + j == fragment.len() + j);
        }
        assert(inserted_at(a, b, index as int, before as nat, added as nat));
        assert(global_point(a, index as int));
        assert(is_insertion(program@.instructions, candidate@.instructions));
        let generated = fragment.subrange(index as int, fragment.len() as int);
        assert(fragment =~= a.take(index as int) + generated);
        crate::builder::lemma_concat_counts(a.take(index as int), generated);
        assert(b.subrange(index as int, index + b.len() - a.len()) =~= generated) by {
            assert forall|i: int| 0 <= i < generated.len() implies b[index + i] == generated[i] by {
                assert(b.take(fragment.len() as int)[index + i] == fragment[index + i]);
            }
        }
        assert(fragment_inserted(a, b, index as int));
    }
    Some(candidate)
}

/// The largest of the count and one, so that a deployment without roles still has one to draw.
fn at_least_one(n: usize) -> (m: usize)
    ensures
        m == if n > 1 { n } else { 1 },
{
    if n > 1 {
        n
    } else {
        1
    }
}

/// A conforming setup to a role drawn at random from the deployment.
pub struct AnyRoleSetup {
    pub num_roles: usize,
}

impl Generator for AnyRoleSetup {
    fn generate(&self, builder: &mut ProgramBuilder, rng: &mut SmallRng) -> (r: Result<(), ProgramValidationError>)
        ensures
            (if self.num_roles > 1 { self.num_roles } else { 1 }) <= old(builder).spec_context().num_roles ==> r is Ok,
            old(builder).spec_context().num_roles == 0 ==> r is Err,
    {
        let role = random_below(rng, at_least_one(self.num_roles));
        SetupConnectionGenerator::new(role).generate(builder, rng)
    }
}

/// A setup that violates one constraint, drawn at random, to a role drawn at random.
pub struct AnyRoleAdversarialSetup {
    pub num_roles: usize,
}

impl Generator for AnyRoleAdversarialSetup {
    fn generate(&self, builder: &mut ProgramBuilder, rng: &mut SmallRng) -> (r: Result<(), ProgramValidationError>)
        ensures
            (if self.num_roles > 1 { self.num_roles } else { 1 }) <= old(builder).spec_context().num_roles ==> r is Ok,
            old(builder).spec_context().num_roles == 0 ==> r is Err,
    {
        let role = random_below(rng, at_least_one(self.num_roles));
        let violation = SetupViolation::any(rng);
        let generator = AdversarialSetupGenerator { role, protocol: None, violation };
        generator.generate(builder, rng)
    }
}

/// A raw frame on some connection, opened to a role drawn at random if there is none.
pub struct AnyRoleRawFrame {
    pub num_roles: usize,
}

impl Generator for AnyRoleRawFrame {
    fn generate(&self, builder: &mut ProgramBuilder, rng: &mut SmallRng) -> (r: Result<(), ProgramValidationError>)
        ensures
            (if self.num_roles > 1 { self.num_roles } else { 1 }) <= old(builder).spec_context().num_roles ==> r is Ok,
    {
        let role = random_below(rng, at_least_one(self.num_roles));
        RawFrameGenerator { role }.generate(builder, rng)
    }
}

/// A corpus entry being reduced by one of the IR's minimizers, driven by a stage that runs each
/// candidate and reports what it came to.
///
/// A candidate is kept when it still covers everything the entry was kept for or, when the
/// entry is a crash, when it still fails. The stage gives up after more than its limit of
/// candidates in a row have been turned down; that count carries over from one entry to the
/// next and starts over at each kept candidate.
pub struct Reduction<M> {
    minimizer: M,
    reduced: bool,
    consecutive_failures: usize,
    max_consecutive_failures: usize,
    minimizing_crash: bool,
    novelties: usize,
}

/// Whether a candidate is kept: a crash that still fails, or a run that still sets every
/// novelty the entry was kept for.
pub open spec fn reduction_keeps(minimizing_crash: bool, exit_ok: bool, retained: nat, novelties: nat) -> bool {
    (minimizing_crash && !exit_ok) || (!minimizing_crash && retained == novelties)
}

impl<M: Minimizer> Reduction<M> {
    /// The smallest program kept so far.
    pub closed spec fn spec_current(&self) -> crate::program::ProgramView {
        self.minimizer.spec_current()
    }

    /// The candidate handed out and not yet reported on.
    pub closed spec fn outstanding(&self) -> Option<crate::program::ProgramView> {
        self.minimizer.proposed()
    }

    /// Whether some candidate has been kept.
    pub closed spec fn reduced(&self) -> bool {
        self.reduced
    }

    /// Candidates turned down in a row.
    pub closed spec fn failures(&self) -> nat {
        self.consecutive_failures as nat
    }

    /// Work the minimizer has left.
    pub closed spec fn remaining(&self) -> nat {
        self.minimizer.remaining()
    }

    pub closed spec fn inv(&self) -> bool {
        &&& self.minimizer.inv()
        &&& within_limits(self.minimizer.spec_current())
        &&& self.minimizer.proposed() matches Some(p) ==> within_limits(p) && p.is_valid()
        &&& self.reduced ==> self.minimizer.spec_current().is_valid()
    }

    /// Start reducing `program`, which was kept for `novelties` novelties, with the count of
    /// candidates turned down in a row so far.
    pub fn new(program: Program, consecutive_failures: usize, max_consecutive_failures: usize, minimizing_crash: bool, novelties: usize) -> (r: Self)
        requires
            within_limits(program@),
        ensures
            r.inv(),
            r.spec_current() == program@,
            r.outstanding() is None,
            !r.reduced(),
            r.failures() == consecutive_failures,
            r.max_failures() == max_consecutive_failures,
            r.for_crash() == minimizing_crash,
            r.novelty_count() == novelties,
    {
        Reduction {
            minimizer: M::new(program),
            reduced: false,
            consecutive_failures,
            max_consecutive_failures,
            minimizing_crash,
            novelties,
        }
    }

    /// The next candidate to run, or none once the minimizer has no more or too many in a row
    /// have been turned down.
    pub fn next_candidate(&mut self) -> (c: Option<Program>)
        requires
            old(self).inv(),
        ensures
            final(self).inv(),
            final(self).spec_current() == old(self).spec_current(),
            final(self).reduced() == old(self).reduced(),
            final(self).failures() == old(self).failures(),
            final(self).max_failures() == old(self).max_failures(),
            final(self).for_crash() == old(self).for_crash(),
            final(self).novelty_count() == old(self).novelty_count(),
            final(self).remaining() <= old(self).remaining(),
            c matches Some(p) ==> {
                &&& final(self).outstanding() == Some(p@)
                &&& p@.is_valid()
                &&& p@.context == old(self).spec_current().context
                &&& p@.instructions.len() <= old(self).spec_current().instructions.len()
            },
            old(self).failures() > old(self).max_failures() ==> c is None,
            old(self).failures() <= old(self).max_failures() ==> (c is Some <==> final(self).outstanding() is Some),
    {
        let candidate = self.minimizer.next();
        if self.consecutive_failures > self.max_consecutive_failures {
            return None;
        }
        candidate
    }

    /// Whether the entry being reduced is a crash.
    pub closed spec fn for_crash(&self) -> bool {
        self.minimizing_crash
    }

    /// How many novelties the entry was kept for.
    pub closed spec fn novelty_count(&self) -> nat {
        self.novelties as nat
    }

    /// The limit of candidates turned down in a row.
    pub closed spec fn max_failures(&self) -> nat {
        self.max_consecutive_failures as nat
    }

    /// What running the outstanding candidate came to: whether the target exited normally, and
    /// how many of the entry's novelties the run set again.
    pub fn report(&mut self, exit_ok: bool, retained: usize) -> (kept: bool)
        requires
            old(self).inv(),
            old(self).outstanding() is Some,
        ensures
            final(self).inv(),
            final(self).outstanding() is None,
            final(self).max_failures() == old(self).max_failures(),
            final(self).for_crash() == old(self).for_crash(),
            final(self).novelty_count() == old(self).novelty_count(),
            final(self).remaining() < old(self).remaining(),
            kept == reduction_keeps(old(self).for_crash(), exit_ok, retained as nat, old(self).novelty_count()),
            kept ==> {
                &&& Some(final(self).spec_current()) == old(self).outstanding()
                &&& final(self).reduced()
                &&& final(self).failures() == 0
            },
            !kept ==> {
                &&& final(self).spec_current() == old(self).spec_current()
                &&& final(self).reduced() == old(self).reduced()
                &&& final(self).failures() == (if old(self).failures() < usize::MAX { old(self).failures() + 1 } else { old(self).failures() })
            },
    {
        if (self.minimizing_crash && !exit_ok) || (!self.minimizing_crash && retained == self.novelties) {
            self.reduced = true;
            self.minimizer.success();
            self.consecutive_failures = 0;
            true
        } else {
            self.minimizer.failure();
            if self.consecutive_failures < usize::MAX {
                self.consecutive_failures = self.consecutive_failures + 1;
            }
            false
        }
    }

    /// The reduced program with its nops dropped, if a candidate was kept; and the count of
    /// candidates turned down in a row, for the next entry.
    pub fn finish(self) -> (r: (Option<Program>, usize))
        requires
            self.inv(),
        ensures
            r.1 == self.failures(),
            self.reduced() ==> (r.0 matches Some(p) && p@.context == self.spec_current().context
                && p@.instructions == crate::program::without_marked(self.spec_current().instructions, crate::program::nop_marks(self.spec_current().instructions))
                && p@.is_valid()),
            !self.reduced() ==> r.0 is None,
    {
        if self.reduced {
            let mut program = self.minimizer.current().clone();
            program.remove_nops();
            (Some(program), self.consecutive_failures)
        } else {
            (None, self.consecutive_failures)
        }
    }
}

/// The largest input handed to a virtual machine. Programs are small; one this size is a
/// runaway.
pub const MAX_INPUT_BYTES: usize = 1024 * 1024;

/// A program as a coverage-guided campaign's input.
pub struct IrInput {
    ir: Program,
}

impl IrInput {
    /// The program the input holds.
    pub closed spec fn spec_ir(&self) -> Program {
        self.ir
    }

    pub fn new(ir: Program) -> (input: Self)
        ensures
            input.spec_ir() == ir,
    {
        Self { ir }
    }

    pub fn ir(&self) -> (p: &Program)
        ensures
            *p == self.spec_ir(),
    {
        &self.ir
    }

    pub fn ir_mut(&mut self) -> (p: &mut Program)
        ensures
            *p == old(self).spec_ir(),
            final(self).spec_ir() == *final(p),
    {
        &mut self.ir
    }

    /// How long the input is, in instructions.
    pub fn len(&self) -> (n: usize)
        ensures
            n == self.spec_ir()@.instructions.len(),
    {
        self.ir.instructions.len()
    }
}

/// What is handed to the virtual machine for an input encoded as `encoded`: the encoding, or
/// nothing for a runaway past [`MAX_INPUT_BYTES`].
pub fn target_bytes(encoded: Vec<u8>) -> (bytes: Vec<u8>)
    ensures
        encoded@.len() <= MAX_INPUT_BYTES ==> bytes@ == encoded@,
        encoded@.len() > MAX_INPUT_BYTES ==> bytes@.len() == 0,
{
    if encoded.len() > MAX_INPUT_BYTES {
        Vec::new()
    } else {
        encoded
    }
}

} // verus!
