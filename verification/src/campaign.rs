//! A whole campaign as the command line runs it: seed, then fuzz unless seeding already ended
//! it, and what its failures and its end come to.
use vstd::prelude::*;

use crate::artifact::{Artifact, Campaign, Revision};
use crate::fuzzer::{
    added, all_minimized, fail_reasons, lemma_all_minimized_concat, lemma_all_minimized_stays, lemma_fail_reasons_concat,
    reasons, Failure, Fuzzer,
};
use crate::program::{Program, ProgramContext};
use crate::target::Target;

verus! {

/// What a campaign found, and how many of its failures the seeding found.
pub struct Findings {
    pub failures: Vec<Failure>,
    /// The first this many failures were found while seeding the corpus.
    pub seeded: usize,
}

/// Seed the corpus, then run up to `iterations` iterations, unless a seed stopped the target
/// or the harness failed while seeding.
pub fn campaign<T: Target>(fuzzer: &mut Fuzzer<T>, context: ProgramContext, iterations: u64) -> (found: Findings)
    requires
        old(fuzzer).wf(),
        old(fuzzer).spec_num_roles() > 0 || old(fuzzer).spec_corpus().len() == 0,
    ensures
        final(fuzzer).wf(),
        found.seeded <= found.failures@.len(),
        found.seeded <= old(fuzzer).spec_num_roles(),
        found.failures@.len() <= found.seeded + iterations,
        forall|k: int| 0 <= k < found.seeded ==> (#[trigger] found.failures@[k]).parent is None,
        forall|k: int| found.seeded <= k < found.failures@.len() ==> (#[trigger] found.failures@[k]).parent is Some,
        forall|k: int| 0 <= k < found.failures@.len() ==> (#[trigger] found.failures@[k]).program@.is_valid(),
        (exists|k: int| 0 <= k < found.seeded && (#[trigger] found.failures@[k]).killed_the_target)
            ==> found.failures@.len() == found.seeded,
        final(fuzzer).spec_stats().failures == added(old(fuzzer).spec_stats().failures, found.failures@.len()),
        old(fuzzer).spec_answers().len() <= final(fuzzer).spec_answers().len(),
        final(fuzzer).spec_answers().subrange(0, old(fuzzer).spec_answers().len() as int) == old(fuzzer).spec_answers(),
        reasons(found.failures@) == fail_reasons(
            final(fuzzer).spec_answers().subrange(old(fuzzer).spec_answers().len() as int, final(fuzzer).spec_answers().len() as int),
        ),
        final(fuzzer).spec_stopped() is None && (found.failures@.len() == 0 || !found.failures@.last().killed_the_target)
            ==> final(fuzzer).spec_stats().iterations == added(old(fuzzer).spec_stats().iterations, iterations as nat),
        final(fuzzer).spec_stopped() is None ==> all_minimized(final(fuzzer).spec_trials(), found.failures@),
{
    let ghost n = fuzzer.spec_answers().len() as int;
    let mut failures = fuzzer.seed(context);
    let ghost seeded_answers = fuzzer.spec_answers();
    let ghost seeded_trials = fuzzer.spec_trials();
    let seeded = failures.len();
    let mut killed = false;
    let mut k: usize = 0;
    while k < failures.len()
        invariant
            k <= failures@.len(),
            killed <==> exists|j: int| 0 <= j < k && (#[trigger] failures@[j]).killed_the_target,
        decreases failures@.len() - k,
    {
        if failures[k].killed_the_target {
            killed = true;
        }
        k = k + 1;
    }
    proof {
        if seeded > 0 && !killed {
            assert(!failures@.last().killed_the_target);
        }
    }
    if !killed && fuzzer.stopped().is_none() {
        let mut more = fuzzer.run(iterations);
        let ghost first = failures@;
        let ghost later = more@;
        failures.append(&mut more);
        assert(failures@ =~= first + later);
        proof {
            let m = seeded_answers.len() as int;
            let all = fuzzer.spec_answers();
            assert(all.subrange(n, all.len() as int) =~= seeded_answers.subrange(n, m) + all.subrange(m, all.len() as int)) by {
                assert(all.subrange(0, m) == seeded_answers);
            }
            lemma_fail_reasons_concat(seeded_answers.subrange(n, m), all.subrange(m, all.len() as int));
            assert(reasons(failures@) =~= reasons(first) + reasons(later));
            assert(all.subrange(0, n) =~= all.subrange(0, m).subrange(0, n));
        }
        proof {
            if later.len() > 0 {
                assert(failures@.last() == later.last());
            }
            if fuzzer.spec_stopped() is None {
                lemma_all_minimized_stays(seeded_trials, fuzzer.spec_trials(), first);
                lemma_all_minimized_concat(fuzzer.spec_trials(), first, later);
            }
        }
        assert forall|j: int| seeded <= j < failures@.len() implies (#[trigger] failures@[j]).parent is Some
            && failures@[j].program@.is_valid() by {
            assert(failures@[j] == later[j - seeded]);
        }
        assert forall|j: int| 0 <= j < seeded implies (#[trigger] failures@[j]).program@.is_valid() by {
            assert(failures@[j] == first[j]);
        }
    }
    Findings { failures, seeded }
}

/// How the command line ends: a finding outranks an outage, since it is the one that will not
/// reproduce itself, and a campaign with neither succeeded.
pub fn exit_code(found_failures: bool, stopped: bool) -> (code: u8)
    ensures
        code == if found_failures { 1u8 } else if stopped { 2u8 } else { 0u8 },
{
    if found_failures {
        1
    } else if stopped {
        2
    } else {
        0
    }
}

/// What a failure's report says of where it was found.
pub fn failure_origin(index: usize, seeded: usize) -> (origin: &'static str)
    ensures
        origin@ == if index < seeded { " (found while seeding)"@ } else { ""@ },
{
    if index < seeded {
        " (found while seeding)"
    } else {
        ""
    }
}

/// What a failure's report says of how far it was reduced and whether it reproduced.
pub fn failure_note(failure: &Failure) -> (note: &'static str)
    ensures
        note@ == if failure.killed_the_target {
            " (target stopped serving; reported unminimized)"@
        } else if failure.confirmed {
            " (confirmed)"@
        } else {
            " (did not reproduce when run again)"@
        },
{
    if failure.killed_the_target {
        " (target stopped serving; reported unminimized)"
    } else if failure.confirmed {
        " (confirmed)"
    } else {
        " (did not reproduce when run again)"
    }
}

/// The artifact a failure is saved as: the reduced program, the scenario, what the harness
/// was built against, the campaign's seed with where the failure was found, and the verdict.
pub fn artifact_of(failure: &Failure, scenario: &str, revisions: Vec<Revision>, seed: u64) -> (artifact: Artifact)
    ensures
        artifact.program@ == failure.program@,
        artifact.scenario@ == scenario@,
        artifact.revisions == revisions,
        artifact.campaign matches Some(c) && c.seed == seed && c.iteration == failure.iteration
            && match (c.parent, failure.parent) {
                (Some(a), Some(b)) => a@ == b@,
                (None, None) => true,
                _ => false,
            },
        artifact.verdict@ == failure.reason@,
        artifact.confirmed == failure.confirmed,
        match (artifact.trace, failure.trace) {
            (Some(a), Some(b)) => a@ == b@,
            (None, None) => true,
            _ => false,
        },
{
    let parent: Option<Program> = match &failure.parent {
        Some(program) => Some(program.clone()),
        None => None,
    };
    let trace: Option<Vec<u8>> = match &failure.trace {
        Some(bytes) => Some(bytes.clone()),
        None => None,
    };
    Artifact {
        program: failure.program.clone(),
        scenario: scenario.to_owned(),
        revisions,
        campaign: Some(Campaign { seed, iteration: failure.iteration, parent }),
        verdict: failure.reason.clone(),
        confirmed: failure.confirmed,
        trace,
    }
}

/// Where `c` first occurs in `s`.
pub open spec fn first_of(s: Seq<char>, c: char) -> Option<int>
    decreases s.len(),
{
    if s.len() == 0 {
        None
    } else if s[0] == c {
        Some(0)
    } else {
        match first_of(s.drop_first(), c) {
            Some(i) => Some(i + 1),
            None => None,
        }
    }
}

/// The pieces of `s` between the occurrences of `c`, as `str::split` cuts them.
pub open spec fn pieces(s: Seq<char>, c: char) -> Seq<Seq<char>>
    decreases s.len(),
{
    match first_of(s, c) {
        None => seq![s],
        Some(i) => if 0 <= i < s.len() {
            seq![s.take(i)] + pieces(s.skip(i + 1), c)
        } else {
            seq![s]
        },
    }
}

/// A revision from `name version source`, cut at the first two spaces as `splitn(3, ' ')`
/// cuts it, each missing field empty.
pub open spec fn revision_fields(entry: Seq<char>) -> (Seq<char>, Seq<char>, Seq<char>) {
    match first_of(entry, ' ') {
        None => (entry, seq![], seq![]),
        Some(i) => {
            let rest = entry.skip(i + 1);
            match first_of(rest, ' ') {
                None => (entry.take(i), rest, seq![]),
                Some(j) => (entry.take(i), rest.take(j), rest.skip(j + 1)),
            }
        },
    }
}

/// The revisions the `;` separated entries name, empty entries left out.
pub open spec fn revisions_of(entries: Seq<Seq<char>>) -> Seq<(Seq<char>, Seq<char>, Seq<char>)>
    decreases entries.len(),
{
    if entries.len() == 0 {
        seq![]
    } else {
        (if entries[0].len() > 0 {
            seq![revision_fields(entries[0])]
        } else {
            seq![]
        }) + revisions_of(entries.drop_first())
    }
}

/// What a revision says, as text.
pub open spec fn revision_view(r: Revision) -> (Seq<char>, Seq<char>, Seq<char>) {
    (r.name@, r.version@, r.source@)
}

/// Where `c` first occurs in `cs` from `from` on.
fn find_from(cs: &Vec<char>, from: usize, c: char) -> (r: Option<usize>)
    requires
        from <= cs@.len(),
    ensures
        match first_of(cs@.subrange(from as int, cs@.len() as int), c) {
            Some(i) => r == Some((from + i) as usize),
            None => r is None,
        },
{
    let mut k: usize = from;
    while k < cs.len()
        invariant
            from <= k <= cs@.len(),
            forall|j: int| from <= j < k ==> cs@[j] != c,
        decreases cs@.len() - k,
    {
        if cs[k] == c {
            proof {
                lemma_first_of_at(cs@.subrange(from as int, cs@.len() as int), c, k - from);
            }
            return Some(k);
        }
        k = k + 1;
    }
    proof {
        lemma_first_of_none(cs@.subrange(from as int, cs@.len() as int), c);
    }
    None
}

/// The first place `c` occurs is the first place it occurs.
proof fn lemma_first_of_at(s: Seq<char>, c: char, i: int)
    requires
        0 <= i < s.len(),
        s[i] == c,
        forall|j: int| 0 <= j < i ==> s[j] != c,
    ensures
        first_of(s, c) == Some(i),
    decreases i,
{
    if i > 0 {
        lemma_first_of_at(s.drop_first(), c, i - 1);
    }
}

/// Where `c` does not occur it has no first place.
proof fn lemma_first_of_none(s: Seq<char>, c: char)
    requires
        forall|j: int| 0 <= j < s.len() ==> s[j] != c,
    ensures
        first_of(s, c) is None,
    decreases s.len(),
{
    if s.len() > 0 {
        lemma_first_of_none(s.drop_first(), c);
    }
}

/// `first_of` finds a place inside the text.
proof fn lemma_first_of_in(s: Seq<char>, c: char)
    ensures
        first_of(s, c) matches Some(i) ==> 0 <= i < s.len() && s[i] == c,
    decreases s.len(),
{
    if s.len() > 0 {
        lemma_first_of_in(s.drop_first(), c);
    }
}

/// The text of `cs` from `from` up to `to`.
fn text_between(cs: &Vec<char>, from: usize, to: usize) -> (t: String)
    requires
        from <= to <= cs@.len(),
    ensures
        t@ == cs@.subrange(from as int, to as int),
{
    let mut t = String::new();
    let mut k: usize = from;
    while k < to
        invariant
            from <= k <= to,
            to <= cs@.len(),
            t@ == cs@.subrange(from as int, k as int),
        decreases to - k,
    {
        crate::text::push_char(&mut t, cs[k]);
        assert(t@ =~= cs@.subrange(from as int, k + 1));
        k = k + 1;
    }
    t
}

/// The revision an entry of `from..to` names.
fn revision_in(cs: &Vec<char>, from: usize, to: usize) -> (r: Revision)
    requires
        from <= to <= cs@.len(),
    ensures
        revision_view(r) == revision_fields(cs@.subrange(from as int, to as int)),
{
    let ghost e = cs@.subrange(from as int, to as int);
    let mut k: usize = from;
    while k < to && cs[k] != ' '
        invariant
            from <= k <= to,
            to <= cs@.len(),
            forall|j: int| from <= j < k ==> cs@[j] != ' ',
        decreases to - k,
    {
        k = k + 1;
    }
    if k == to {
        proof {
            lemma_first_of_none(e, ' ');
        }
        return Revision { name: text_between(cs, from, to), version: String::new(), source: String::new() };
    }
    proof {
        lemma_first_of_at(e, ' ', k - from);
    }
    let ghost rest = e.skip(k - from + 1);
    assert(rest =~= cs@.subrange(k + 1, to as int));
    let mut m: usize = k + 1;
    while m < to && cs[m] != ' '
        invariant
            k < m <= to,
            to <= cs@.len(),
            forall|j: int| k + 1 <= j < m ==> cs@[j] != ' ',
        decreases to - m,
    {
        m = m + 1;
    }
    if m == to {
        proof {
            lemma_first_of_none(rest, ' ');
        }
        return Revision { name: text_between(cs, from, k), version: text_between(cs, k + 1, to), source: String::new() };
    }
    proof {
        lemma_first_of_at(rest, ' ', m - k - 1);
        assert(rest.take(m - k - 1) =~= cs@.subrange(k + 1, m as int));
        assert(rest.skip(m - k) =~= cs@.subrange(m + 1, to as int));
        assert(e.take(k - from) =~= cs@.subrange(from as int, k as int));
    }
    Revision { name: text_between(cs, from, k), version: text_between(cs, k + 1, m), source: text_between(cs, m + 1, to) }
}

/// The revisions a build wrote down as `name version source` entries separated by `;`.
pub fn parse_revisions(text: &str) -> (revisions: Vec<Revision>)
    ensures
        revisions@.map_values(|r: Revision| revision_view(r)) == revisions_of(pieces(text@, ';')),
{
    let cs = crate::libraries::chars_of(text);
    let ghost all = cs@;
    let mut revisions: Vec<Revision> = Vec::new();
    let mut start: usize = 0;
    assert(all.subrange(0, all.len() as int) =~= all);
    assert(revisions@.map_values(|r: Revision| revision_view(r)) =~= Seq::<(Seq<char>, Seq<char>, Seq<char>)>::empty());
    loop
        invariant
            all == cs@,
            all == text@,
            start <= all.len(),
            revisions@.map_values(|r: Revision| revision_view(r)) + revisions_of(pieces(all.subrange(start as int, all.len() as int), ';'))
                == revisions_of(pieces(all, ';')),
        decreases all.len() - start,
    {
        let ghost rest = all.subrange(start as int, all.len() as int);
        let ghost before = revisions@.map_values(|r: Revision| revision_view(r));
        let end = match find_from(&cs, start, ';') {
            Some(end) => end,
            None => cs.len(),
        };
        proof {
            lemma_first_of_in(rest, ';');
        }
        if end > start {
            let revision = revision_in(&cs, start, end);
            revisions.push(revision);
        }
        if end == cs.len() {
            proof {
                assert(pieces(rest, ';') == seq![rest]);
                assert(rest =~= all.subrange(start as int, end as int));
                assert(revisions_of(seq![rest]) =~= (if rest.len() > 0 { seq![revision_fields(rest)] } else { seq![] })
                    + revisions_of(seq![rest].drop_first()));
                assert(revisions@.map_values(|r: Revision| revision_view(r)) =~= before + revisions_of(pieces(rest, ';')));
            }
            return revisions;
        }
        proof {
            let i = end - start;
            assert(rest.take(i) =~= all.subrange(start as int, end as int));
            assert(rest.skip(i + 1) =~= all.subrange(end + 1, all.len() as int));
            assert(pieces(rest, ';') == seq![rest.take(i)] + pieces(rest.skip(i + 1), ';'));
            let tail = pieces(rest.skip(i + 1), ';');
            assert((seq![rest.take(i)] + tail).drop_first() =~= tail);
            assert(revisions@.map_values(|r: Revision| revision_view(r)) + revisions_of(tail) =~= before + revisions_of(pieces(rest, ';')));
        }
        start = end + 1;
    }
}

} // verus!
