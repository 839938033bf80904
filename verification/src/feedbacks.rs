//! Filing a finding by what reported it.
//!
//! A scenario reports a finding as `FAIL: <oracle>: <detail>` and a run it could not complete
//! as `INFRASTRUCTURE: <detail>`. The oracle's name, without its `Oracle` suffix and in lower
//! case, is the cause: `setupconnection`, `crash`; an infrastructure report is
//! `infrastructure`; anything else on the stream is `other`.
use vstd::prelude::*;

use crate::text::push_char;

verus! {

/// An ASCII letter.
pub open spec fn is_letter(b: u8) -> bool {
    (65 <= b && b <= 90) || (97 <= b && b <= 122)
}

/// `FAIL: `, as bytes.
pub open spec fn fail_tag() -> Seq<u8> {
    seq![70u8, 65, 73, 76, 58, 32]
}

/// `INFRASTRUCTURE: `, as bytes.
pub open spec fn infrastructure_tag() -> Seq<u8> {
    seq![73u8, 78, 70, 82, 65, 83, 84, 82, 85, 67, 84, 85, 82, 69, 58, 32]
}

/// `tag` followed by a letter starts at `i`.
pub open spec fn tagged_at(out: Seq<u8>, i: int, tag: Seq<u8>) -> bool {
    &&& 0 <= i
    &&& i + tag.len() < out.len()
    &&& out.subrange(i, i + tag.len()) == tag
    &&& is_letter(out[i + tag.len()])
}

/// A report starts at `i`.
pub open spec fn report_at(out: Seq<u8>, i: int) -> bool {
    tagged_at(out, i, fail_tag()) || tagged_at(out, i, infrastructure_tag())
}

/// The first report in the output starts at `i`.
pub open spec fn first_report(out: Seq<u8>, i: int) -> bool {
    report_at(out, i) && forall|j: int| 0 <= j < i ==> !report_at(out, j)
}

/// The letters from `start` on, as long as they run.
pub open spec fn letters_from(out: Seq<u8>, start: int) -> Seq<u8>
    decreases out.len() - start,
{
    if 0 <= start < out.len() && is_letter(out[start]) {
        seq![out[start]] + letters_from(out, start + 1)
    } else {
        seq![]
    }
}

/// The letter in lower case.
pub open spec fn lower(b: u8) -> u8 {
    if 65 <= b <= 90 { (b + 32) as u8 } else { b }
}

/// The characters of bytes that are all ASCII.
pub open spec fn ascii_chars(bytes: Seq<u8>) -> Seq<char> {
    bytes.map_values(|b: u8| b as char)
}

/// `oracle`, as bytes.
pub open spec fn oracle_suffix() -> Seq<u8> {
    seq![111u8, 114, 97, 99, 108, 101]
}

/// The cause an oracle's name files a finding under: the name in lower case without its
/// `oracle` suffix, or `other` when it has none or nothing is left.
pub open spec fn oracle_cause(name: Seq<u8>) -> Seq<char> {
    let lowered = name.map_values(|b: u8| lower(b));
    let n = lowered.len();
    if n > 6 && lowered.subrange(n - 6, n as int) == oracle_suffix() {
        ascii_chars(lowered.subrange(0, n - 6))
    } else {
        "other"@
    }
}

/// The cause of the report starting at `i`.
pub open spec fn cause_at(out: Seq<u8>, i: int) -> Seq<char> {
    if tagged_at(out, i, infrastructure_tag()) {
        "infrastructure"@
    } else {
        oracle_cause(letters_from(out, i + fail_tag().len()))
    }
}

/// Whether `tag` followed by a letter starts at `i`.
fn tagged(out: &[u8], i: usize, tag: &[u8]) -> (b: bool)
    ensures
        b == tagged_at(out@, i as int, tag@),
{
    if tag.len() >= out.len() || i >= out.len() - tag.len() {
        return false;
    }
    let mut k: usize = 0;
    while k < tag.len()
        invariant
            k <= tag@.len(),
            i + tag@.len() < out@.len(),
            out@.len() <= usize::MAX,
            forall|j: int| 0 <= j < k ==> out@[i + j] == tag@[j],
        decreases tag@.len() - k,
    {
        if out[i + k] != tag[k] {
            assert(out@.subrange(i as int, i + tag@.len())[k as int] != tag@[k as int]);
            return false;
        }
        k = k + 1;
    }
    assert(out@.subrange(i as int, i + tag@.len()) =~= tag@);
    let b = out[i + tag.len()];
    (65 <= b && b <= 90) || (97 <= b && b <= 122)
}

/// The cause a scenario's output reports, if it reports one.
pub fn cause_of(output: &[u8]) -> (cause: Option<String>)
    ensures
        cause is None <==> forall|i: int| 0 <= i < output@.len() ==> !report_at(output@, i),
        cause matches Some(c) ==> exists|i: int| first_report(output@, i) && c@ == cause_at(output@, i),
{
    let fail: [u8; 6] = [70, 65, 73, 76, 58, 32];
    let infrastructure: [u8; 16] = [73, 78, 70, 82, 65, 83, 84, 82, 85, 67, 84, 85, 82, 69, 58, 32];
    assert(fail@ =~= fail_tag());
    assert(infrastructure@ =~= infrastructure_tag());
    let mut i: usize = 0;
    while i < output.len()
        invariant
            i <= output@.len(),
            fail@ == fail_tag(),
            infrastructure@ == infrastructure_tag(),
            forall|j: int| 0 <= j < i ==> !report_at(output@, j),
        decreases output@.len() - i,
    {
        if tagged(output, i, &infrastructure) {
            assert(first_report(output@, i as int));
            return Some("infrastructure".to_owned());
        }
        if tagged(output, i, &fail) {
            assert(first_report(output@, i as int));
            let cause = oracle_name_cause(output, i + 6);
            return Some(cause);
        }
        i = i + 1;
    }
    None
}

/// The cause the oracle name starting at `start` files a finding under.
fn oracle_name_cause(output: &[u8], start: usize) -> (cause: String)
    requires
        start <= output@.len(),
    ensures
        cause@ == oracle_cause(letters_from(output@, start as int)),
{
    let mut lowered: Vec<u8> = Vec::new();
    let mut end: usize = start;
    while end < output.len() && ((65 <= output[end] && output[end] <= 90) || (97 <= output[end]
        && output[end] <= 122))
        invariant
            start <= end <= output@.len(),
            letters_from(output@, start as int) == output@.subrange(start as int, end as int)
                + letters_from(output@, end as int),
            lowered@ == output@.subrange(start as int, end as int).map_values(|b: u8| lower(b)),
        decreases output@.len() - end,
    {
        let b = output[end];
        let l: u8 = if 65 <= b && b <= 90 {
            b + 32
        } else {
            b
        };
        lowered.push(l);
        proof {
            assert(output@.subrange(start as int, end + 1) =~= output@.subrange(
                start as int,
                end as int,
            ).push(b));
            assert(letters_from(output@, end as int) == seq![b] + letters_from(output@, end + 1));
            assert(letters_from(output@, start as int) =~= output@.subrange(start as int, end + 1)
                + letters_from(output@, end + 1));
            assert(lowered@ =~= output@.subrange(start as int, end + 1).map_values(
                |b: u8| lower(b),
            ));
        }
        end = end + 1;
    }
    proof {
        assert(letters_from(output@, end as int) =~= Seq::<u8>::empty());
        assert(letters_from(output@, start as int) =~= output@.subrange(start as int, end as int));
    }
    let n = lowered.len();
    if n > 6 && lowered[n - 6] == 111 && lowered[n - 5] == 114 && lowered[n - 4] == 97
        && lowered[n - 3] == 99 && lowered[n - 2] == 108 && lowered[n - 1] == 101 {
        assert(lowered@.subrange(n - 6, n as int) =~= oracle_suffix());
        let mut head = String::new();
        let mut k: usize = 0;
        while k < n - 6
            invariant
                k <= n - 6,
                n == lowered@.len(),
                head@ == ascii_chars(lowered@.subrange(0, k as int)),
            decreases n - 6 - k,
        {
            push_char(&mut head, lowered[k] as char);
            assert(ascii_chars(lowered@.subrange(0, k + 1)) =~= ascii_chars(
                lowered@.subrange(0, k as int),
            ).push(lowered@[k as int] as char));
            k = k + 1;
        }
        head
    } else {
        proof {
            if n > 6 && lowered@.subrange(n - 6, n as int) == oracle_suffix() {
                assert(lowered@.subrange(n - 6, n as int)[0] == 111);
                assert(lowered@.subrange(n - 6, n as int)[1] == 114);
                assert(lowered@.subrange(n - 6, n as int)[2] == 97);
                assert(lowered@.subrange(n - 6, n as int)[3] == 99);
                assert(lowered@.subrange(n - 6, n as int)[4] == 108);
                assert(lowered@.subrange(n - 6, n as int)[5] == 101);
            }
        }
        "other".to_owned()
    }
}

/// What the timeout feedback makes of a run.
#[derive(Debug, Clone, Copy, PartialEq, Eq, Structural)]
pub enum TimeoutVerdict {
    /// A timeout while timeouts are being captured: queued to be run again and confirmed as a
    /// hang later, not a finding yet.
    Queued,
    /// A timeout while capturing is off, which is when the queued ones are run again: a
    /// finding.
    Objective,
    /// Not a timeout.
    Uninteresting,
}

/// Captures timeouts to be confirmed later, and files the confirmed ones as findings.
pub struct CaptureTimeoutFeedback {
    timeout_found: u64,
    triggered: bool,
}

impl CaptureTimeoutFeedback {
    /// Confirmed timeouts filed so far.
    pub closed spec fn found(&self) -> u64 {
        self.timeout_found
    }

    /// Whether the last run judged was a finding.
    pub closed spec fn was_triggered(&self) -> bool {
        self.triggered
    }

    pub fn new() -> (f: Self)
        ensures
            f.found() == 0,
            !f.was_triggered(),
    {
        CaptureTimeoutFeedback { timeout_found: 0, triggered: false }
    }

    /// Judge a run: whether timeouts are being captured, and whether the run timed out.
    pub fn is_interesting(&mut self, capturing: bool, timed_out: bool) -> (v: TimeoutVerdict)
        ensures
            v == if !timed_out {
                TimeoutVerdict::Uninteresting
            } else if capturing {
                TimeoutVerdict::Queued
            } else {
                TimeoutVerdict::Objective
            },
            final(self).was_triggered() == (v == TimeoutVerdict::Objective),
            final(self).found() == old(self).found(),
    {
        self.triggered = false;
        if capturing && timed_out {
            return TimeoutVerdict::Queued;
        }
        self.triggered = timed_out;
        if timed_out {
            TimeoutVerdict::Objective
        } else {
            TimeoutVerdict::Uninteresting
        }
    }

    /// File the finding the last run was, if it was one: hands back how many timeouts have
    /// been filed, this one included.
    pub fn append_metadata(&mut self) -> (count: Option<u64>)
        ensures
            old(self).was_triggered() ==> count == Some(crate::corpus::bumped(old(self).found()))
                && final(self).found() == crate::corpus::bumped(old(self).found()),
            !old(self).was_triggered() ==> count is None && final(self).found() == old(self).found(),
            final(self).was_triggered() == old(self).was_triggered(),
    {
        if self.triggered {
            if self.timeout_found < u64::MAX {
                self.timeout_found = self.timeout_found + 1;
            }
            Some(self.timeout_found)
        } else {
            None
        }
    }
}

/// How many findings have been filed under each cause, causes in the order first filed.
pub struct CauseCounts {
    counts: Vec<(String, u64)>,
}

/// The count recorded under `cause`, zero if none is.
pub open spec fn count_of(counts: Seq<(Seq<char>, u64)>, cause: Seq<char>) -> u64
    decreases counts.len(),
{
    if counts.len() == 0 {
        0
    } else if counts.last().0 == cause {
        counts.last().1
    } else {
        count_of(counts.drop_last(), cause)
    }
}

impl CauseCounts {
    /// The causes and their counts, as text.
    pub closed spec fn entries(&self) -> Seq<(Seq<char>, u64)> {
        self.counts@.map_values(|e: (String, u64)| (e.0@, e.1))
    }

    /// Each cause is listed once.
    pub closed spec fn wf(&self) -> bool {
        forall|i: int, j: int| 0 <= i < j < self.counts@.len() ==> (#[trigger] self.counts@[i]).0@ != (#[trigger] self.counts@[j]).0@
    }

    pub fn new() -> (c: Self)
        ensures
            c.wf(),
            c.entries().len() == 0,
    {
        CauseCounts { counts: Vec::new() }
    }

    /// File one more finding under `cause`; hands back its count now.
    pub fn record(&mut self, cause: String) -> (count: u64)
        requires
            old(self).wf(),
        ensures
            final(self).wf(),
            count == crate::corpus::bumped(count_of(old(self).entries(), cause@)),
            count_of(final(self).entries(), cause@) == count,
            forall|other: Seq<char>| other != cause@ ==> count_of(final(self).entries(), other) == count_of(old(self).entries(), other),
    {
        let ghost before = self.entries();
        let mut k: usize = 0;
        while k < self.counts.len()
            invariant
                k <= self.counts@.len(),
                self.counts@ == old(self).counts@,
                before == old(self).entries(),
                before.len() == self.counts@.len(),
                old(self).wf(),
                forall|j: int| 0 <= j < k ==> (#[trigger] self.counts@[j]).0@ != cause@,
            decreases self.counts@.len() - k,
        {
            if self.counts[k].0 == cause {
                proof {
                    assert(before[k as int] == (self.counts@[k as int].0@, self.counts@[k as int].1));
                    assert forall|j: int| 0 <= j < before.len() && j != k implies before[j].0 != cause@ by {
                        assert(before[j].0 == self.counts@[j].0@);
                        if j > k {
                            assert(self.counts@[k as int].0@ != self.counts@[j].0@);
                        }
                    }
                }
                let (name, count) = self.counts.remove(k);
                let bumped = if count < u64::MAX { count + 1 } else { count };
                self.counts.insert(k, (name, bumped));
                proof {
                    lemma_count_of_unique(before, k as int, cause@);
                    let after = self.entries();
                    assert(after =~= before.update(k as int, (cause@, bumped)));
                    assert forall|i: int, j: int| 0 <= i < j < self.counts@.len() implies (#[trigger] self.counts@[i]).0@ != (#[trigger] self.counts@[j]).0@ by {
                        assert(self.counts@[i].0@ == before[i].0);
                        assert(self.counts@[j].0@ == before[j].0);
                        assert(old(self).counts@[i].0@ == before[i].0);
                    }
                    lemma_count_of_unique(after, k as int, cause@);
                    assert forall|other: Seq<char>| other != cause@ implies count_of(after, other) == count_of(before, other) by {
                        lemma_count_of_update(before, k as int, (cause@, bumped), other);
                    }
                }
                return bumped;
            }
            k = k + 1;
        }
        let ghost name = cause@;
        self.counts.push((cause, 1));
        proof {
            let after = self.entries();
            assert(after =~= before.push((name, 1u64)));
            assert(after.drop_last() =~= before);
            lemma_count_of_absent(before, name);
            assert forall|i: int, j: int| 0 <= i < j < self.counts@.len() implies (#[trigger] self.counts@[i]).0@ != (#[trigger] self.counts@[j]).0@ by {
                if j == self.counts@.len() - 1 {
                    assert(self.counts@[i] == old(self).counts@[i]);
                }
            }
        }
        1
    }

    /// The causes and their counts, in the order first filed.
    pub fn counts(&self) -> (c: &[(String, u64)])
        ensures
            c@.map_values(|e: (String, u64)| (e.0@, e.1)) == self.entries(),
    {
        self.counts.as_slice()
    }
}

/// Where each cause is listed once, the count of the cause at `k` is its entry's.
proof fn lemma_count_of_unique(counts: Seq<(Seq<char>, u64)>, k: int, cause: Seq<char>)
    requires
        0 <= k < counts.len(),
        counts[k].0 == cause,
        forall|j: int| 0 <= j < counts.len() && j != k ==> counts[j].0 != cause,
    ensures
        count_of(counts, cause) == counts[k].1,
    decreases counts.len(),
{
    if k < counts.len() - 1 {
        lemma_count_of_unique(counts.drop_last(), k, cause);
    }
}

/// A cause no entry lists has count zero.
proof fn lemma_count_of_absent(counts: Seq<(Seq<char>, u64)>, cause: Seq<char>)
    requires
        forall|j: int| 0 <= j < counts.len() ==> counts[j].0 != cause,
    ensures
        count_of(counts, cause) == 0,
    decreases counts.len(),
{
    if counts.len() > 0 {
        lemma_count_of_absent(counts.drop_last(), cause);
    }
}

/// Changing the entry of one cause leaves the counts of the others alone.
proof fn lemma_count_of_update(counts: Seq<(Seq<char>, u64)>, k: int, entry: (Seq<char>, u64), other: Seq<char>)
    requires
        0 <= k < counts.len(),
        counts[k].0 == entry.0,
        other != entry.0,
    ensures
        count_of(counts.update(k, entry), other) == count_of(counts, other),
    decreases counts.len(),
{
    let updated = counts.update(k, entry);
    if k < counts.len() - 1 {
        assert(updated.drop_last() =~= counts.drop_last().update(k, entry));
        lemma_count_of_update(counts.drop_last(), k, entry, other);
    } else {
        assert(updated.drop_last() =~= counts.drop_last());
    }
}

} // verus!
