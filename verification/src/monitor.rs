//! The status line a coverage-guided campaign prints as its clients report.
use vstd::prelude::*;

use crate::libraries::chars_of;
use crate::text::{decimal, decimal_u64};

verus! {

/// The causes findings are filed under, as the crash cause feedback names them.
pub const CAUSES: [&'static str; 6] = ["setupconnection", "crash", "harnessintegrity", "infrastructure", "other", "timeout"];

/// The causes, as text.
pub open spec fn causes() -> Seq<Seq<char>> {
    seq!["setupconnection"@, "crash"@, "harnessintegrity"@, "infrastructure"@, "other"@, "timeout"@]
}

/// What the clients' statistics say at the moment of an event, each aggregated statistic as
/// it reads, when it has been reported.
pub struct MonitorStats {
    /// The share of the coverage map reached.
    pub trace: Option<String>,
    pub stability: Option<String>,
    /// The count of findings filed under each of [`CAUSES`], in that order.
    pub causes: Vec<Option<String>>,
    pub total_execs: u64,
    pub corpus_size: u64,
    pub objective_size: u64,
    pub client_stats_count: usize,
    pub run_time_pretty: String,
    /// The nanoseconds past the last whole second of the run time.
    pub run_time_subsec_nanos: u32,
    pub execs_per_sec_pretty: String,
}

/// The glyphs an objective is marked with, one picked by the run time's nanoseconds.
pub open spec fn bug_glyphs() -> Seq<Seq<char>> {
    seq!["🪲"@, "🐛"@, "🐞"@, "🪰"@, "🦗"@, "🦋"@]
}

/// A statistic as it reads, or what it reads as before anything was reported.
pub open spec fn or_default(stat: Option<String>, default: Seq<char>) -> Seq<char> {
    match stat {
        Some(s) => s@,
        None => default,
    }
}

/// Whether the two say the same, character for character.
fn same_text(a: &str, b: &str) -> (r: bool)
    ensures
        r == (a@ == b@),
{
    let x = chars_of(a);
    let y = chars_of(b);
    if x.len() != y.len() {
        return false;
    }
    let mut i: usize = 0;
    while i < x.len()
        invariant
            x@ == a@,
            y@ == b@,
            x@.len() == y@.len(),
            i <= x@.len(),
            forall|j: int| 0 <= j < i ==> x@[j] == y@[j],
        decreases x@.len() - i,
    {
        if x[i] != y[i] {
            return false;
        }
        i = i + 1;
    }
    assert(x@ =~= y@);
    true
}

/// Keeps the totals the last statistics line reported, so that an update that changes
/// neither prints nothing.
pub struct GlobalMonitor {
    total_execs: u64,
    corpus_size: u64,
}

/// The causes that have findings, each with its count, in the order of [`CAUSES`].
pub open spec fn filed(counts: Seq<Seq<char>>, upto: int) -> Seq<(Seq<char>, Seq<char>)>
    decreases upto,
{
    if upto <= 0 {
        seq![]
    } else {
        filed(counts, upto - 1) + if counts[upto - 1] != "0"@ {
            seq![(causes()[upto - 1], counts[upto - 1])]
        } else {
            seq![]
        }
    }
}

/// The counts of the causes, `0` where none was reported.
pub open spec fn cause_counts(stats: Seq<Option<String>>) -> Seq<Seq<char>> {
    Seq::new(6, |i: int| if i < stats.len() { or_default(stats[i], "0"@) } else { "0"@ })
}

/// The causes and counts, each as `count cause`, separated by commas.
pub open spec fn details(filed: Seq<(Seq<char>, Seq<char>)>) -> Seq<char>
    decreases filed.len(),
{
    if filed.len() == 0 {
        seq![]
    } else if filed.len() == 1 {
        filed[0].1 + " "@ + filed[0].0
    } else {
        filed[0].1 + " "@ + filed[0].0 + ", "@ + details(filed.drop_first())
    }
}

/// How many findings there are, and under which causes when any are filed.
pub open spec fn bugs_text(objective_size: u64, filed: Seq<(Seq<char>, Seq<char>)>) -> Seq<char> {
    if objective_size > 0 && filed.len() > 0 {
        "bugs: "@ + decimal(objective_size as nat) + " ("@ + details(filed) + ")"@
    } else {
        "bugs: "@ + decimal(objective_size as nat)
    }
}

/// The status line for an event marked `mark`.
pub open spec fn status_text(mark: Seq<char>, stats: MonitorStats) -> Seq<char> {
    mark + " time: "@ + stats.run_time_pretty@ + " (x"@ + decimal(stats.client_stats_count as nat) + ") execs: "@
        + decimal(stats.total_execs as nat) + " cov: "@ + or_default(stats.trace, "0%"@) + " corpus: "@ + decimal(
        stats.corpus_size as nat,
    ) + " exec/sec: "@ + stats.execs_per_sec_pretty@ + " stability: "@ + or_default(stats.stability, "100%"@) + " "@
        + bugs_text(stats.objective_size, filed(cause_counts(stats.causes@), 6))
}

/// Whether a statistics update is worth a line: the first, or one that ran more or kept more
/// than the last line reported.
pub open spec fn worth_a_line(last_execs: u64, last_corpus: u64, stats: MonitorStats) -> bool {
    stats.total_execs == 0 || stats.total_execs > last_execs || stats.corpus_size > last_corpus
}

/// The mark an event's line starts with, or none when the event gets no line.
pub open spec fn event_mark(last_execs: u64, last_corpus: u64, stats: MonitorStats, event: Seq<char>) -> Option<Seq<char>> {
    if event == "UserStats"@ {
        if worth_a_line(last_execs, last_corpus, stats) {
            Some("📊"@)
        } else {
            None
        }
    } else if event == "Client Heartbeat"@ {
        Some("💗"@)
    } else if event == "Broker Heartbeat"@ {
        Some("💓"@)
    } else if event == "Objective"@ {
        Some(bug_glyphs()[stats.run_time_subsec_nanos as int % 6])
    } else if event == "Testcase"@ {
        None
    } else {
        Some(event)
    }
}

/// The string with `more` at its end.
fn append(s: &mut String, more: &str)
    ensures
        final(s)@ == old(s)@ + more@,
{
    s.append(more);
}

/// A statistic as it reads, or its default.
fn stat_or(stat: &Option<String>, default: &str) -> (s: String)
    ensures
        s@ == or_default(*stat, default@),
{
    match stat {
        Some(s) => s.clone(),
        None => default.to_owned(),
    }
}

/// The count of findings filed under each cause.
fn counts_of(stats: &Vec<Option<String>>) -> (counts: Vec<String>)
    ensures
        counts@.len() == 6,
        forall|i: int| 0 <= i < 6 ==> (#[trigger] counts@[i])@ == cause_counts(stats@)[i],
{
    let mut counts: Vec<String> = Vec::new();
    let mut i: usize = 0;
    while i < 6
        invariant
            i <= 6,
            counts@.len() == i,
            forall|j: int| 0 <= j < i ==> (#[trigger] counts@[j])@ == cause_counts(stats@)[j],
        decreases 6 - i,
    {
        if i < stats.len() {
            counts.push(stat_or(&stats[i], "0"));
        } else {
            counts.push("0".to_owned());
        }
        i = i + 1;
    }
    counts
}

/// How many findings there are, and under which causes.
fn bugs_line(objective_size: u64, counts: &Vec<String>) -> (s: String)
    requires
        counts@.len() == 6,
    ensures
        s@ == bugs_text(objective_size, filed(Seq::new(6, |i: int| counts@[i]@), 6)),
{
    let ghost all = Seq::new(6, |i: int| counts@[i]@);
    let names: [&str; 6] = CAUSES;
    proof {
        reveal_strlit("setupconnection");
        reveal_strlit("crash");
        reveal_strlit("harnessintegrity");
        reveal_strlit("infrastructure");
        reveal_strlit("other");
        reveal_strlit("timeout");
        assert(names@.map_values(|c: &str| c@) =~= causes());
    }
    let mut listed = String::new();
    let mut any = false;
    let mut i: usize = 0;
    while i < 6
        invariant
            i <= 6,
            counts@.len() == 6,
            all == Seq::new(6, |j: int| counts@[j]@),
            names@.map_values(|c: &str| c@) == causes(),
            any == (filed(all, i as int).len() > 0),
            any ==> listed@ == details(filed(all, i as int)),
            !any ==> listed@ == Seq::<char>::empty(),
        decreases 6 - i,
    {
        let ghost before = filed(all, i as int);
        if !same_text(counts[i].as_str(), "0") {
            let ghost item = (causes()[i as int], all[i as int]);
            assert(names@[i as int]@ == causes()[i as int]);
            if any {
                append(&mut listed, ", ");
            }
            append(&mut listed, counts[i].as_str());
            append(&mut listed, " ");
            append(&mut listed, names[i]);
            proof {
                lemma_details_push(before, item);
                assert(filed(all, i + 1) =~= before.push(item));
                assert(listed@ =~= details(before.push(item)));
            }
            any = true;
        } else {
            assert(filed(all, i + 1) =~= before);
        }
        i = i + 1;
    }
    let mut s = "bugs: ".to_owned();
    append(&mut s, decimal_u64(objective_size).as_str());
    if objective_size > 0 && any {
        append(&mut s, " (");
        append(&mut s, listed.as_str());
        append(&mut s, ")");
    }
    s
}

/// Listing one more cause adds it after a comma, or alone when it is the first.
pub proof fn lemma_details_push(filed: Seq<(Seq<char>, Seq<char>)>, item: (Seq<char>, Seq<char>))
    ensures
        details(filed.push(item)) == if filed.len() == 0 {
            item.1 + " "@ + item.0
        } else {
            details(filed) + ", "@ + item.1 + " "@ + item.0
        },
    decreases filed.len(),
{
    if filed.len() == 0 {
        assert(filed.push(item) =~= seq![item]);
    } else if filed.len() == 1 {
        assert(filed.push(item).drop_first() =~= seq![item]);
        assert(filed.push(item)[0] == filed[0]);
        assert(details(seq![item]) == item.1 + " "@ + item.0);
        assert(details(filed) == filed[0].1 + " "@ + filed[0].0);
        let head = filed[0].1 + " "@ + filed[0].0;
        assert(details(filed.push(item)) == head + ", "@ + details(seq![item]));
        assert(details(filed.push(item)) =~= details(filed) + ", "@ + item.1 + " "@ + item.0);
    } else {
        let rest = filed.drop_first();
        lemma_details_push(rest, item);
        assert(filed.push(item).drop_first() =~= rest.push(item));
        assert(filed.push(item)[0] == filed[0]);
        let head = filed[0].1 + " "@ + filed[0].0 + ", "@;
        let tail = ", "@ + item.1 + " "@ + item.0;
        assert(details(filed.push(item)) == head + details(rest.push(item)));
        assert(details(filed) == head + details(rest));
        assert(details(rest.push(item)) =~= details(rest) + tail);
        assert(head + (details(rest) + tail) =~= (head + details(rest)) + tail);
        assert(details(filed) + ", "@ + item.1 + " "@ + item.0 =~= details(filed) + tail);
    }
}

impl GlobalMonitor {
    /// The totals the last statistics line reported.
    pub closed spec fn last(&self) -> (u64, u64) {
        (self.total_execs, self.corpus_size)
    }

    pub fn new() -> (m: Self)
        ensures
            m.last() == (0u64, 0u64),
    {
        GlobalMonitor { total_execs: 0, corpus_size: 0 }
    }

    /// The line to log for an event, if it gets one; a statistics update that gets one is
    /// remembered as the last reported.
    pub fn display(&mut self, stats: &MonitorStats, event_msg: &str) -> (line: Option<String>)
        ensures
            match event_mark(old(self).last().0, old(self).last().1, *stats, event_msg@) {
                Some(mark) => line matches Some(l) && l@ == status_text(mark, *stats),
                None => line is None,
            },
            (event_msg@ == "UserStats"@ && worth_a_line(old(self).last().0, old(self).last().1, *stats)) ==> final(self).last() == (
                if stats.total_execs > 1 { stats.total_execs } else { 1u64 },
                stats.corpus_size,
            ),
            !(event_msg@ == "UserStats"@ && worth_a_line(old(self).last().0, old(self).last().1, *stats)) ==> final(self).last() == old(self).last(),
    {
        let mark: Option<String> = if same_text(event_msg, "UserStats") {
            if stats.total_execs == 0 || stats.total_execs > self.total_execs || stats.corpus_size > self.corpus_size {
                self.total_execs = if stats.total_execs > 1 { stats.total_execs } else { 1 };
                self.corpus_size = stats.corpus_size;
                Some("📊".to_owned())
            } else {
                None
            }
        } else if same_text(event_msg, "Client Heartbeat") {
            Some("💗".to_owned())
        } else if same_text(event_msg, "Broker Heartbeat") {
            Some("💓".to_owned())
        } else if same_text(event_msg, "Objective") {
            let bugs: [&str; 6] = ["🪲", "🐛", "🐞", "🪰", "🦗", "🦋"];
            let pick = (stats.run_time_subsec_nanos % 6) as usize;
            proof {
                reveal_strlit("🪲");
                reveal_strlit("🐛");
                reveal_strlit("🐞");
                reveal_strlit("🪰");
                reveal_strlit("🦗");
                reveal_strlit("🦋");
                assert(bugs@[pick as int]@ == bug_glyphs()[pick as int]);
            }
            Some(bugs[pick].to_owned())
        } else if same_text(event_msg, "Testcase") {
            None
        } else {
            Some(event_msg.to_owned())
        };
        match mark {
            None => None,
            Some(mark) => {
                let counts = counts_of(&stats.causes);
                let mut line = mark;
                append(&mut line, " time: ");
                append(&mut line, stats.run_time_pretty.as_str());
                append(&mut line, " (x");
                append(&mut line, decimal_u64(stats.client_stats_count as u64).as_str());
                append(&mut line, ") execs: ");
                append(&mut line, decimal_u64(stats.total_execs).as_str());
                append(&mut line, " cov: ");
                append(&mut line, stat_or(&stats.trace, "0%").as_str());
                append(&mut line, " corpus: ");
                append(&mut line, decimal_u64(stats.corpus_size).as_str());
                append(&mut line, " exec/sec: ");
                append(&mut line, stats.execs_per_sec_pretty.as_str());
                append(&mut line, " stability: ");
                append(&mut line, stat_or(&stats.stability, "100%").as_str());
                append(&mut line, " ");
                assert(Seq::new(6, |i: int| counts@[i]@) =~= cause_counts(stats.causes@));
                append(&mut line, bugs_line(stats.objective_size, &counts).as_str());
                Some(line)
            },
        }
    }
}

} // verus!
