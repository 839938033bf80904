//! The programs the fuzzer mutates, and how it chooses among them.
use std::collections::HashSet;

use rand::rngs::SmallRng;
use vstd::prelude::*;

use crate::mutators::SIZE_LIMIT;
use crate::program::Program;
use crate::random::{random_below_u128, random_range_u64, ExSmallRng};
use crate::target::Behaviour;

verus! {

broadcast use vstd::std_specs::hash::group_hash_axioms;

/// One program in the corpus and what the campaign knows about it.
#[derive(Debug)]
pub struct Entry {
    pub program: Program,
    pub behaviour: Behaviour,
    /// Whether it was kept for what it reached inside the target rather than for its
    /// behaviour.
    pub for_coverage: bool,
    /// How often it has been picked to mutate.
    pub picks: u64,
    /// How often a mutant of it earned a slot of its own.
    pub yields: u64,
}

/// How much the scheduler favours an entry.
///
/// One whose mutants keep earning slots is promising, and so is one that reached new code;
/// one picked many times for nothing is tired. A short program is favoured over a long one,
/// since its mutations land nearer to what matters and it runs faster.
pub open spec fn entry_weight(e: Entry) -> nat {
    let promise: nat = 1 + 2 * (e.yields as nat) + if e.for_coverage { 1nat } else { 0nat };
    let brevity: nat = 8nat / (1nat + e.program.instructions@.len() / 32nat);
    let fatigue: nat = 8 + (e.picks as nat);
    let w: nat = promise * (if brevity > 1 { brevity } else { 1 }) * 8 / fatigue;
    if w > 1 { w } else { 1 }
}

/// The weights of the entries, in order.
pub open spec fn weights(entries: Seq<Entry>) -> Seq<nat> {
    entries.map_values(|e: Entry| entry_weight(e))
}

/// The sum of the first `n` weights.
pub open spec fn prefix_sum(w: Seq<nat>, n: int) -> nat
    decreases n,
{
    if n <= 0 || w.len() == 0 {
        0
    } else if n > w.len() {
        prefix_sum(w, w.len() as int)
    } else {
        prefix_sum(w, n - 1) + w[n - 1]
    }
}

/// The entry a draw below the total weight lands on: the one whose share of the total holds
/// it, shares laid end to end in order.
pub open spec fn lands_on(w: Seq<nat>, draw: int, i: int) -> bool {
    0 <= i < w.len() && prefix_sum(w, i) <= draw < prefix_sum(w, i + 1)
}

impl Entry {
    /// How much the scheduler favours the entry.
    fn weight(&self) -> (w: u128)
        ensures
            w == entry_weight(*self),
    {
        let promise: u128 = 1 + 2 * (self.yields as u128) + if self.for_coverage { 1 } else { 0 };
        let length = self.program.instructions.len() as u128;
        let brevity: u128 = 8 / (1 + length / 32);
        let brevity = if brevity > 1 { brevity } else { 1 };
        let fatigue: u128 = 8 + self.picks as u128;
        assert(promise * brevity <= 0x10_0000_0000_0000_0000_0000) by (nonlinear_arith)
            requires
                promise <= 0x3_0000_0000_0000_0000,
                brevity <= 8,
        ;
        let w = promise * brevity * 8 / fatigue;
        if w > 1 { w } else { 1 }
    }
}

/// No entry weighs more than 2^69, nor less than one.
pub proof fn lemma_weight_bounds(e: Entry)
    ensures
        1 <= entry_weight(e) <= 0x20_0000_0000_0000_0000,
{
    let promise: nat = 1 + 2 * (e.yields as nat) + if e.for_coverage { 1nat } else { 0nat };
    let brevity: nat = 8nat / (1nat + e.program.instructions@.len() / 32nat);
    let b: nat = if brevity > 1 { brevity } else { 1 };
    let fatigue: nat = 8 + (e.picks as nat);
    assert(b <= 8);
    assert(promise <= 0x3_0000_0000_0000_0000);
    assert(promise * b * 8 / fatigue <= 0x20_0000_0000_0000_0000) by (nonlinear_arith)
        requires
            b <= 8,
            promise <= 0x3_0000_0000_0000_0000,
            fatigue >= 8,
    {
        assert(promise * b * 8 <= promise * 64);
        assert(promise * b * 8 / fatigue <= promise * b * 8 / 8);
    }
}

/// A quotient never grows as its divisor does; once the divisor has doubled, a quotient of at
/// least two is strictly smaller.
proof fn lemma_tiring_quotient(x: nat, d1: nat, d2: nat)
    requires
        0 < d1 <= d2,
    ensures
        x / d2 <= x / d1,
        x / d1 >= 2 && d2 >= 2 * d1 ==> x / d2 < x / d1,
{
    let q1 = x / d1;
    let q2 = x / d2;
    assert(q1 * d1 <= x < (q1 + 1) * d1) by (nonlinear_arith)
        requires
            d1 > 0,
            q1 == x / d1,
    ;
    assert(q2 * d2 <= x) by (nonlinear_arith)
        requires
            d2 > 0,
            q2 == x / d2,
    ;
    assert(q2 <= q1) by (nonlinear_arith)
        requires
            q2 * d2 <= x,
            x < (q1 + 1) * d1,
            0 < d1 <= d2,
    ;
    if q1 >= 2 && d2 >= 2 * d1 {
        assert(q2 < q1) by (nonlinear_arith)
            requires
                q2 * d2 <= x,
                x < (q1 + 1) * d1,
                q1 >= 2,
                d2 >= 2 * d1,
                d1 > 0,
        ;
    }
}

/// Picking an entry tires it. With its program length, its yields and why it was kept the
/// same, an entry picked more often never weighs more; and one that weighs more than the least
/// weight weighs strictly less once its picks, plus eight, have doubled.
pub proof fn lemma_picks_tire_an_entry(e: Entry, f: Entry)
    requires
        f.program.instructions@.len() == e.program.instructions@.len(),
        f.yields == e.yields,
        f.for_coverage == e.for_coverage,
        f.picks >= e.picks,
    ensures
        entry_weight(f) <= entry_weight(e),
        entry_weight(e) > 1 && 8 + f.picks >= 2 * (8 + e.picks) ==> entry_weight(f) < entry_weight(e),
{
    let promise: nat = 1 + 2 * (e.yields as nat) + if e.for_coverage { 1nat } else { 0nat };
    let brevity: nat = 8nat / (1nat + e.program.instructions@.len() / 32nat);
    let b: nat = if brevity > 1 { brevity } else { 1 };
    lemma_tiring_quotient(promise * b * 8, (8 + e.picks) as nat, (8 + f.picks) as nat);
}

/// What an entry not yet picked weighs: its promise, one plus two for every yield plus one if it
/// reached new code, times how short it is: eight times under 32 instructions, four times under
/// 64, twice under 128, and once from there on.
pub proof fn lemma_unpicked_entry_weight(e: Entry)
    requires
        e.picks == 0,
    ensures
        entry_weight(e) == (1 + 2 * (e.yields as nat) + if e.for_coverage { 1nat } else { 0nat }) * (
            if e.program.instructions@.len() < 32 {
                8nat
            } else if e.program.instructions@.len() < 64 {
                4nat
            } else if e.program.instructions@.len() < 128 {
                2nat
            } else {
                1nat
            }),
{
    let promise: nat = 1 + 2 * (e.yields as nat) + if e.for_coverage { 1nat } else { 0nat };
    let len = e.program.instructions@.len();
    let brevity: nat = 8nat / (1nat + len / 32nat);
    let b: nat = if brevity > 1 { brevity } else { 1 };
    if len < 32 {
        assert(len / 32 == 0);
        assert(brevity == 8) by (nonlinear_arith)
            requires
                brevity == 8nat / (1nat + len / 32nat),
                len / 32nat == 0,
        ;
    } else if len < 64 {
        assert(len / 32 == 1);
        assert(brevity == 4) by (nonlinear_arith)
            requires
                brevity == 8nat / (1nat + len / 32nat),
                len / 32nat == 1,
        ;
    } else if len < 96 {
        assert(len / 32 == 2);
        assert(brevity == 2) by (nonlinear_arith)
            requires
                brevity == 8nat / (1nat + len / 32nat),
                len / 32nat == 2,
        ;
    } else if len < 128 {
        assert(len / 32 == 3);
        assert(brevity == 2) by (nonlinear_arith)
            requires
                brevity == 8nat / (1nat + len / 32nat),
                len / 32nat == 3,
        ;
    } else {
        assert(len / 32 >= 4);
        assert(8nat / (1nat + len / 32nat) <= 1) by (nonlinear_arith)
            requires
                len / 32nat >= 4,
        ;
    }
    assert(promise * b * 8 / 8 == promise * b) by (nonlinear_arith);
    assert(promise * b >= 1) by (nonlinear_arith)
        requires
            promise >= 1,
            b >= 1,
    ;
    assert(entry_weight(e) == promise * b);
}

/// The first `n` weights, each at least one and at most 2^69, add up to at least `n` and at
/// most `n` times 2^69.
pub proof fn lemma_prefix_sum_bounds(entries: Seq<Entry>, n: int)
    requires
        0 <= n <= entries.len(),
    ensures
        n <= prefix_sum(weights(entries), n) <= n * 0x20_0000_0000_0000_0000,
        n < entries.len() ==> prefix_sum(weights(entries), n + 1) == prefix_sum(weights(entries), n) + weights(entries)[n],
    decreases n,
{
    if n > 0 {
        lemma_prefix_sum_bounds(entries, n - 1);
        lemma_weight_bounds(entries[n - 1]);
    }
    if n < entries.len() {
        lemma_weight_bounds(entries[n]);
    }
}

/// The programs the fuzzer mutates.
///
/// A program earns a place by showing a fact of behaviour no other program has, or, when an
/// observer sees inside the target, by reaching something in there no other program did.
/// Entries are picked by weight rather than uniformly.
pub struct Corpus {
    entries: Vec<Entry>,
    /// Every fact any entry has shown.
    seen: HashSet<u64>,
}

/// `after` is `before` with one more entry at its end, for `program` and `behaviour`, picked
/// and credited never yet.
pub open spec fn appended_entry(before: Seq<Entry>, after: Seq<Entry>, program: Program, behaviour: Behaviour, for_coverage: bool) -> bool {
    &&& after.len() == before.len() + 1
    &&& after.drop_last() == before
    &&& after.last() == (Entry { program, behaviour, for_coverage, picks: 0, yields: 0 })
}

/// One more, unless the count is already as high as it goes.
pub open spec fn bumped(n: u64) -> u64 {
    if n < u64::MAX { (n + 1) as u64 } else { n }
}

impl Corpus {
    /// The entries, in the order they were appended_entry.
    pub closed spec fn spec_entries(&self) -> Seq<Entry> {
        self.entries@
    }

    /// Every fact any entry has shown.
    pub closed spec fn seen(&self) -> Set<u64> {
        self.seen@
    }

    pub fn new() -> (c: Self)
        ensures
            c.spec_entries().len() == 0,
            c.seen() == Set::<u64>::empty(),
    {
        Corpus { entries: Vec::new(), seen: HashSet::new() }
    }

    pub fn len(&self) -> (n: usize)
        ensures
            n == self.spec_entries().len(),
    {
        self.entries.len()
    }

    pub fn is_empty(&self) -> (b: bool)
        ensures
            b == (self.spec_entries().len() == 0),
    {
        self.entries.len() == 0
    }

    fn take_in(&mut self, program: Program, behaviour: Behaviour, for_coverage: bool)
        ensures
            appended_entry(old(self).spec_entries(), final(self).spec_entries(), program, behaviour, for_coverage),
            final(self).seen() == old(self).seen() + behaviour.features@.to_set(),
    {
        let ghost seen_before = self.seen@;
        let mut k: usize = 0;
        while k < behaviour.features.len()
            invariant
                k <= behaviour.features@.len(),
                self.entries@ == old(self).entries@,
                seen_before == old(self).seen@,
                self.seen@ == seen_before + behaviour.features@.take(k as int).to_set(),
            decreases behaviour.features@.len() - k,
        {
            let feature = behaviour.features[k];
            let ghost seen_now = self.seen@;
            self.seen.insert(feature);
            proof {
                let next = behaviour.features@.take(k + 1);
                assert(next =~= behaviour.features@.take(k as int).push(feature));
                assert forall|x: u64| #[trigger] self.seen@.contains(x) <==> (seen_before + next.to_set()).contains(x) by {
                    if next.contains(x) && x != feature {
                        let j = choose|j: int| 0 <= j < next.len() && next[j] == x;
                        assert(behaviour.features@.take(k as int)[j] == x);
                    }
                    if behaviour.features@.take(k as int).contains(x) {
                        let j = choose|j: int| 0 <= j < k && behaviour.features@.take(k as int)[j] == x;
                        assert(next[j] == x);
                    }
                    if x == feature {
                        assert(next[k as int] == x);
                    }
                }
                assert(self.seen@ =~= seen_before + next.to_set());
            }
            k = k + 1;
        }
        assert(behaviour.features@.take(behaviour.features@.len() as int) =~= behaviour.features@);
        let ghost entries_before = self.entries@;
        self.entries.push(Entry { program, behaviour, for_coverage, picks: 0, yields: 0 });
        assert(self.entries@.drop_last() =~= entries_before);
    }

    /// Keep the program if it showed a fact no entry has. Returns whether it was kept.
    pub fn add(&mut self, program: Program, behaviour: Behaviour) -> (kept: bool)
        ensures
            kept == exists|k: int| 0 <= k < behaviour.features@.len() && !old(self).seen().contains(#[trigger] behaviour.features@[k]),
            kept ==> appended_entry(old(self).spec_entries(), final(self).spec_entries(), program, behaviour, false),
            kept ==> final(self).seen() == old(self).seen() + behaviour.features@.to_set(),
            !kept ==> final(self).spec_entries() == old(self).spec_entries() && final(self).seen() == old(self).seen(),
    {
        let mut k: usize = 0;
        while k < behaviour.features.len()
            invariant
                k <= behaviour.features@.len(),
                self.seen@ == old(self).seen@,
                self.entries@ == old(self).entries@,
                forall|j: int| 0 <= j < k ==> self.seen@.contains(#[trigger] behaviour.features@[j]),
            decreases behaviour.features@.len() - k,
        {
            if !self.seen.contains(&behaviour.features[k]) {
                self.take_in(program, behaviour, false);
                return true;
            }
            k = k + 1;
        }
        false
    }

    /// Keep the program whatever it showed, because something other than its behaviour made
    /// it new.
    pub fn keep(&mut self, program: Program, behaviour: Behaviour)
        ensures
            appended_entry(old(self).spec_entries(), final(self).spec_entries(), program, behaviour, true),
            final(self).seen() == old(self).seen() + behaviour.features@.to_set(),
    {
        self.take_in(program, behaviour, true);
    }

    /// Take back an entry an earlier campaign saved.
    pub fn restore(&mut self, program: Program, behaviour: Behaviour)
        ensures
            appended_entry(old(self).spec_entries(), final(self).spec_entries(), program, behaviour, false),
            final(self).seen() == old(self).seen() + behaviour.features@.to_set(),
    {
        self.take_in(program, behaviour, false);
    }

    pub fn program(&self, index: usize) -> (p: &Program)
        requires
            index < self.spec_entries().len(),
        ensures
            *p == self.spec_entries()[index as int].program,
    {
        &self.entries[index].program
    }

    pub fn entries(&self) -> (e: &[Entry])
        ensures
            e@ == self.spec_entries(),
    {
        self.entries.as_slice()
    }

    /// The programs of the entries, in order.
    pub fn programs(&self) -> (p: Vec<&Program>)
        ensures
            p@.len() == self.spec_entries().len(),
            forall|k: int| 0 <= k < p@.len() ==> *p@[k] == self.spec_entries()[k].program,
    {
        let mut programs: Vec<&Program> = Vec::new();
        let mut k: usize = 0;
        while k < self.entries.len()
            invariant
                k <= self.entries@.len(),
                programs@.len() == k,
                forall|j: int| 0 <= j < k ==> *programs@[j] == self.entries@[j].program,
            decreases self.entries@.len() - k,
        {
            programs.push(&self.entries[k].program);
            k = k + 1;
        }
        programs
    }

    /// A mutant of the entry earned a slot of its own.
    pub fn credit(&mut self, index: usize)
        ensures
            final(self).seen() == old(self).seen(),
            index < old(self).spec_entries().len() ==> final(self).spec_entries() == old(self).spec_entries().update(index as int, Entry {
                yields: bumped(old(self).spec_entries()[index as int].yields),
                ..old(self).spec_entries()[index as int]
            }),
            index >= old(self).spec_entries().len() ==> final(self).spec_entries() == old(self).spec_entries(),
    {
        if index < self.entries.len() {
            let mut entry = self.entries.remove(index);
            if entry.yields < u64::MAX {
                entry.yields = entry.yields + 1;
            }
            self.entries.insert(index, entry);
        }
    }

    /// The total weight of the entries.
    fn total_weight(&self) -> (t: u128)
        requires
            self.spec_entries().len() <= SIZE_LIMIT,
        ensures
            t == prefix_sum(weights(self.spec_entries()), self.spec_entries().len() as int),
    {
        let ghost entries = self.entries@;
        let mut total: u128 = 0;
        let mut i: usize = 0;
        while i < self.entries.len()
            invariant
                entries == self.entries@,
                entries.len() <= SIZE_LIMIT,
                i <= entries.len(),
                total == prefix_sum(weights(entries), i as int),
            decreases entries.len() - i,
        {
            proof {
                lemma_prefix_sum_bounds(entries, i as int);
                lemma_prefix_sum_bounds(entries, i + 1);
                assert((i + 1) * 0x20_0000_0000_0000_0000 <= 0x1000_0000 * 0x20_0000_0000_0000_0000) by (nonlinear_arith)
                    requires
                        i + 1 <= 0x1000_0000,
                ;
            }
            total = total + self.entries[i].weight();
            i = i + 1;
        }
        total
    }

    /// Pick an entry to mutate, by weight, and count the pick. Returns its index.
    pub fn pick(&mut self, rng: &mut SmallRng) -> (r: Option<usize>)
        requires
            old(self).spec_entries().len() <= SIZE_LIMIT,
        ensures
            r is None <==> old(self).spec_entries().len() == 0,
            final(self).seen() == old(self).seen(),
            r is None ==> final(self).spec_entries() == old(self).spec_entries(),
            r matches Some(i) ==> {
                &&& i < old(self).spec_entries().len()
                &&& exists|draw: int| lands_on(weights(old(self).spec_entries()), draw, i as int)
                &&& final(self).spec_entries() == old(self).spec_entries().update(i as int, Entry {
                    picks: bumped(old(self).spec_entries()[i as int].picks),
                    ..old(self).spec_entries()[i as int]
                })
            },
    {
        if self.entries.len() == 0 {
            return None;
        }
        let ghost entries = self.entries@;
        let ghost w = weights(entries);
        let total = self.total_weight();
        proof {
            lemma_prefix_sum_bounds(entries, entries.len() as int);
        }
        // Totals that fit in 64 bits, which is every total in practice, are drawn as such.
        let draw: u128 = if total <= u64::MAX as u128 {
            random_range_u64(rng, 0, total as u64) as u128
        } else {
            random_below_u128(rng, total)
        };
        let mut rest = draw;
        let mut i: usize = 0;
        let mut found: Option<usize> = None;
        while i < self.entries.len()
            invariant_except_break
                found is None,
            invariant
                entries == self.entries@,
                entries.len() <= SIZE_LIMIT,
                w == weights(entries),
                i <= entries.len(),
                total == prefix_sum(w, entries.len() as int),
                draw < total,
                draw >= prefix_sum(w, i as int),
                rest == draw - prefix_sum(w, i as int),
            ensures
                found matches Some(index) ==> lands_on(w, draw as int, index as int),
                found is None ==> i == entries.len(),
            decreases entries.len() - i,
        {
            proof {
                lemma_prefix_sum_bounds(entries, i as int);
            }
            let weight = self.entries[i].weight();
            if rest < weight {
                found = Some(i);
                break;
            }
            rest = rest - weight;
            i = i + 1;
        }
        let index = match found {
            Some(index) => index,
            None => {
                assert(false);
                self.entries.len() - 1
            },
        };
        let mut entry = self.entries.remove(index);
        if entry.picks < u64::MAX {
            entry.picks = entry.picks + 1;
        }
        self.entries.insert(index, entry);
        proof {
            assert(self.entries@ =~= entries.update(index as int, Entry { picks: bumped(entries[index as int].picks), ..entries[index as int] }));
        }
        Some(index)
    }
}

} // verus!
