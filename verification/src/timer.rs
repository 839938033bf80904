//! Callbacks due at deadlines on a simulated clock, fired earliest first.
use vstd::prelude::*;

verus! {

/// Every event is due no earlier than the one before it.
pub open spec fn by_deadline<C>(events: Seq<(u64, C)>) -> bool {
    forall|i: int, j: int| 0 <= i < j < events.len() ==> (#[trigger] events[i]).0 <= (#[trigger] events[j]).0
}

/// The callbacks of the events, in order.
pub open spec fn callbacks<C>(events: Seq<(u64, C)>) -> Seq<C> {
    events.map_values(|e: (u64, C)| e.1)
}

/// `after` is `before` with the event put in at `i`: after every event due no later, before
/// every event due later.
pub open spec fn pushed_at<C>(before: Seq<(u64, C)>, after: Seq<(u64, C)>, i: int, deadline: u64, callback: C) -> bool {
    &&& 0 <= i <= before.len()
    &&& after == before.insert(i, (deadline, callback))
    &&& forall|j: int| 0 <= j < i ==> (#[trigger] before[j]).0 <= deadline
    &&& forall|j: int| i <= j < before.len() ==> (#[trigger] before[j]).0 > deadline
}

/// The first `k` events of `before`, all those due at `time` or before, fired with callbacks
/// `due`, leaving `after`.
pub open spec fn fired_at<C>(before: Seq<(u64, C)>, after: Seq<(u64, C)>, due: Seq<C>, k: int, time: u64) -> bool {
    &&& 0 <= k <= before.len()
    &&& forall|j: int| 0 <= j < k ==> (#[trigger] before[j]).0 <= time
    &&& forall|j: int| k <= j < before.len() ==> (#[trigger] before[j]).0 > time
    &&& due == callbacks(before.take(k))
    &&& after == before.skip(k)
}

/// What one advance does to the event waiting at position `i`: it runs its callback exactly when
/// its deadline is the earliest waiting, and the clock then reads that deadline; otherwise the
/// event stays, moved up past the callbacks that ran, and its deadline is still ahead of the
/// clock. Callbacks run in the order they wait, so those due earlier run first.
pub proof fn lemma_advance_runs_at_deadline<C>(before: Seq<(u64, C)>, after: Seq<(u64, C)>, due: Seq<C>, k: int, time: u64, i: int)
    requires
        by_deadline(before),
        0 <= i < before.len(),
        time == before[0].0,
        fired_at(before, after, due, k, time),
    ensures
        i < k <==> before[i].0 == time,
        i < k ==> due[i] == before[i].1,
        i >= k ==> after[i - k] == before[i] && time < before[i].0,
{
    if i > 0 {
        assert(before[0].0 <= before[i].0);
    }
    if i < k {
        assert(before.take(k)[i] == before[i]);
    }
}

/// The clock never runs backwards: while every event waits for a deadline no earlier than the
/// clock, an advance moves the clock to a deadline no earlier than where it stood, and every
/// event left waits for a deadline later than the new time.
pub proof fn lemma_clock_moves_forward<C>(before: Seq<(u64, C)>, after: Seq<(u64, C)>, due: Seq<C>, k: int, clock: u64, time: u64)
    requires
        by_deadline(before),
        before.len() > 0,
        forall|j: int| 0 <= j < before.len() ==> (#[trigger] before[j]).0 >= clock,
        time == before[0].0,
        fired_at(before, after, due, k, time),
    ensures
        clock <= time,
        forall|j: int| 0 <= j < after.len() ==> (#[trigger] after[j]).0 > time,
{
    assert forall|j: int| 0 <= j < after.len() implies (#[trigger] after[j]).0 > time by {
        assert(after[j] == before[j + k]);
    }
}

/// How many of the first events are due at `time` or before.
pub open spec fn due_count<C>(events: Seq<(u64, C)>, time: u64) -> nat
    decreases events.len(),
{
    if events.len() > 0 && events[0].0 <= time {
        1 + due_count(events.drop_first(), time)
    } else {
        0
    }
}

/// The events left waiting after one advance: all but those due at the earliest deadline.
pub open spec fn after_advance<C>(events: Seq<(u64, C)>) -> Seq<(u64, C)> {
    if events.len() == 0 {
        events
    } else {
        events.skip(due_count(events, events[0].0) as int)
    }
}

/// The events left waiting after `n` advances with no timer added between them.
pub open spec fn after_advances<C>(events: Seq<(u64, C)>, n: nat) -> Seq<(u64, C)>
    decreases n,
{
    if n == 0 {
        events
    } else {
        after_advance(after_advances(events, (n - 1) as nat))
    }
}

/// How many events the first `n` advances ran.
pub open spec fn run_by<C>(events: Seq<(u64, C)>, n: nat) -> int {
    events.len() - after_advances(events, n).len()
}

/// Where advance number `n + 1` moves the clock: the earliest deadline still waiting.
pub open spec fn advance_time<C>(events: Seq<(u64, C)>, n: nat) -> u64 {
    after_advances(events, n)[0].0
}

/// Counting the events due by `time` finds the `k` that `fired_at` took.
pub proof fn lemma_due_count<C>(events: Seq<(u64, C)>, k: int, time: u64)
    requires
        0 <= k <= events.len(),
        forall|j: int| 0 <= j < k ==> (#[trigger] events[j]).0 <= time,
        forall|j: int| k <= j < events.len() ==> (#[trigger] events[j]).0 > time,
    ensures
        due_count(events, time) == k,
    decreases events.len(),
{
    if events.len() > 0 {
        let rest = events.drop_first();
        if k > 0 {
            assert forall|j: int| 0 <= j < k - 1 implies (#[trigger] rest[j]).0 <= time by {
                assert(rest[j] == events[j + 1]);
            }
            assert forall|j: int| k - 1 <= j < rest.len() implies (#[trigger] rest[j]).0 > time by {
                assert(rest[j] == events[j + 1]);
            }
            lemma_due_count(rest, k - 1, time);
        } else {
            assert(events[0].0 > time);
        }
    }
}

proof fn lemma_due_count_bounds<C>(events: Seq<(u64, C)>, time: u64)
    ensures
        due_count(events, time) <= events.len(),
        forall|j: int| 0 <= j < due_count(events, time) ==> (#[trigger] events[j]).0 <= time,
        due_count(events, time) < events.len() ==> events[due_count(events, time) as int].0 > time,
    decreases events.len(),
{
    if events.len() > 0 && events[0].0 <= time {
        let rest = events.drop_first();
        lemma_due_count_bounds(rest, time);
        assert forall|j: int| 0 <= j < due_count(events, time) implies (#[trigger] events[j]).0 <= time by {
            if j > 0 {
                assert(events[j] == rest[j - 1]);
            }
        }
        if due_count(events, time) < events.len() {
            assert(events[due_count(events, time) as int] == rest[due_count(rest, time) as int]);
        }
    }
}

/// One advance runs the events due at the earliest deadline and leaves the rest, later ones,
/// waiting in order.
proof fn lemma_after_advance<C>(events: Seq<(u64, C)>)
    requires
        by_deadline(events),
        events.len() > 0,
    ensures
        due_count(events, events[0].0) >= 1,
        after_advance(events) == events.skip(due_count(events, events[0].0) as int),
        forall|j: int| 0 <= j < due_count(events, events[0].0) ==> (#[trigger] events[j]).0 == events[0].0,
        forall|j: int| due_count(events, events[0].0) <= j < events.len() ==> (#[trigger] events[j]).0 > events[0].0,
        by_deadline(after_advance(events)),
{
    let t = events[0].0;
    lemma_due_count_bounds(events, t);
    let k = due_count(events, t) as int;
    assert forall|j: int| 0 <= j < k implies (#[trigger] events[j]).0 == t by {
        if j > 0 {
            assert(events[0].0 <= events[j].0);
        }
    }
    assert forall|j: int| k <= j < events.len() implies (#[trigger] events[j]).0 > t by {
        if j > k {
            assert(events[k].0 <= events[j].0);
        }
    }
    let rest = events.skip(k);
    assert forall|a: int, b: int| 0 <= a < b < rest.len() implies (#[trigger] rest[a]).0 <= (#[trigger] rest[b]).0 by {
        assert(rest[a] == events[a + k]);
        assert(rest[b] == events[b + k]);
    }
}

/// After any number of advances, what waits is what was waiting, less the events run so far,
/// still earliest first.
pub proof fn lemma_advances_shape<C>(events: Seq<(u64, C)>, n: nat)
    requires
        by_deadline(events),
    ensures
        0 <= run_by(events, n) <= events.len(),
        after_advances(events, n) == events.skip(run_by(events, n)),
        by_deadline(after_advances(events, n)),
    decreases n,
{
    if n == 0 {
        assert(events.skip(0) =~= events);
    } else {
        let m = (n - 1) as nat;
        lemma_advances_shape(events, m);
        let before = after_advances(events, m);
        let r = run_by(events, m);
        if before.len() > 0 {
            lemma_after_advance(before);
            lemma_due_count_bounds(before, before[0].0);
            let k = due_count(before, before[0].0) as int;
            assert(before.skip(k) =~= events.skip(r + k));
        }
    }
}

/// What a run of advances, with no timer added between them, does to the event first waiting
/// at position `i` with deadline `d`: it stays waiting, unmoved but for the events run before
/// it, while every advance stops short of `d`; it is run by exactly one advance, the one that
/// moves the clock to `d`, together with every other event still waiting that is due then; and
/// once run it is gone. Events due earlier are run first, and after as many advances as there
/// are events, every event has been run.
pub proof fn lemma_advances_run_each_once<C>(events: Seq<(u64, C)>, i: int, n: nat)
    requires
        by_deadline(events),
        0 <= i < events.len(),
    ensures
        after_advances(events, n) == events.skip(run_by(events, n)),
        0 <= run_by(events, n) <= run_by(events, n + 1) <= events.len(),
        run_by(events, n) < events.len() ==> run_by(events, n) < run_by(events, n + 1),
        run_by(events, n) <= i ==> forall|m: nat| m < n ==> #[trigger] advance_time(events, m) < events[i].0,
        run_by(events, n) <= i ==> (i < run_by(events, n + 1) <==> advance_time(events, n) == events[i].0),
        run_by(events, n) <= i < run_by(events, n + 1) ==> forall|j: int| 0 <= j < events.len() && events[j].0 < events[i].0 ==> j < run_by(events, n),
        run_by(events, n) >= n || run_by(events, n) == events.len(),
        n >= events.len() ==> run_by(events, n) == events.len(),
    decreases n,
{
    lemma_advances_shape(events, n);
    lemma_advances_shape(events, n + 1);
    let rn = run_by(events, n);
    let now = after_advances(events, n);
    assert(after_advances(events, n + 1) == after_advance(now));
    if now.len() > 0 {
        lemma_after_advance(now);
        lemma_due_count_bounds(now, now[0].0);
        assert(now.skip(due_count(now, now[0].0) as int).len() == now.len() - due_count(now, now[0].0));
    }
    if rn <= i {
        assert(now[i - rn] == events[i]);
        assert(now[0] == events[rn]);
        if i < run_by(events, n + 1) {
            assert(now[i - rn].0 == now[0].0);
            assert forall|j: int| 0 <= j < events.len() && events[j].0 < events[i].0 implies j < rn by {
                if j >= rn {
                    assert(now[j - rn] == events[j]);
                    assert(now[0].0 <= now[j - rn].0);
                }
            }
        } else {
            assert(now[i - rn].0 > now[0].0);
        }
    }
    if n > 0 {
        let m = (n - 1) as nat;
        lemma_advances_run_each_once(events, i, m);
        if rn <= i {
            assert forall|k: nat| k < n implies #[trigger] advance_time(events, k) < events[i].0 by {
                if k == m {
                    let before = after_advances(events, m);
                    let r = run_by(events, m);
                    assert(before[i - r] == events[i]);
                    assert(advance_time(events, m) == before[0].0);
                }
            }
        }
        assert(run_by(events, m) == events.len() || run_by(events, m) < run_by(events, n));
    }
}

/// Callbacks waiting for the clock to reach their deadlines, in nanoseconds since the clock's
/// base. Events with the same deadline fire in the order they were pushed.
pub struct Timer<C> {
    queue: Vec<(u64, C)>,
}

impl<C> Timer<C> {
    /// The events waiting, earliest first.
    pub closed spec fn events(&self) -> Seq<(u64, C)> {
        self.queue@
    }

    /// The events are kept earliest first.
    pub closed spec fn wf(&self) -> bool {
        by_deadline(self.queue@)
    }

    pub fn new() -> (t: Self)
        ensures
            t.wf(),
            t.events() == Seq::<(u64, C)>::empty(),
    {
        Timer { queue: Vec::new() }
    }

    /// Wait for `deadline` to run `callback`, after every event due no later.
    pub fn push(&mut self, deadline: u64, callback: C)
        requires
            old(self).wf(),
        ensures
            final(self).wf(),
            exists|i: int| pushed_at(old(self).events(), final(self).events(), i, deadline, callback),
    {
        let ghost before = self.queue@;
        let mut i: usize = self.queue.len();
        while i > 0 && self.queue[i - 1].0 > deadline
            invariant
                before == self.queue@,
                by_deadline(before),
                i <= before.len(),
                forall|j: int| i <= j < before.len() ==> (#[trigger] before[j]).0 > deadline,
            decreases i,
        {
            i = i - 1;
        }
        proof {
            assert forall|j: int| 0 <= j < i implies (#[trigger] before[j]).0 <= deadline by {
                if j < i - 1 {
                    assert(before[j].0 <= before[i - 1].0);
                }
            }
        }
        self.queue.insert(i, (deadline, callback));
        proof {
            let after = self.queue@;
            assert(after =~= before.insert(i as int, (deadline, callback)));
            assert forall|a: int, b: int| 0 <= a < b < after.len() implies (#[trigger] after[a]).0 <= (#[trigger] after[b]).0 by {
                if a < i && b > i {
                    assert(after[b] == before[b - 1]);
                } else if a > i {
                    assert(after[a] == before[a - 1]);
                    assert(after[b] == before[b - 1]);
                }
            }
            assert(pushed_at(before, self.queue@, i as int, deadline, callback));
            assert(pushed_at(old(self).events(), self.events(), i as int, deadline, callback));
        }
    }

    /// When the earliest event is due, if any is waiting.
    pub fn next_time(&self) -> (t: Option<u64>)
        requires
            self.wf(),
        ensures
            t is None <==> self.events().len() == 0,
            t matches Some(d) ==> d == self.events()[0].0,
            t matches Some(d) ==> forall|j: int| 0 <= j < self.events().len() ==> d <= (#[trigger] self.events()[j]).0,
    {
        if self.queue.len() == 0 {
            None
        } else {
            proof {
                assert forall|j: int| 0 <= j < self.queue@.len() implies self.queue@[0].0 <= (#[trigger] self.queue@[j]).0 by {
                    if j > 0 {
                        assert(self.queue@[0].0 <= self.queue@[j].0);
                    }
                }
            }
            Some(self.queue[0].0)
        }
    }

    /// Take out every event due at `time` or before, and hand back their callbacks, earliest
    /// first, to be run.
    pub fn fire(&mut self, time: u64) -> (due: Vec<C>)
        requires
            old(self).wf(),
        ensures
            final(self).wf(),
            exists|k: int| fired_at(old(self).events(), final(self).events(), due@, k, time),
    {
        let ghost before = self.queue@;
        let mut k: usize = 0;
        while k < self.queue.len() && self.queue[k].0 <= time
            invariant
                before == self.queue@,
                k <= before.len(),
                forall|j: int| 0 <= j < k ==> (#[trigger] before[j]).0 <= time,
            decreases before.len() - k,
        {
            k = k + 1;
        }
        proof {
            assert forall|j: int| k <= j < before.len() implies (#[trigger] before[j]).0 > time by {
                if j > k {
                    assert(before[k as int].0 <= before[j].0);
                }
            }
        }
        let mut due: Vec<C> = Vec::new();
        let mut taken: usize = 0;
        while taken < k
            invariant
                taken <= k <= before.len(),
                self.queue@ == before.skip(taken as int),
                due@ == callbacks(before.take(taken as int)),
            decreases k - taken,
        {
            let (_, callback) = self.queue.remove(0);
            due.push(callback);
            proof {
                assert(self.queue@ =~= before.skip(taken + 1));
                assert(callbacks(before.take(taken + 1)) =~= callbacks(before.take(taken as int)).push(before[taken as int].1));
            }
            taken = taken + 1;
        }
        proof {
            assert forall|a: int, b: int| 0 <= a < b < self.queue@.len() implies (#[trigger] self.queue@[a]).0 <= (#[trigger] self.queue@[b]).0 by {
                assert(self.queue@[a] == before[a + k]);
                assert(self.queue@[b] == before[b + k]);
            }
        }
        assert(fired_at(before, self.queue@, due@, k as int, time));
        assert(fired_at(old(self).events(), self.events(), due@, k as int, time));
        due
    }
}

impl<C> Default for Timer<C> {
    fn default() -> (t: Self)
        ensures
            t.wf(),
            t.events() == Seq::<(u64, C)>::empty(),
    {
        Self::new()
    }
}

/// A sleep or timeout ran out before what it waited for finished.
#[derive(Debug, PartialEq, Eq)]
pub struct Elapsed;

/// A simulated clock and the callbacks waiting on it. The clock stands still until it is
/// advanced, and it is only ever advanced to the next deadline.
pub struct TimeHandle<C> {
    timer: Timer<C>,
    /// Nanoseconds of simulated time since the clock's base.
    elapsed: u64,
}

impl<C> TimeHandle<C> {
    /// The events waiting, earliest first.
    pub closed spec fn events(&self) -> Seq<(u64, C)> {
        self.timer.events()
    }

    /// The simulated time, in nanoseconds since the clock's base.
    pub closed spec fn clock(&self) -> u64 {
        self.elapsed
    }

    pub closed spec fn wf(&self) -> bool {
        self.timer.wf()
    }

    /// How much simulated time has passed.
    pub fn elapsed(&self) -> (e: u64)
        ensures
            e == self.clock(),
    {
        self.elapsed
    }

    /// Whether a sleep until `deadline` is over.
    pub fn is_due(&self, deadline: u64) -> (b: bool)
        ensures
            b == (self.clock() >= deadline),
    {
        self.elapsed >= deadline
    }

    /// The simulated instant, in nanoseconds since the clock's base.
    pub fn now(&self) -> (t: u64)
        ensures
            t == self.clock(),
    {
        self.elapsed
    }

    /// A sleep of `duration` nanoseconds from now, as the deadline that its polls
    /// ([`TimeHandle::sleep_until`]) wait for.
    pub fn sleep(&self, duration: u64) -> (d: u64)
        requires
            self.clock() + duration <= u64::MAX,
        ensures
            d == self.clock() + duration,
    {
        self.elapsed + duration
    }

    /// Run `callback` once the clock reaches `deadline`.
    pub fn add_timer(&mut self, deadline: u64, callback: C)
        requires
            old(self).wf(),
        ensures
            final(self).wf(),
            final(self).clock() == old(self).clock(),
            exists|i: int| pushed_at(old(self).events(), final(self).events(), i, deadline, callback),
    {
        let ghost before = self.timer.events();
        self.timer.push(deadline, callback);
        proof {
            let i = choose|i: int| pushed_at(before, self.timer.events(), i, deadline, callback);
            assert(pushed_at(old(self).events(), self.events(), i, deadline, callback));
        }
    }

    /// One poll of a sleep until `deadline`: over once the clock has reached the deadline;
    /// otherwise `waker` waits for the deadline and the sleep is still pending.
    pub fn sleep_until(&mut self, deadline: u64, waker: C) -> (ready: bool)
        requires
            old(self).wf(),
        ensures
            final(self).wf(),
            final(self).clock() == old(self).clock(),
            ready == (old(self).clock() >= deadline),
            ready ==> final(self).events() == old(self).events(),
            !ready ==> exists|i: int| pushed_at(old(self).events(), final(self).events(), i, deadline, waker),
    {
        if self.is_due(deadline) {
            true
        } else {
            self.add_timer(deadline, waker);
            false
        }
    }
}

/// The owner of the simulated clock: what waits on it goes through its handle, and only the
/// runtime moves it on.
pub struct TimeRuntime<C> {
    handle: TimeHandle<C>,
}

impl<C> TimeRuntime<C> {
    /// The events waiting, earliest first.
    pub closed spec fn events(&self) -> Seq<(u64, C)> {
        self.handle.events()
    }

    /// The simulated time, in nanoseconds since the clock's base.
    pub closed spec fn clock(&self) -> u64 {
        self.handle.clock()
    }

    pub closed spec fn wf(&self) -> bool {
        self.handle.wf()
    }

    pub closed spec fn spec_handle(&self) -> TimeHandle<C> {
        self.handle
    }

    pub fn new() -> (r: Self)
        ensures
            r.wf(),
            r.events() == Seq::<(u64, C)>::empty(),
            r.clock() == 0,
    {
        TimeRuntime { handle: TimeHandle { timer: Timer::new(), elapsed: 0 } }
    }

    /// The handle through which the clock is read and waited on.
    pub fn handle(&self) -> (h: &TimeHandle<C>)
        ensures
            h.wf() == self.wf(),
            h.events() == self.events(),
            h.clock() == self.clock(),
    {
        &self.handle
    }

    /// The handle, to add timers or poll sleeps through.
    pub fn handle_mut(&mut self) -> (h: &mut TimeHandle<C>)
        ensures
            h.wf() == old(self).wf(),
            h.events() == old(self).events(),
            h.clock() == old(self).clock(),
            final(self).spec_handle() == *final(h),
    {
        &mut self.handle
    }

    /// How much simulated time has passed.
    pub fn elapsed(&self) -> (e: u64)
        ensures
            e == self.clock(),
    {
        self.handle.elapsed
    }

    /// The simulated instant, in nanoseconds since the clock's base.
    pub fn now(&self) -> (t: u64)
        ensures
            t == self.clock(),
    {
        self.handle.elapsed
    }

    /// Move the clock to the earliest deadline and hand back the callbacks due by then,
    /// earliest first, to be run; none and the clock where it was when nothing is waiting.
    pub fn advance(&mut self) -> (r: (bool, Vec<C>))
        requires
            old(self).wf(),
        ensures
            final(self).wf(),
            r.0 <==> old(self).events().len() > 0,
            !r.0 ==> r.1@.len() == 0 && final(self).clock() == old(self).clock() && final(self).events() == old(self).events(),
            r.0 ==> final(self).clock() == old(self).events()[0].0
                && r.1@.len() > 0
                && exists|k: int| fired_at(old(self).events(), final(self).events(), r.1@, k, final(self).clock()),
            r.0 ==> forall|j: int| 0 <= j < r.1@.len() ==> (#[trigger] old(self).events()[j]).0 == final(self).clock(),
            r.0 ==> final(self).events() == old(self).events().skip(r.1@.len() as int),
            final(self).events() == after_advance(old(self).events()),
    {
        match self.handle.timer.next_time() {
            Some(time) => {
                let ghost before = self.handle.timer.events();
                let due = self.handle.timer.fire(time);
                let ghost k = choose|k: int| fired_at(before, self.handle.timer.events(), due@, k, time);
                proof {
                    if k == 0 {
                        assert(before[0].0 <= time);
                    }
                    assert(k > 0);
                    assert(due@.len() == k);
                    assert(fired_at(old(self).events(), self.events(), due@, k, time));
                    lemma_due_count(before, k, time);
                }
                self.handle.elapsed = time;
                assert(self.clock() == time);
                assert(fired_at(old(self).events(), self.events(), due@, k, self.clock()));
                (true, due)
            },
            None => (false, Vec::new()),
        }
    }
}

impl<C> Default for TimeRuntime<C> {
    fn default() -> (r: Self)
        ensures
            r.wf(),
            r.events() == Seq::<(u64, C)>::empty(),
            r.clock() == 0,
    {
        Self::new()
    }
}

} // verus!
