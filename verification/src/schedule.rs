//! Timers aligned to a fixed epoch.
//!
//! Instants and periods are unsigned integers in one unit of the caller's
//! choice (seconds, milliseconds, ...), counted from the epoch. A timer of
//! period `p` is due only at multiples of `p`, whenever it was built.

use vstd::arithmetic::div_mod::*;
use vstd::prelude::*;

verus! {

/// The first point of the grid `start, start + step, start + 2 * step, ...`
/// that is not before `now`.
pub open spec fn next_ts(start: int, now: int, step: int) -> int {
    let behind = (now - start) % step;
    if behind == 0 {
        now
    } else {
        now + step - behind
    }
}

/// `next_ts` is on the grid, not before `now`, less than one step after it,
/// and no grid point lies between `now` and it.
pub proof fn lemma_next_ts(start: int, now: int, step: int)
    requires
        step > 0,
        start <= now,
    ensures
        now <= next_ts(start, now, step) < now + step,
        (next_ts(start, now, step) - start) % step == 0,
        forall|t: int| now <= t && #[trigger] ((t - start) % step) == 0 ==> next_ts(start, now, step) <= t,
{
    let d = now - start;
    let behind = d % step;
    let r = next_ts(start, now, step);
    lemma_mod_bound(d, step);
    lemma_fundamental_div_mod(d, step);
    let q = d / step;
    if behind == 0 {
        assert((r - start) % step == 0);
    } else {
        assert(r - start == step * (q + 1)) by (nonlinear_arith)
            requires
                r - start == d + step - behind,
                d == step * q + behind,
        ;
        lemma_mod_multiples_basic(q + 1, step);
        assert((step * (q + 1)) % step == 0) by {
            assert(step * (q + 1) == (q + 1) * step) by (nonlinear_arith);
        }
    }
    assert forall|t: int| now <= t && #[trigger] ((t - start) % step) == 0 implies r <= t by {
        if t < r {
            // `t - start` and `d` would share a quotient, hence a remainder
            let e = t - start;
            lemma_fundamental_div_mod(e, step);
            let k = e / step;
            assert(e == step * k);
            assert(step * q <= d <= e < step * (q + 1)) by (nonlinear_arith)
                requires
                    d == step * q + behind,
                    0 <= behind < step,
                    d <= e,
                    e < d + step - behind,
                    behind != 0,
            ;
            assert(q <= k && k < q + 1) by (nonlinear_arith)
                requires
                    step > 0,
                    step * q <= step * k,
                    step * k < step * (q + 1),
            ;
            assert(e == d - behind);
            assert(false);
        }
    }
}

/// A grid point of `step` stays one when the grid is counted from another of
/// its points.
pub proof fn lemma_grid_shift(start: int, t: int, step: int)
    requires
        step > 0,
        start % step == 0,
    ensures
        (t - start) % step == 0 <==> t % step == 0,
{
    lemma_fundamental_div_mod(start, step);
    let q = start / step;
    assert(start == q * step) by (nonlinear_arith)
        requires
            start == step * q + 0,
    ;
    lemma_mod_multiples_vanish(-q, t, step);
    assert(step * (-q) + t == t - start) by (nonlinear_arith)
        requires
            start == q * step,
    ;
}

/// Computes [`next_ts`] by one remainder, however far `now` is from `start`.
pub fn get_next_ts(start: u64, now: u64, step: u64) -> (next: u64)
    requires
        step > 0,
        start <= now,
        next_ts(start as int, now as int, step as int) <= u64::MAX,
    ensures
        next == next_ts(start as int, now as int, step as int),
{
    let behind: u64 = (now - start) % step;
    if behind == 0 {
        now
    } else {
        now + (step - behind)
    }
}

/// What one look at a timer found.
#[derive(Clone, Copy, Debug, PartialEq, Eq, Structural)]
pub enum Tick {
    /// The deadline lies ahead: nothing to do.
    Idle,
    /// The timer was due and fires once. `skipped` counts the deadlines that
    /// had passed as well and are dropped, not replayed.
    Fired { skipped: u64 },
}

/// A period and the next deadline on its grid.
pub struct Timer {
    delay: u64,
    next_timestamp: u64,
}

impl Timer {
    pub closed spec fn delay(&self) -> u64 {
        self.delay
    }

    pub closed spec fn deadline(&self) -> u64 {
        self.next_timestamp
    }

    /// The period is positive and the deadline is a multiple of it.
    pub open spec fn wf(&self) -> bool {
        &&& self.delay() > 0
        &&& self.deadline() % self.delay() == 0
    }

    pub open spec fn due(&self, now: u64) -> bool {
        self.deadline() <= now
    }

    /// The deadline after a look at `now`: unchanged while it lies ahead;
    /// else one period later; and where that has passed too, the first
    /// multiple of the period not before `now`.
    pub open spec fn after(&self, now: u64) -> int {
        let advanced = self.deadline() + self.delay();
        if !self.due(now) {
            self.deadline() as int
        } else if advanced > now {
            advanced
        } else {
            next_ts(advanced, now as int, self.delay() as int)
        }
    }

    /// The deadlines strictly between the one that fired and the next one.
    pub open spec fn skipped(&self, now: u64) -> int {
        (self.after(now) - self.deadline()) / (self.delay() as int) - 1
    }

    pub open spec fn tick(&self, now: u64) -> Tick {
        if self.due(now) {
            Tick::Fired { skipped: self.skipped(now) as u64 }
        } else {
            Tick::Idle
        }
    }

    /// Whatever `now` is, the deadline after a look is a multiple of the
    /// period again and, where the timer fired, lies `skipped + 1` periods
    /// after the deadline that fired and less than one period after `now`.
    pub proof fn lemma_after(&self, now: u64)
        requires
            self.wf(),
        ensures
            self.after(now) % (self.delay() as int) == 0,
            self.due(now) ==> now < self.after(now) + self.delay() && self.after(now) <= now
                + self.delay(),
            self.due(now) ==> self.skipped(now) >= 0 && self.after(now) == self.deadline() + (
            self.skipped(now) + 1) * self.delay(),
            self.due(now) && self.deadline() + self.delay() <= now ==> now <= self.after(now) < now
                + self.delay(),
    {
        let p = self.delay() as int;
        let d = self.deadline() as int;
        let a = self.after(now);
        lemma_fundamental_div_mod(d, p);
        let q = d / p;
        assert(d == p * q);
        if self.due(now) {
            lemma_mod_multiples_basic(q + 1, p);
            assert(d + p == (q + 1) * p) by (nonlinear_arith)
                requires
                    d == p * q,
            ;
            if d + p <= now {
                lemma_next_ts(d + p, now as int, p);
                lemma_grid_shift(d + p, a, p);
            }
            lemma_fundamental_div_mod(a, p);
            let m = a / p;
            assert(a == p * m);
            assert(a - d == p * (m - q)) by (nonlinear_arith)
                requires
                    a == p * m,
                    d == p * q,
            ;
            lemma_div_multiples_vanish(m - q, p);
            assert((m - q) * p == p * (m - q)) by (nonlinear_arith);
            assert((a - d) / p == m - q);
            assert(m - q >= 1) by (nonlinear_arith)
                requires
                    a - d == p * (m - q),
                    a - d >= p,
                    p > 0,
            ;
            assert(a == d + ((m - q - 1) + 1) * p) by (nonlinear_arith)
                requires
                    a - d == p * (m - q),
            ;
        }
    }

    /// A timer of period `delay` whose first deadline is the first multiple
    /// of `delay` not before `now`.
    pub fn build_aligned(delay: u64, now: u64) -> (timer: Timer)
        requires
            delay > 0,
            now + delay <= u64::MAX,
        ensures
            timer.wf(),
            timer.delay() == delay,
            timer.deadline() == next_ts(0, now as int, delay as int),
    {
        proof {
            lemma_next_ts(0, now as int, delay as int);
        }
        Timer { delay, next_timestamp: get_next_ts(0, now, delay) }
    }

    /// Looks at the clock. A due timer fires exactly once and moves its
    /// deadline past or onto `now`; missed deadlines are counted, not replayed.
    pub fn check(&mut self, now: u64) -> (tick: Tick)
        requires
            old(self).wf(),
            now + old(self).delay() <= u64::MAX,
        ensures
            final(self).wf(),
            final(self).delay() == old(self).delay(),
            final(self).deadline() == old(self).after(now),
            tick == old(self).tick(now),
    {
        proof {
            self.lemma_after(now);
        }
        if self.next_timestamp <= now {
            let fired_at: u64 = self.next_timestamp;
            let mut next: u64 = fired_at + self.delay;
            if next <= now {
                proof {
                    lemma_next_ts(next as int, now as int, self.delay as int);
                }
                next = get_next_ts(next, now, self.delay);
            }
            self.next_timestamp = next;
            Tick::Fired { skipped: (next - fired_at) / self.delay - 1 }
        } else {
            Tick::Idle
        }
    }
}

/// The earliest of the deadlines of `timers`, `None` where there is none.
pub open spec fn earliest(timers: Seq<Timer>) -> Option<u64>
    decreases timers.len(),
{
    if timers.len() == 0 {
        None
    } else {
        let last = timers.last().deadline();
        match earliest(timers.drop_last()) {
            Some(m) if m <= last => Some(m),
            _ => Some(last),
        }
    }
}

/// `earliest` is a deadline of one of the timers and none is before it.
pub proof fn lemma_earliest(timers: Seq<Timer>)
    ensures
        earliest(timers) is None <==> timers.len() == 0,
        earliest(timers) matches Some(m) ==> {
            &&& exists|i: int| 0 <= i < timers.len() && #[trigger] timers[i].deadline() == m
            &&& forall|i: int| 0 <= i < timers.len() ==> m <= #[trigger] timers[i].deadline()
        },
    decreases timers.len(),
{
    if timers.len() > 0 {
        let front = timers.drop_last();
        lemma_earliest(front);
        let m = earliest(timers)->Some_0;
        if m == timers.last().deadline() {
            assert(timers[timers.len() - 1].deadline() == m);
        } else {
            let i = choose|i: int| 0 <= i < front.len() && #[trigger] front[i].deadline() == m;
            assert(timers[i].deadline() == m);
        }
        assert forall|i: int| 0 <= i < timers.len() implies m <= #[trigger] timers[i].deadline() by {
            if i < front.len() {
                assert(front[i].deadline() == timers[i].deadline());
            }
        }
    }
}

/// Timers in the order in which they were registered.
pub struct Scheduler {
    timers: Vec<Timer>,
    next_timestamp: Option<u64>,
}

impl Scheduler {
    pub closed spec fn timers(&self) -> Seq<Timer> {
        self.timers@
    }

    pub closed spec fn next_deadline(&self) -> Option<u64> {
        self.next_timestamp
    }

    /// Every timer is well formed and the remembered deadline is the
    /// earliest one.
    pub open spec fn wf(&self) -> bool {
        &&& forall|i: int| 0 <= i < self.timers().len() ==> #[trigger] self.timers()[i].wf()
        &&& self.next_deadline() == earliest(self.timers())
    }

    /// One timer per period, in the order given, each with its first
    /// deadline on the first multiple of its period not before `now`.
    pub fn build_aligned(params: Vec<u64>, now: u64) -> (scheduler: Scheduler)
        requires
            forall|i: int| 0 <= i < params.len() ==> params[i] > 0 && now + params[i] <= u64::MAX,
        ensures
            scheduler.wf(),
            scheduler.timers().len() == params.len(),
            forall|i: int|
                0 <= i < params.len() ==> {
                    &&& (#[trigger] scheduler.timers()[i]).delay() == params[i]
                    &&& scheduler.timers()[i].deadline() == next_ts(
                        0,
                        now as int,
                        params[i] as int,
                    )
                },
    {
        let mut timers: Vec<Timer> = Vec::new();
        let mut next_timestamp: Option<u64> = None;
        let mut i: usize = 0;
        while i < params.len()
            invariant
                i <= params.len(),
                timers.len() == i,
                forall|k: int| 0 <= k < params.len() ==> params[k] > 0 && now + params[k] <= u64::MAX,
                forall|k: int|
                    0 <= k < i ==> {
                        &&& (#[trigger] timers[k]).wf()
                        &&& timers[k].delay() == params[k]
                        &&& timers[k].deadline() == next_ts(0, now as int, params[k] as int)
                    },
                next_timestamp == earliest(timers@),
            decreases params.len() - i,
        {
            let timer = Timer::build_aligned(params[i], now);
            next_timestamp = sooner(next_timestamp, timer.next_timestamp);
            proof {
                assert(timers@.push(timer).drop_last() == timers@);
            }
            timers.push(timer);
            i += 1;
        }
        Scheduler { timers, next_timestamp }
    }

    /// Looks at every timer once, in registration order, and says for each
    /// whether it fired. A timer fires at most once however late `now` is.
    pub fn run_pending(&mut self, now: u64) -> (ticks: Vec<Tick>)
        requires
            old(self).wf(),
            forall|i: int|
                0 <= i < old(self).timers().len() ==> now + (#[trigger] old(self).timers()[i]).delay()
                    <= u64::MAX,
        ensures
            final(self).wf(),
            final(self).timers().len() == old(self).timers().len(),
            ticks.len() == old(self).timers().len(),
            forall|i: int|
                0 <= i < ticks.len() ==> {
                    &&& #[trigger] ticks[i] == old(self).timers()[i].tick(now)
                    &&& final(self).timers()[i].delay() == old(self).timers()[i].delay()
                    &&& final(self).timers()[i].deadline() == old(self).timers()[i].after(now)
                },
    {
        let mut ticks: Vec<Tick> = Vec::new();
        let mut next_timestamp: Option<u64> = None;
        let mut i: usize = 0;
        while i < self.timers.len()
            invariant
                i <= self.timers.len(),
                self.timers.len() == old(self).timers.len(),
                ticks.len() == i,
                forall|k: int|
                    0 <= k < self.timers.len() ==> now + (#[trigger] old(self).timers[k]).delay()
                        <= u64::MAX,
                forall|k: int| 0 <= k < self.timers.len() ==> (#[trigger] old(self).timers[k]).wf(),
                forall|k: int| i <= k < self.timers.len() ==> self.timers[k] == old(self).timers[k],
                forall|k: int| 0 <= k < i ==> #[trigger] ticks[k] == old(self).timers[k].tick(now),
                forall|k: int|
                    0 <= k < i ==> {
                        &&& (#[trigger] self.timers[k]).wf()
                        &&& self.timers[k].delay() == old(self).timers[k].delay()
                        &&& self.timers[k].deadline() == old(self).timers[k].after(now)
                    },
                next_timestamp == earliest(self.timers@.take(i as int)),
            decreases self.timers.len() - i,
        {
            let mut timer = Timer {
                delay: self.timers[i].delay,
                next_timestamp: self.timers[i].next_timestamp,
            };
            let tick = timer.check(now);
            next_timestamp = sooner(next_timestamp, timer.next_timestamp);
            ticks.push(tick);
            let ghost before = self.timers@;
            self.timers.set(i, timer);
            proof {
                assert(self.timers@.take(i + 1).drop_last() == before.take(i as int));
            }
            i += 1;
        }
        proof {
            assert(self.timers@.take(i as int) == self.timers@);
        }
        self.next_timestamp = next_timestamp;
        ticks
    }

    /// Alignment. Every deadline of a scheduler is a multiple of the period
    /// of its timer, whenever the scheduler was built and whatever ticks it
    /// has seen; and the earliest deadline is one of them.
    pub proof fn law_aligned(&self)
        requires
            self.wf(),
        ensures
            forall|i: int|
                0 <= i < self.timers().len() ==> (#[trigger] self.timers()[i]).deadline()
                    % self.timers()[i].delay() == 0,
            self.next_deadline() matches Some(next) ==> exists|i: int|
                0 <= i < self.timers().len() && (#[trigger] self.timers()[i]).deadline() == next
                    && next % self.timers()[i].delay() == 0,
    {
        lemma_earliest(self.timers());
        assert forall|i: int| 0 <= i < self.timers().len() implies (#[trigger] self.timers()[i]).deadline()
            % self.timers()[i].delay() == 0 by {
            assert(self.timers()[i].wf());
        }
        if let Some(next) = self.next_deadline() {
            let i = choose|i: int|
                0 <= i < self.timers().len() && #[trigger] self.timers()[i].deadline() == next;
            assert(self.timers()[i].wf());
        }
    }

    /// The next deadline of each timer, in registration order.
    pub fn deadlines(&self) -> (deadlines: Vec<u64>)
        ensures
            deadlines.len() == self.timers().len(),
            forall|i: int|
                0 <= i < deadlines.len() ==> #[trigger] deadlines[i] == self.timers()[i].deadline(),
    {
        let mut deadlines: Vec<u64> = Vec::new();
        let mut i: usize = 0;
        while i < self.timers.len()
            invariant
                i <= self.timers.len(),
                deadlines.len() == i,
                forall|k: int| 0 <= k < i ==> #[trigger] deadlines[k] == self.timers[k].deadline(),
            decreases self.timers.len() - i,
        {
            deadlines.push(self.timers[i].next_timestamp);
            i += 1;
        }
        deadlines
    }

    /// The earliest deadline of all timers, `None` without timers. The
    /// caller sleeps until then before the next look.
    pub fn get_next_timestamp(&self) -> (next: Option<u64>)
        requires
            self.wf(),
        ensures
            next == earliest(self.timers()),
    {
        self.next_timestamp
    }
}

/// The smaller of a minimum so far and one more deadline.
fn sooner(so_far: Option<u64>, deadline: u64) -> (min: Option<u64>)
    ensures
        min == (match so_far {
            Some(m) if m <= deadline => Some(m),
            _ => Some(deadline),
        }),
{
    match so_far {
        Some(m) => if m <= deadline {
            Some(m)
        } else {
            Some(deadline)
        },
        None => Some(deadline),
    }
}

} // verus!
