//! When to look at the directory: at a steady interval whatever happens, and a short while after
//! the system reports a change. Time is a count of milliseconds that the caller passes in.

use vstd::prelude::*;

verus! {

/// The state of a scheduler.
pub struct Schedule {
    /// The time between two regular sweeps.
    pub interval: u64,
    /// The time between a reported change and the sweep it causes.
    pub debounce: u64,
    /// When the next regular sweep is due.
    pub poll_due: u64,
    /// When the sweep for reported changes is due, if any were reported.
    pub fs_due: Option<u64>,
    /// Whether any sweep was handed out.
    pub started: bool,
}

/// The interval in force for a wanted one.
pub open spec fn floored(interval: u64) -> u64 {
    if interval < crate::POLL_INTERVAL_FLOOR_MS {
        crate::POLL_INTERVAL_FLOOR_MS as u64
    } else {
        interval
    }
}

/// A point in time, or the last one that can be told.
pub open spec fn at_most_max(t: int) -> u64 {
    if t > u64::MAX {
        u64::MAX
    } else {
        t as u64
    }
}

/// A scheduler that has handed out nothing; its first sweep is due at once.
pub open spec fn starting(interval: u64, debounce: u64, now: u64) -> Schedule {
    Schedule { interval: floored(interval), debounce, poll_due: now, fs_due: None, started: false }
}

/// Whether the sweep for reported changes is due.
pub open spec fn fs_ready(s: Schedule, now: u64) -> bool {
    s.fs_due matches Some(due) && now >= due
}

/// Whether a sweep is due.
pub open spec fn is_due(s: Schedule, now: u64) -> bool {
    now >= s.poll_due || fs_ready(s, now)
}

/// The first point after `now` on the grid of `interval` steps from `due`.
pub open spec fn next_on_grid(due: int, interval: int, now: int) -> int {
    due + ((now - due) / interval + 1) * interval
}

/// The scheduler once it was asked at `now`.
pub open spec fn polled(s: Schedule, now: u64) -> Schedule {
    if is_due(s, now) {
        Schedule {
            poll_due: if now >= s.poll_due {
                at_most_max(next_on_grid(s.poll_due as int, s.interval as int, now as int))
            } else {
                s.poll_due
            },
            fs_due: if fs_ready(s, now) {
                None
            } else {
                s.fs_due
            },
            started: true,
            ..s
        }
    } else {
        s
    }
}

/// The scheduler once a change was reported at `now`. A sweep that is already due for a change is
/// not put off.
pub open spec fn notified(s: Schedule, now: u64) -> Schedule {
    if s.fs_due is None {
        Schedule { fs_due: Some(at_most_max(now + s.debounce)), ..s }
    } else {
        s
    }
}

/// The scheduler once it was given another interval at `now`.
pub open spec fn retuned(s: Schedule, interval: u64, now: u64) -> Schedule {
    if floored(interval) == s.interval {
        s
    } else {
        Schedule {
            interval: floored(interval),
            poll_due: at_most_max(now + floored(interval)),
            ..s
        }
    }
}

/// The time from `now` to `due`.
pub open spec fn time_until(due: u64, now: u64) -> int {
    if due > now {
        due - now
    } else {
        0
    }
}

/// The time until the next sweep.
pub open spec fn until_next(s: Schedule, now: u64) -> int {
    let poll = time_until(s.poll_due, now);
    match s.fs_due {
        Some(due) => if time_until(due, now) < poll {
            time_until(due, now)
        } else {
            poll
        },
        None => poll,
    }
}

/// Decides when a sweep is due.
#[derive(Debug)]
pub struct SweepScheduler {
    poll_interval_ms: u64,
    debounce_ms: u64,
    next_poll_due: u64,
    fs_due: Option<u64>,
    started: bool,
}

impl View for SweepScheduler {
    type V = Schedule;

    closed spec fn view(&self) -> Schedule {
        Schedule {
            interval: self.poll_interval_ms,
            debounce: self.debounce_ms,
            poll_due: self.next_poll_due,
            fs_due: self.fs_due,
            started: self.started,
        }
    }
}

impl SweepScheduler {
    /// The time between a reported change and the sweep it causes.
    pub const DEFAULT_DEBOUNCE_MS: u64 = 150;

    /// The interval is never shorter than the floor.
    #[verifier::type_invariant]
    closed spec fn wf(self) -> bool {
        self.poll_interval_ms >= crate::POLL_INTERVAL_FLOOR_MS
    }

    /// A scheduler whose first sweep is due at once.
    pub fn new(poll_interval_ms: u64, now_ms: u64) -> (r: Self)
        ensures
            r@ == starting(poll_interval_ms, Self::DEFAULT_DEBOUNCE_MS, now_ms),
    {
        Self::with_debounce(poll_interval_ms, Self::DEFAULT_DEBOUNCE_MS, now_ms)
    }

    /// A scheduler whose first sweep is due at once, with another debounce time.
    pub fn with_debounce(poll_interval_ms: u64, debounce_ms: u64, now_ms: u64) -> (r: Self)
        ensures
            r@ == starting(poll_interval_ms, debounce_ms, now_ms),
    {
        SweepScheduler {
            poll_interval_ms: at_least_floor(poll_interval_ms),
            debounce_ms,
            next_poll_due: now_ms,
            fs_due: None,
            started: false,
        }
    }

    /// The time between two regular sweeps.
    pub fn poll_interval_ms(&self) -> (r: u64)
        ensures
            r == self@.interval,
            r >= crate::POLL_INTERVAL_FLOOR_MS,
    {
        proof {
            use_type_invariant(self);
        }
        self.poll_interval_ms
    }

    /// Takes note of a reported change.
    pub fn note_fs_event(&mut self, now_ms: u64)
        ensures
            final(self)@ == notified(old(self)@, now_ms),
    {
        proof {
            use_type_invariant(&*self);
        }
        if self.fs_due.is_none() {
            self.fs_due = Some(now_ms.saturating_add(self.debounce_ms));
        }
    }

    /// Whether to sweep now. One sweep answers for everything that is due.
    pub fn poll(&mut self, now_ms: u64) -> (r: bool)
        ensures
            r == is_due(old(self)@, now_ms),
            final(self)@ == polled(old(self)@, now_ms),
    {
        proof {
            use_type_invariant(&*self);
        }
        let poll_due = now_ms >= self.next_poll_due;
        let fs_is_ready = match self.fs_due {
            Some(due) => now_ms >= due,
            None => false,
        };
        if !poll_due && !fs_is_ready {
            return false;
        }
        if poll_due {
            self.next_poll_due = next_slot(self.next_poll_due, self.poll_interval_ms, now_ms);
        }
        if fs_is_ready {
            self.fs_due = None;
        }
        self.started = true;
        true
    }

    /// Whether any sweep was handed out.
    pub fn has_started(&self) -> (r: bool)
        ensures
            r == self@.started,
    {
        self.started
    }

    /// Changes the interval. The next regular sweep then comes one new interval from now.
    pub fn set_poll_interval_ms(&mut self, poll_interval_ms: u64, now_ms: u64)
        ensures
            final(self)@ == retuned(old(self)@, poll_interval_ms, now_ms),
    {
        proof {
            use_type_invariant(&*self);
        }
        let clamped = at_least_floor(poll_interval_ms);
        if clamped == self.poll_interval_ms {
            return;
        }
        self.poll_interval_ms = clamped;
        self.next_poll_due = now_ms.saturating_add(clamped);
    }

    /// The time until the next sweep, 0 where one is due.
    pub fn ms_until_next(&self, now_ms: u64) -> (r: u64)
        ensures
            r == until_next(self@, now_ms),
    {
        let poll_in = self.next_poll_due.saturating_sub(now_ms);
        match self.fs_due {
            Some(due) => {
                let fs_in = due.saturating_sub(now_ms);
                if fs_in < poll_in {
                    fs_in
                } else {
                    poll_in
                }
            },
            None => poll_in,
        }
    }
}

fn at_least_floor(interval: u64) -> (r: u64)
    ensures
        r == floored(interval),
{
    if interval < crate::POLL_INTERVAL_FLOOR_MS as u64 {
        crate::POLL_INTERVAL_FLOOR_MS as u64
    } else {
        interval
    }
}

/// The first point after `now` on the grid of `interval` steps from `due`.
fn next_slot(due: u64, interval: u64, now: u64) -> (r: u64)
    requires
        due <= now,
        interval > 0,
    ensures
        r == at_most_max(next_on_grid(due as int, interval as int, now as int)),
{
    proof {
        lemma_next_on_grid(due as int, interval as int, now as int);
    }
    let steps: u128 = ((now - due) / interval) as u128 + 1;
    let ahead: u128 = steps * interval as u128;
    let t: u128 = due as u128 + ahead;
    if t > u64::MAX as u128 {
        u64::MAX
    } else {
        t as u64
    }
}

/// The next point on the grid lies after `now`, by one interval at most, and a whole number of
/// intervals from the last.
proof fn lemma_next_on_grid(due: int, interval: int, now: int)
    requires
        due <= now,
        interval > 0,
    ensures
        now < next_on_grid(due, interval, now) <= now + interval,
        (next_on_grid(due, interval, now) - due) % interval == 0,
{
    let x = now - due;
    let q = x / interval;
    assert(q * interval <= x < q * interval + interval) by (nonlinear_arith)
        requires
            interval > 0,
            q == x / interval,
    ;
    assert((q + 1) * interval == q * interval + interval) by (nonlinear_arith);
    assert(((q + 1) * interval) % interval == 0) by (nonlinear_arith)
        requires
            interval > 0,
    ;
}

// ---------------------------------------------------------------------------------------------
// Laws
// ---------------------------------------------------------------------------------------------

/// The first sweep is due at once.
pub proof fn first_sweep_is_due_at_once(interval: u64, debounce: u64, start: u64, now: u64)
    requires
        start <= now,
    ensures
        is_due(starting(interval, debounce, start), now),
{
}

/// No deadline causes two sweeps: once one was handed out, none is due at the same moment. (The
/// last moment that can be told is the exception: nothing comes after it.)
pub proof fn one_sweep_per_deadline(s: Schedule, now: u64)
    requires
        s.interval > 0,
        now < u64::MAX,
    ensures
        !is_due(polled(s, now), now),
{
    if now >= s.poll_due {
        lemma_next_on_grid(s.poll_due as int, s.interval as int, now as int);
    }
}

/// Late calls do not shift the regular sweeps: the next one is due within one interval, and a whole
/// number of intervals after the last.
pub proof fn regular_sweeps_do_not_drift(s: Schedule, now: u64)
    requires
        s.interval > 0,
        s.poll_due <= now,
        now + s.interval <= u64::MAX,
    ensures
        now < polled(s, now).poll_due <= now + s.interval,
        (polled(s, now).poll_due - s.poll_due) % (s.interval as int) == 0,
{
    lemma_next_on_grid(s.poll_due as int, s.interval as int, now as int);
}

/// A burst of changes causes one sweep, timed from the first of them: a steady writer cannot put it
/// off.
pub proof fn a_burst_is_timed_from_its_first_change(s: Schedule, first: u64, later: u64)
    requires
        s.fs_due is None,
    ensures
        notified(notified(s, first), later) == notified(s, first),
        notified(s, first).fs_due == Some(at_most_max(first + s.debounce)),
        is_due(notified(s, first), at_most_max(first + s.debounce)),
{
}

/// There is no time left exactly when a sweep is due.
pub proof fn no_time_left_means_due(s: Schedule, now: u64)
    ensures
        until_next(s, now) == 0 <==> is_due(s, now),
{
}

/// A sweep is due once one of the two times has come, and stays due until it was asked for. Being
/// asked for it settles what was due and nothing else.
pub proof fn a_sweep_settles_what_was_due(s: Schedule, now: u64, later: u64)
    requires
        s.interval > 0,
        now < u64::MAX,
    ensures
        is_due(s, now) == (now >= s.poll_due || (s.fs_due is Some && now >= s.fs_due->0)),
        is_due(s, now) && now <= later ==> is_due(s, later),
        !is_due(s, now) ==> polled(s, now) == s,
        is_due(s, now) ==> polled(s, now).started,
        s.started ==> polled(s, now).started,
        polled(s, now).interval == s.interval && polled(s, now).debounce == s.debounce,
        s.fs_due is Some && now >= s.fs_due->0 ==> polled(s, now).fs_due is None,
        !(s.fs_due is Some && now >= s.fs_due->0) ==> polled(s, now).fs_due == s.fs_due,
        now < s.poll_due ==> polled(s, now).poll_due == s.poll_due,
        now >= s.poll_due ==> polled(s, now).poll_due > now,
{
    if now >= s.poll_due {
        lemma_next_on_grid(s.poll_due as int, s.interval as int, now as int);
    }
}

/// A new scheduler sweeps at once, and its interval is never shorter than a tenth of a second.
pub proof fn a_scheduler_starts_at_once(interval: u64, debounce: u64, now: u64)
    ensures
        starting(interval, debounce, now).poll_due == now,
        starting(interval, debounce, now).fs_due is None,
        !starting(interval, debounce, now).started,
        starting(interval, debounce, now).debounce == debounce,
        starting(interval, debounce, now).interval == (if interval < 100 {
            100
        } else {
            interval
        }),
{
}

/// A reported change is swept for after the waiting time; one that is waited for is not put off,
/// and nothing else changes.
pub proof fn a_change_waits_its_time(s: Schedule, now: u64)
    requires
        now + s.debounce <= u64::MAX,
    ensures
        s.fs_due is None ==> notified(s, now) == (Schedule {
            fs_due: Some((now + s.debounce) as u64),
            ..s
        }),
        s.fs_due is Some ==> notified(s, now) == s,
{
}

/// Another interval counts from now; the one in force changes nothing.
pub proof fn another_interval_counts_from_now(s: Schedule, interval: u64, now: u64)
    requires
        now + interval + 100 <= u64::MAX,
    ensures
        ({
            let wanted = if interval < 100 {
                100
            } else {
                interval as int
            };
            retuned(s, interval, now) == (if wanted == s.interval {
                s
            } else {
                Schedule { interval: wanted as u64, poll_due: (now + wanted) as u64, ..s }
            })
        }),
{
}

/// The time until the next sweep is the time until the nearer of the two times.
pub proof fn the_nearer_time_counts(s: Schedule, now: u64)
    ensures
        until_next(s, now) >= 0,
        now + until_next(s, now) >= s.poll_due || (s.fs_due is Some && now + until_next(s, now)
            >= s.fs_due->0),
        until_next(s, now) > 0 ==> now + until_next(s, now) <= s.poll_due && (s.fs_due is Some
            ==> now + until_next(s, now) <= s.fs_due->0),
        until_next(s, now) == 0 ==> now >= s.poll_due || (s.fs_due is Some && now
            >= s.fs_due->0),
{
}

} // verus!
