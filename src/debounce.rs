//! The debounce coordinator: a counter of actionable events, and the
//! consumer's decisions turning a burst of them into one trigger.
//!
//! The consumer holds the counter's lock and calls `Debouncer::step` each time
//! it wakes, with the counter's value and the time. The returned `Action` says
//! how to wait next, when to run the command, and when to stop.

use crate::trigger::Outcome;
use vstd::prelude::*;

verus! {

/// Number of actionable events seen so far. It only ever moves forward, and
/// consumers compare it by value, so a new value always means new events.
pub struct SignalCounter {
    value: u64,
}

/// The value after one more event; it wraps only after `u64::MAX` events.
pub open spec fn next_count(v: u64) -> u64 {
    if v == u64::MAX {
        0
    } else {
        (v + 1) as u64
    }
}

impl SignalCounter {
    pub closed spec fn count(&self) -> u64 {
        self.value
    }

    pub fn new() -> (r: Self)
        ensures
            r.count() == 0,
    {
        SignalCounter { value: 0 }
    }

    pub fn value(&self) -> (r: u64)
        ensures
            r == self.count(),
    {
        self.value
    }

    /// Records one actionable event.
    pub fn increment(&mut self)
        ensures
            final(self).count() == next_count(old(self).count()),
            final(self).count() != old(self).count(),
    {
        self.value = if self.value == u64::MAX {
            0
        } else {
            self.value + 1
        };
    }
}

/// What the consumer does next.
#[derive(PartialEq, Eq, Structural, Clone, Copy, Debug)]
pub enum Action {
    /// Wait until the counter differs from the given value.
    WaitForChange(u64),
    /// Wait for a change of the counter, but no later than the given time.
    WaitUntil(u64),
    /// The burst has settled: run the command now.
    Fire,
    /// Leave the loop.
    Stop,
}

/// The consumer's state between wake-ups.
#[derive(PartialEq, Eq, Structural, Clone, Copy, Debug)]
pub struct Debouncer {
    /// Length of the quiet window.
    pub settle: u64,
    /// Stop after the first trigger.
    pub oneshot: bool,
    /// The counter's value when last looked at.
    pub baseline: u64,
    /// When the pending burst settles, if one is pending.
    pub deadline: Option<u64>,
    /// The loop is over.
    pub done: bool,
}

/// `now + settle`, held at `u64::MAX`.
pub open spec fn settle_time(now: u64, settle: u64) -> u64 {
    if now + settle > u64::MAX {
        u64::MAX
    } else {
        (now + settle) as u64
    }
}

/// One wake-up of the consumer: the new state and what to do.
///
/// A counter that moved restarts the quiet window from `now`; a window that
/// has run out fires; otherwise the consumer waits on.
pub open spec fn step_spec(d: Debouncer, counter: u64, now: u64) -> (Debouncer, Action) {
    if d.done {
        (d, Action::Stop)
    } else {
        let seen = if counter != d.baseline {
            Debouncer { baseline: counter, deadline: Some(settle_time(now, d.settle)), ..d }
        } else {
            d
        };
        match seen.deadline {
            Some(t) => if now >= t {
                (Debouncer { deadline: None, done: seen.oneshot, ..seen }, Action::Fire)
            } else {
                (seen, Action::WaitUntil(t))
            },
            None => (seen, Action::WaitForChange(seen.baseline)),
        }
    }
}

/// The state and the actions after a run of wake-ups, each a counter value
/// and a time.
pub open spec fn run(d: Debouncer, wakes: Seq<(u64, u64)>) -> (Debouncer, Seq<Action>)
    decreases wakes.len(),
{
    if wakes.len() == 0 {
        (d, Seq::empty())
    } else {
        let (mid, acts) = run(d, wakes.drop_last());
        let (last, a) = step_spec(mid, wakes.last().0, wakes.last().1);
        (last, acts.push(a))
    }
}

/// The state after the command ran with `outcome`: a missing executable ends
/// the loop, any exit code leaves it running.
pub open spec fn after_fire_spec(d: Debouncer, outcome: Outcome) -> Debouncer {
    if outcome == Outcome::NotFound {
        Debouncer { done: true, ..d }
    } else {
        d
    }
}

/// The wake-ups of a consumer woken once by each event, `counters[i]` being
/// the counter's value after the event at `times[i]`.
pub open spec fn event_wakes(counters: Seq<u64>, times: Seq<u64>) -> Seq<(u64, u64)> {
    Seq::new(counters.len(), |i: int| (counters[i], times[i]))
}

/// Each value differs from the one before it.
pub open spec fn moves_each_time(counters: Seq<u64>) -> bool {
    forall|i: int| 0 <= i < counters.len() - 1 ==> #[trigger] counters[i + 1] != counters[i]
}

pub open spec fn nondecreasing(times: Seq<u64>) -> bool {
    forall|i: int, j: int| 0 <= i <= j < times.len() ==> times[i] <= times[j]
}

impl Debouncer {
    /// A consumer that has seen the counter at `baseline` and waits for it to move.
    pub fn new(settle: u64, oneshot: bool, baseline: u64) -> (r: Self)
        ensures
            r == (Debouncer { settle, oneshot, baseline, deadline: None, done: false }),
    {
        Debouncer { settle, oneshot, baseline, deadline: None, done: false }
    }

    /// Decides what to do on waking with the counter at `counter` at time `now`.
    pub fn step(&mut self, counter: u64, now: u64) -> (r: Action)
        ensures
            (*final(self), r) == step_spec(*old(self), counter, now),
    {
        if self.done {
            return Action::Stop;
        }
        if counter != self.baseline {
            self.baseline = counter;
            let t = if now > u64::MAX - self.settle {
                u64::MAX
            } else {
                now + self.settle
            };
            self.deadline = Some(t);
        }
        match self.deadline {
            Some(t) => {
                if now >= t {
                    self.deadline = None;
                    self.done = self.oneshot;
                    Action::Fire
                } else {
                    Action::WaitUntil(t)
                }
            },
            None => Action::WaitForChange(self.baseline),
        }
    }

    /// Takes note of how the command that was just fired ended.
    pub fn after_fire(&mut self, outcome: Outcome)
        ensures
            *final(self) == after_fire_spec(*old(self), outcome),
    {
        if outcome.is_fatal() {
            self.done = true;
        }
    }
}

proof fn lemma_burst_prefix(d: Debouncer, counters: Seq<u64>, times: Seq<u64>, k: int)
    requires
        !d.done,
        d.deadline is None,
        d.settle > 0,
        counters.len() == times.len(),
        1 <= k <= times.len(),
        counters[0] != d.baseline,
        moves_each_time(counters),
        nondecreasing(times),
        times.last() + d.settle <= u64::MAX,
    ensures
        ({
            let (e, acts) = run(d, event_wakes(counters, times).take(k));
            &&& e == (Debouncer {
                baseline: counters[k - 1],
                deadline: Some((times[k - 1] + d.settle) as u64),
                ..d
            })
            &&& acts.len() == k
            &&& forall|i: int|
                0 <= i < k ==> acts[i] == Action::WaitUntil((times[i] + d.settle) as u64)
        }),
    decreases k,
{
    let w = event_wakes(counters, times);
    assert(times[k - 1] <= times[times.len() - 1]);
    let wk = w.take(k);
    assert(wk.last() == (counters[k - 1], times[k - 1]));
    if k == 1 {
        assert(wk.drop_last() =~= Seq::<(u64, u64)>::empty());
        assert(run(d, wk.drop_last()) == (d, Seq::<Action>::empty()));
    } else {
        lemma_burst_prefix(d, counters, times, k - 1);
        assert(wk.drop_last() =~= w.take(k - 1));
        let prev = run(d, w.take(k - 1));
        assert(counters[k - 1] != prev.0.baseline);
        let next = step_spec(prev.0, counters[k - 1], times[k - 1]);
        assert(next.1 == Action::WaitUntil((times[k - 1] + d.settle) as u64));
        assert(run(d, wk) == (next.0, prev.1.push(next.1)));
        let acts = run(d, wk).1;
        assert forall|i: int| 0 <= i < k implies acts[i] == Action::WaitUntil(
            (times[i] + d.settle) as u64,
        ) by {
            if i < k - 1 {
                assert(acts[i] == prev.1[i]);
            }
        }
    }
}

/// A burst of events, all within one quiet window of the first, fires exactly
/// once: each event restarts the wait, whose deadline the next event comes no
/// later than, and the wake-up at the last event plus the quiet window fires.
pub proof fn lemma_burst_fires_once(d: Debouncer, counters: Seq<u64>, times: Seq<u64>)
    requires
        !d.done,
        d.deadline is None,
        d.settle > 0,
        counters.len() == times.len(),
        times.len() >= 1,
        counters[0] != d.baseline,
        moves_each_time(counters),
        nondecreasing(times),
        times.last() - times[0] <= d.settle,
        times.last() + d.settle <= u64::MAX,
    ensures
        ({
            let n = times.len() as int;
            let wakes = event_wakes(counters, times).push(
                (counters.last(), (times.last() + d.settle) as u64),
            );
            let acts = run(d, wakes).1;
            &&& acts.len() == n + 1
            &&& forall|i: int|
                0 <= i < n ==> acts[i] == Action::WaitUntil((times[i] + d.settle) as u64)
            &&& forall|i: int| 0 <= i < n - 1 ==> times[i + 1] <= #[trigger] times[i] + d.settle
            &&& acts[n] == Action::Fire
        }),
{
    let n = times.len() as int;
    let w = event_wakes(counters, times);
    lemma_burst_prefix(d, counters, times, n);
    assert(w.take(n) =~= w);
    let wakes = w.push((counters.last(), (times.last() + d.settle) as u64));
    assert(wakes.drop_last() =~= w);
    assert forall|i: int| 0 <= i < n - 1 implies times[i + 1] <= #[trigger] times[i] + d.settle by {
        assert(times[0] <= times[i]);
        assert(times[i + 1] <= times[n - 1]);
    }
}

/// Two events further apart than the quiet window fire twice: the wait after
/// the first runs out before the second arrives.
pub proof fn lemma_gap_fires_twice(d: Debouncer, c0: u64, t0: u64, c1: u64, t1: u64)
    requires
        !d.done,
        !d.oneshot,
        d.deadline is None,
        d.settle > 0,
        c0 != d.baseline,
        c1 != c0,
        t0 + d.settle < t1,
        t1 + d.settle <= u64::MAX,
    ensures
        run(
            d,
            seq![(c0, t0), (c0, (t0 + d.settle) as u64), (c1, t1), (c1, (t1 + d.settle) as u64)],
        ).1 == seq![
            Action::WaitUntil((t0 + d.settle) as u64),
            Action::Fire,
            Action::WaitUntil((t1 + d.settle) as u64),
            Action::Fire,
        ],
{
    let s = d.settle;
    let w = seq![(c0, t0), (c0, (t0 + s) as u64), (c1, t1), (c1, (t1 + s) as u64)];
    assert(w.drop_last() =~= seq![(c0, t0), (c0, (t0 + s) as u64), (c1, t1)]);
    assert(w.drop_last().drop_last() =~= seq![(c0, t0), (c0, (t0 + s) as u64)]);
    assert(w.drop_last().drop_last().drop_last() =~= seq![(c0, t0)]);
    assert(w.drop_last().drop_last().drop_last().drop_last() =~= Seq::<(u64, u64)>::empty());
    reveal_with_fuel(run, 5);
    assert(run(d, w).1 =~= seq![
        Action::WaitUntil((t0 + s) as u64),
        Action::Fire,
        Action::WaitUntil((t1 + s) as u64),
        Action::Fire,
    ]);
}

/// Once the command was not found, every later wake-up stops the loop, so
/// it never fires again.
pub proof fn lemma_not_found_stops(d: Debouncer, wakes: Seq<(u64, u64)>)
    ensures
        run(after_fire_spec(d, Outcome::NotFound), wakes).0 == after_fire_spec(d, Outcome::NotFound),
        run(after_fire_spec(d, Outcome::NotFound), wakes).1.len() == wakes.len(),
        forall|i: int|
            0 <= i < wakes.len() ==> run(after_fire_spec(d, Outcome::NotFound), wakes).1[i]
                == Action::Stop,
    decreases wakes.len(),
{
    if wakes.len() > 0 {
        lemma_not_found_stops(d, wakes.drop_last());
    }
}

} // verus!
