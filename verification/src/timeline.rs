//! The mathematical model of the scheduler: pending events as a sequence kept
//! in execution order, and the functions that say what enrolling, cancelling
//! and stepping do to it.

use vstd::prelude::*;

verus! {

/// A point on the time axis, or the length of a stretch of it, in ticks.
#[derive(Clone, Copy, Debug, PartialEq, Eq)]
pub enum Time {
    /// So many ticks.
    Finite(u64),
    /// Beyond every tick.
    Infinite,
}

/// Why an enrollment was refused.
#[derive(Clone, Copy, Debug, PartialEq, Eq)]
pub enum ScheduleError {
    /// The time is not finite, or lies before the scheduler's current time.
    InvalidScheduleTime,
    /// The repeat interval is not finite, or not positive.
    InvalidInterval,
}

/// A pending event, without the agent value it will run.
pub struct Entry {
    /// The handle the event was enrolled under. Handles are given out in
    /// enrollment order and a repeating event keeps its handle.
    pub id: u64,
    /// The tick at which the event is due.
    pub time: u64,
    /// Orders events that are due at the same tick; lower runs first.
    pub priority: i32,
    /// Distance between two runs of a repeating event; `None` for a one-shot.
    pub interval: Option<u64>,
}

/// The execution order: by time, then by priority, then by handle.
pub open spec fn precedes(a: Entry, b: Entry) -> bool {
    ||| a.time < b.time
    ||| a.time == b.time && a.priority < b.priority
    ||| a.time == b.time && a.priority == b.priority && a.id < b.id
}

/// Every entry stands before all the entries it precedes, and none twice.
pub open spec fn ordered(s: Seq<Entry>) -> bool {
    forall|i: int, j: int| 0 <= i < j < s.len() ==> precedes(#[trigger] s[i], #[trigger] s[j])
}

/// Whether some entry of `s` has the handle `id`.
pub open spec fn has_id(s: Seq<Entry>, id: u64) -> bool {
    exists|i: int| 0 <= i < s.len() && (#[trigger] s[i]).id == id
}

/// The position in `s` of the entry with the handle `id`, where there is
/// one.
pub open spec fn position(s: Seq<Entry>, id: u64) -> int {
    choose|k: int| 0 <= k < s.len() && (#[trigger] s[k]).id == id
}

/// No handle occurs twice in `s`.
pub open spec fn distinct_ids(s: Seq<Entry>) -> bool {
    forall|i: int, j: int| 0 <= i < j < s.len() ==> (#[trigger] s[i]).id != (#[trigger] s[j]).id
}

/// Number of entries of `s` that precede `e`.
pub open spec fn rank(s: Seq<Entry>, e: Entry) -> int
    decreases s.len(),
{
    if s.len() == 0 {
        0
    } else {
        rank(s.drop_last(), e) + if precedes(s.last(), e) {
            1int
        } else {
            0int
        }
    }
}

/// `s` with `e` put behind the entries that precede it.
pub open spec fn insert_entry(s: Seq<Entry>, e: Entry) -> Seq<Entry> {
    s.insert(rank(s, e), e)
}

/// The entries of `s` that are due at the tick of its first entry, in the
/// order of `s`: the bucket that the next step runs.
pub open spec fn due(s: Seq<Entry>) -> Seq<Entry> {
    if s.len() == 0 {
        s
    } else {
        s.filter(|e: Entry| e.time == s[0].time)
    }
}

/// The entries of `s` that the next step leaves alone.
pub open spec fn later(s: Seq<Entry>) -> Seq<Entry> {
    if s.len() == 0 {
        s
    } else {
        s.filter(|e: Entry| e.time != s[0].time)
    }
}

/// What becomes of an entry that has just run: a repeating one whose agent
/// goes on, and whose next tick exists, comes back one interval later.
pub open spec fn renewed(e: Entry, stopped: bool) -> Option<Entry> {
    match e.interval {
        Some(step) if !stopped && e.time + step <= u64::MAX => Some(
            Entry { time: (e.time + step) as u64, ..e },
        ),
        _ => None,
    }
}

/// `s` after the entries `ran` have been settled one by one, `stops[i]`
/// saying whether the agent of `ran[i]` reported that it stops.
pub open spec fn settle(s: Seq<Entry>, ran: Seq<Entry>, stops: Seq<bool>) -> Seq<Entry>
    decreases ran.len(),
{
    if ran.len() == 0 {
        s
    } else {
        let before = settle(s, ran.drop_last(), stops.drop_last());
        match renewed(ran.last(), stops.last()) {
            Some(e) => insert_entry(before, e),
            None => before,
        }
    }
}

/// The mathematical content of a scheduler.
pub struct Timeline {
    /// The tick of the last bucket that was run; 0 before the first.
    pub now: u64,
    /// The handle that the next enrollment gets.
    pub next_id: u64,
    /// The pending events, in execution order.
    pub pending: Seq<Entry>,
}

impl Timeline {
    /// The state of a new scheduler.
    pub open spec fn empty() -> Timeline {
        Timeline { now: 0, next_id: 0, pending: Seq::empty() }
    }

    /// Whether an event may be enrolled at `time`: the time is finite and not
    /// in the past.
    pub open spec fn schedulable(self, time: Time) -> bool {
        time matches Time::Finite(t) && t >= self.now
    }

    /// The tick that a schedulable time names.
    pub open spec fn tick(time: Time) -> u64 {
        match time {
            Time::Finite(t) => t,
            Time::Infinite => 0,
        }
    }

    /// Whether `interval` may separate the runs of a repeating event: it is
    /// finite and positive.
    pub open spec fn repeatable(interval: Time) -> bool {
        interval matches Time::Finite(step) && step > 0
    }

    /// Whether `e` could be one of the pending events.
    pub open spec fn admits(self, e: Entry) -> bool {
        &&& e.id < self.next_id
        &&& e.time >= self.now
        &&& e.interval matches Some(step) ==> step > 0
    }

    /// The invariant of a scheduler.
    pub open spec fn wf(self) -> bool {
        &&& ordered(self.pending)
        &&& distinct_ids(self.pending)
        &&& forall|i: int| 0 <= i < self.pending.len() ==> self.admits(#[trigger] self.pending[i])
    }

    /// The entry of the event that the next enrollment makes.
    pub open spec fn fresh(self, time: u64, priority: i32, interval: Option<u64>) -> Entry {
        Entry { id: self.next_id, time, priority, interval }
    }

    /// The state after an event has been enrolled.
    pub open spec fn enroll(self, time: u64, priority: i32, interval: Option<u64>) -> Timeline {
        Timeline {
            now: self.now,
            next_id: (self.next_id + 1) as u64,
            pending: insert_entry(self.pending, self.fresh(time, priority, interval)),
        }
    }

    /// The state after the event with handle `id` has been cancelled.
    pub open spec fn cancel(self, id: u64) -> Timeline {
        Timeline { pending: self.pending.filter(|e: Entry| e.id != id), ..self }
    }

    /// The bucket that the next step runs, in execution order.
    pub open spec fn due(self) -> Seq<Entry> {
        due(self.pending)
    }

    /// The state after the due bucket has been taken out to be run.
    pub open spec fn advance(self) -> Timeline {
        if self.pending.len() == 0 {
            self
        } else {
            Timeline { now: self.pending[0].time, pending: later(self.pending), ..self }
        }
    }

    /// The state after an event that has run is handed back.
    pub open spec fn readmit(self, e: Entry, stopped: bool) -> Timeline {
        match renewed(e, stopped) {
            Some(next) => Timeline { pending: insert_entry(self.pending, next), ..self },
            None => self,
        }
    }

    /// The state after one step in which the agent of `self.due()[i]`
    /// answered `stops[i]` when asked whether it stops.
    pub open spec fn step(self, stops: Seq<bool>) -> Timeline {
        Timeline {
            pending: settle(self.advance().pending, self.due(), stops),
            ..self.advance()
        }
    }

    /// The answers of a step in which no agent reports that it stops.
    pub open spec fn all_go_on(self) -> Seq<bool> {
        Seq::new(self.due().len(), |i: int| false)
    }

    /// The state after `n` steps in which no agent reports that it stops.
    pub open spec fn run_on(self, n: nat) -> Timeline
        decreases n,
    {
        if n == 0 {
            self
        } else {
            let before = self.run_on((n - 1) as nat);
            before.step(before.all_go_on())
        }
    }

    /// Whether `stops` describes a run of steps from this state: one entry
    /// for each step, with one answer for each event of that step's bucket.
    pub open spec fn fits(self, stops: Seq<Seq<bool>>) -> bool
        decreases stops.len(),
    {
        stops.len() == 0 || (stops[0].len() == self.due().len() && self.step(stops[0]).fits(
            stops.skip(1),
        ))
    }

    /// The events that the steps described by `stops` run, in the order in
    /// which they run.
    pub open spec fn trace(self, stops: Seq<Seq<bool>>) -> Seq<Entry>
        decreases stops.len(),
    {
        if stops.len() == 0 {
            Seq::empty()
        } else {
            self.due() + self.step(stops[0]).trace(stops.skip(1))
        }
    }
}

} // verus!
