//! The discrete-event scheduler: a timeline of pending events that is run one
//! time bucket at a step.

use vstd::prelude::*;
use crate::agent::Agent;
use crate::timeline::{
    distinct_ids, has_id, insert_entry, position, precedes, rank, renewed, settle, Entry,
    ScheduleError, Time, Timeline,
};
use crate::timeline_laws::{lemma_advance, lemma_bucket_is_prefix};
use crate::timeline_lemmas::{
    lemma_cancel, lemma_due_is_prefix, lemma_insert_entry, lemma_rank_found,
    lemma_remove_keeps_order,
};

verus! {

/// Handle of an enrolled event.
pub type EventId = u64;

/// An enrolled event: an agent and when it is due.
pub struct ScheduledEvent<A> {
    agent: A,
    id: EventId,
    time: u64,
    priority: i32,
    interval: Option<u64>,
}

impl<A> View for ScheduledEvent<A> {
    type V = Entry;

    closed spec fn view(&self) -> Entry {
        Entry {
            id: self.id,
            time: self.time,
            priority: self.priority,
            interval: self.interval,
        }
    }
}

impl<A> ScheduledEvent<A> {
    /// The agent that the event runs.
    pub closed spec fn agent_value(&self) -> A {
        self.agent
    }

    /// The event's handle.
    pub fn id(&self) -> (id: EventId)
        ensures
            id == self@.id,
    {
        self.id
    }

    /// The tick at which the event is due.
    pub fn time(&self) -> (t: u64)
        ensures
            t == self@.time,
    {
        self.time
    }

    /// The event's priority within its tick.
    pub fn priority(&self) -> (p: i32)
        ensures
            p == self@.priority,
    {
        self.priority
    }

    /// The repeat interval, if the event repeats.
    pub fn interval(&self) -> (i: Option<u64>)
        ensures
            i == self@.interval,
    {
        self.interval
    }

    /// The event's agent.
    pub fn agent(&self) -> (a: &A)
        ensures
            *a == self.agent_value(),
    {
        &self.agent
    }

    /// The event's agent, to run it. Whatever is done to the agent, the
    /// event stays due as it is.
    pub fn agent_mut(&mut self) -> (a: &mut A)
        ensures
            *a == old(self).agent_value(),
            final(self).agent_value() == *final(a),
            final(self)@ == old(self)@,
    {
        &mut self.agent
    }
}

impl<A: Agent> ScheduledEvent<A> {
    /// Runs the event's agent once against `state`: calls `before_step`,
    /// then `step`, then `after_step`, each on the agent and the state as
    /// the call before left them. The event stays due as it is.
    pub fn run(&mut self, state: &mut A::State)
        ensures
            final(self)@ == old(self)@,
            exists|
                a0: &mut A,
                s0: &mut A::State,
                a1: &mut A,
                s1: &mut A::State,
                a2: &mut A,
                s2: &mut A::State,
            |
                {
                    &&& #[trigger] call_ensures(A::before_step, (a0, s0), ())
                    &&& #[trigger] call_ensures(A::step, (a1, s1), ())
                    &&& #[trigger] call_ensures(A::after_step, (a2, s2), ())
                    &&& mut_ref_current(a0) == old(self).agent_value()
                    &&& mut_ref_current(s0) == *old(state)
                    &&& mut_ref_current(a1) == mut_ref_future(a0)
                    &&& mut_ref_current(s1) == mut_ref_future(s0)
                    &&& mut_ref_current(a2) == mut_ref_future(a1)
                    &&& mut_ref_current(s2) == mut_ref_future(s1)
                    &&& mut_ref_future(a2) == final(self).agent_value()
                    &&& mut_ref_future(s2) == *final(state)
                },
    {
        self.agent.before_step(state);
        self.agent.step(state);
        self.agent.after_step(state);
    }
}

/// The entries that a sequence of events stands for.
pub open spec fn entries<A>(events: Seq<ScheduledEvent<A>>) -> Seq<Entry> {
    events.map_values(|e: ScheduledEvent<A>| e@)
}

/// The agents that a sequence of events carries.
pub open spec fn agent_values<A>(events: Seq<ScheduledEvent<A>>) -> Seq<A> {
    events.map_values(|e: ScheduledEvent<A>| e.agent_value())
}

/// The agents of a timeline after the events `ran` have been settled one by
/// one: `agents[i]` is the agent of `s[i]`, `after[i]` the agent of `ran[i]`
/// as its run left it, and `stops[i]` its answer. A renewed event carries
/// its agent to the place where the event is put.
pub open spec fn settle_agents<A>(
    s: Seq<Entry>,
    agents: Seq<A>,
    ran: Seq<Entry>,
    after: Seq<A>,
    stops: Seq<bool>,
) -> Seq<A>
    decreases ran.len(),
{
    if ran.len() == 0 {
        agents
    } else {
        let entries_before = settle(s, ran.drop_last(), stops.drop_last());
        let agents_before = settle_agents(
            s,
            agents,
            ran.drop_last(),
            after.drop_last(),
            stops.drop_last(),
        );
        match renewed(ran.last(), stops.last()) {
            Some(e) => agents_before.insert(rank(entries_before, e), after.last()),
            None => agents_before,
        }
    }
}

/// A priority-ordered timeline of events.
pub struct Scheduler<A> {
    events: Vec<ScheduledEvent<A>>,
    current_time: u64,
    next_id: EventId,
}

impl<A> View for Scheduler<A> {
    type V = Timeline;

    closed spec fn view(&self) -> Timeline {
        Timeline { now: self.current_time, next_id: self.next_id, pending: entries(self.events@) }
    }
}

/// Whether `a` runs before `b`.
fn runs_before<A>(a: &ScheduledEvent<A>, b: &ScheduledEvent<A>) -> (r: bool)
    ensures
        r == precedes(a@, b@),
{
    a.time < b.time || (a.time == b.time && (a.priority < b.priority || (a.priority == b.priority
        && a.id < b.id)))
}

impl<A: Agent> Scheduler<A> {
    /// The agents of the pending events, in execution order: `agents()[i]`
    /// is the agent that the event `self@.pending[i]` runs.
    pub closed spec fn agents(&self) -> Seq<A> {
        agent_values(self.events@)
    }

    /// Every pending event has its agent.
    pub proof fn lemma_agents_len(&self)
        ensures
            self.agents().len() == self@.pending.len(),
    {
    }

    /// Whether one step leads from this scheduler and the state
    /// `state_before` to the scheduler `next` and the state `state_after`,
    /// where `after[i]` is the agent of the `i`-th due event as its run
    /// left it, `states[i]` the state before that run, and `stops[i]` what
    /// the agent answered when asked whether it stops:
    /// the runs begin at `state_before` and end at `state_after`; once all
    /// have run, each agent is asked against the state they left; the
    /// timeline is the model's after these answers; and every event that is
    /// pending again carries the agent that ran.
    pub open spec fn steps_to(
        self,
        next: Self,
        state_before: A::State,
        state_after: A::State,
        stops: Seq<bool>,
        after: Seq<A>,
        states: Seq<A::State>,
    ) -> bool {
        let n = self@.due().len() as int;
        &&& stops.len() == n
        &&& after.len() == n
        &&& states.len() == n + 1
        &&& states[0] == state_before
        &&& states[n] == state_after
        &&& forall|i: int|
            0 <= i < n ==> call_ensures(
                A::is_stopped,
                (&after[i], &state_after),
                #[trigger] stops[i],
            )
        &&& next@ == self@.step(stops)
        &&& next.agents() == settle_agents(
            self@.advance().pending,
            self.agents().skip(n),
            self@.due(),
            after,
            stops,
        )
    }

    /// A scheduler at time 0 with no events.
    pub fn new() -> (s: Self)
        ensures
            s@ == Timeline::empty(),
            s@.wf(),
            s.agents() == Seq::<A>::empty(),
    {
        let s = Scheduler { events: Vec::new(), current_time: 0, next_id: 0 };
        assert(s@.pending =~= Seq::<Entry>::empty());
        assert(s.agents() =~= Seq::<A>::empty());
        s
    }

    /// The tick of the last bucket that was run.
    pub fn current_time(&self) -> (t: u64)
        ensures
            t == self@.now,
    {
        self.current_time
    }

    /// Number of pending events.
    pub fn event_count(&self) -> (n: usize)
        ensures
            n == self@.pending.len(),
    {
        self.events.len()
    }

    /// The handle that the next enrollment gets.
    pub fn next_id(&self) -> (id: EventId)
        ensures
            id == self@.next_id,
    {
        self.next_id
    }

    /// The tick of the next bucket, if any event is pending.
    pub fn next_time(&self) -> (t: Option<u64>)
        ensures
            t == (if self@.pending.len() == 0 {
                None
            } else {
                Some(self@.pending[0].time)
            }),
    {
        if self.events.len() == 0 {
            None
        } else {
            Some(self.events[0].time)
        }
    }

    /// Puts `event` behind the pending events that run before it.
    fn place(&mut self, event: ScheduledEvent<A>)
        requires
            old(self)@.wf(),
            old(self)@.admits(event@),
            !has_id(old(self)@.pending, event@.id),
        ensures
            final(self)@.wf(),
            final(self)@ == (Timeline {
                pending: insert_entry(old(self)@.pending, event@),
                ..old(self)@
            }),
            final(self).agents() == old(self).agents().insert(
                rank(old(self)@.pending, event@),
                event.agent_value(),
            ),
    {
        let ghost before = self@.pending;
        let mut i: usize = 0;
        while i < self.events.len() && runs_before(&self.events[i], &event)
            invariant
                i <= self.events.len(),
                self@.pending == before,
                *self == *old(self),
                forall|j: int| 0 <= j < i ==> precedes(#[trigger] before[j], event@),
            decreases self.events.len() - i,
        {
            i += 1;
        }
        proof {
            lemma_rank_found(before, event@, i as int);
            lemma_insert_entry(before, event@);
        }
        self.events.insert(i, event);
        proof {
            assert(self@.pending =~= before.insert(i as int, event@));
            assert(self.agents() =~= old(self).agents().insert(i as int, event.agent_value()));
            let after = self@.pending;
            assert forall|j: int| 0 <= j < after.len() implies self@.admits(#[trigger] after[j]) by {
                assert(after.contains(after[j]));
                if after[j] != event@ {
                    let k = choose|k: int| 0 <= k < before.len() && before[k] == after[j];
                    assert(old(self)@.admits(before[k]));
                }
            }
        }
    }

    /// Enrolls `agent` at the tick `time`, repeating every `interval` ticks
    /// where there is one.
    fn enroll(&mut self, agent: A, time: u64, priority: i32, interval: Option<u64>) -> (id: EventId)
        requires
            old(self)@.wf(),
            old(self)@.next_id < u64::MAX,
            time >= old(self)@.now,
            interval matches Some(step) ==> step > 0,
        ensures
            final(self)@.wf(),
            id == old(self)@.next_id,
            final(self)@ == old(self)@.enroll(time, priority, interval),
            final(self).agents() == old(self).agents().insert(
                rank(old(self)@.pending, old(self)@.fresh(time, priority, interval)),
                agent,
            ),
    {
        let id = self.next_id;
        let event = ScheduledEvent { agent, id, time, priority, interval };
        let ghost before = self@;
        self.next_id = self.next_id + 1;
        proof {
            assert(self@.pending == before.pending);
            assert(self.agents() == old(self).agents());
            assert(!has_id(before.pending, id)) by {
                if has_id(before.pending, id) {
                    let k = choose|k: int|
                        0 <= k < before.pending.len() && (#[trigger] before.pending[k]).id == id;
                    assert(before.admits(before.pending[k]));
                }
            }
            assert forall|j: int| 0 <= j < self@.pending.len() implies self@.admits(
                #[trigger] self@.pending[j],
            ) by {
                assert(before.admits(before.pending[j]));
            }
        }
        self.place(event);
        id
    }

    /// Enrolls a one-shot event for `agent` at `time`.
    ///
    /// Fails with `InvalidScheduleTime` where `time` is not finite or lies
    /// before the current time; nothing changes then.
    pub fn schedule_once(&mut self, agent: A, time: Time, priority: i32) -> (r: Result<
        EventId,
        ScheduleError,
    >)
        requires
            old(self)@.wf(),
            old(self)@.next_id < u64::MAX,
        ensures
            final(self)@.wf(),
            match r {
                Ok(id) => {
                    &&& old(self)@.schedulable(time)
                    &&& id == old(self)@.next_id
                    &&& final(self)@ == old(self)@.enroll(
                        Timeline::tick(time),
                        priority,
                        None,
                    )
                    &&& final(self).agents() == old(self).agents().insert(
                        rank(
                            old(self)@.pending,
                            old(self)@.fresh(Timeline::tick(time), priority, None),
                        ),
                        agent,
                    )
                },
                Err(e) => {
                    &&& !old(self)@.schedulable(time)
                    &&& e == ScheduleError::InvalidScheduleTime
                    &&& final(self)@ == old(self)@
                    &&& final(self).agents() == old(self).agents()
                },
            },
    {
        match time {
            Time::Finite(t) => {
                if t < self.current_time {
                    Err(ScheduleError::InvalidScheduleTime)
                } else {
                    Ok(self.enroll(agent, t, priority, None))
                }
            },
            Time::Infinite => Err(ScheduleError::InvalidScheduleTime),
        }
    }

    /// Enrolls a repeating event for `agent`, first due at `time` and then
    /// every `interval` ticks until the agent reports that it stops.
    ///
    /// Fails with `InvalidScheduleTime` where `time` is not finite or lies
    /// before the current time, and otherwise with `InvalidInterval` where
    /// `interval` is not finite or not positive; nothing changes then.
    pub fn schedule_repeating(&mut self, agent: A, time: Time, priority: i32, interval: Time) -> (r:
        Result<EventId, ScheduleError>)
        requires
            old(self)@.wf(),
            old(self)@.next_id < u64::MAX,
        ensures
            final(self)@.wf(),
            match r {
                Ok(id) => {
                    &&& old(self)@.schedulable(time)
                    &&& Timeline::repeatable(interval)
                    &&& id == old(self)@.next_id
                    &&& final(self)@ == old(self)@.enroll(
                        Timeline::tick(time),
                        priority,
                        Some(Timeline::tick(interval)),
                    )
                    &&& final(self).agents() == old(self).agents().insert(
                        rank(
                            old(self)@.pending,
                            old(self)@.fresh(
                                Timeline::tick(time),
                                priority,
                                Some(Timeline::tick(interval)),
                            ),
                        ),
                        agent,
                    )
                },
                Err(e) => {
                    &&& final(self)@ == old(self)@
                    &&& final(self).agents() == old(self).agents()
                    &&& e == (if !old(self)@.schedulable(time) {
                        ScheduleError::InvalidScheduleTime
                    } else {
                        ScheduleError::InvalidInterval
                    })
                    &&& !old(self)@.schedulable(time) || !Timeline::repeatable(interval)
                },
            },
    {
        match time {
            Time::Finite(t) => {
                if t < self.current_time {
                    Err(ScheduleError::InvalidScheduleTime)
                } else {
                    match interval {
                        Time::Finite(step) => {
                            if step == 0 {
                                Err(ScheduleError::InvalidInterval)
                            } else {
                                Ok(self.enroll(agent, t, priority, Some(step)))
                            }
                        },
                        Time::Infinite => Err(ScheduleError::InvalidInterval),
                    }
                }
            },
            Time::Infinite => Err(ScheduleError::InvalidScheduleTime),
        }
    }

    /// Cancels the pending event with handle `id`. Returns whether there was
    /// one; where there was none, nothing changes.
    pub fn cancel(&mut self, id: EventId) -> (cancelled: bool)
        requires
            old(self)@.wf(),
        ensures
            final(self)@.wf(),
            cancelled == has_id(old(self)@.pending, id),
            final(self)@ == old(self)@.cancel(id),
            final(self).agents() == (if cancelled {
                old(self).agents().remove(position(old(self)@.pending, id))
            } else {
                old(self).agents()
            }),
    {
        let ghost before = self@.pending;
        proof {
            lemma_cancel(before, id);
        }
        let mut i: usize = 0;
        while i < self.events.len()
            invariant
                i <= self.events.len(),
                *self == *old(self),
                before == self@.pending,
                self@.wf(),
                forall|j: int| 0 <= j < i ==> (#[trigger] before[j]).id != id,
                !has_id(before, id) ==> before.filter(|e: Entry| e.id != id) == before,
                forall|k: int|
                    0 <= k < before.len() && (#[trigger] before[k]).id == id ==> before.filter(
                        |e: Entry| e.id != id,
                    ) == before.remove(k),
            decreases self.events.len() - i,
        {
            if self.events[i].id == id {
                proof {
                    assert(before[i as int].id == id);
                    lemma_remove_keeps_order(before, i as int);
                }
                self.events.remove(i);
                proof {
                    assert(self@.pending =~= before.remove(i as int));
                    let k = position(before, id);
                    assert(0 <= k < before.len() && before[k].id == id);
                    if k < i {
                        assert(before[k].id != before[i as int].id);
                    } else if i < k {
                        assert(before[i as int].id != before[k].id);
                    }
                    assert(self.agents() =~= old(self).agents().remove(i as int));
                    let after = self@.pending;
                    assert forall|j: int| 0 <= j < after.len() implies self@.admits(
                        #[trigger] after[j],
                    ) by {
                        let k = if j < i { j } else { j + 1 };
                        assert(after[j] == before[k]);
                        assert(old(self)@.admits(before[k]));
                    }
                }
                return true;
            }
            i += 1;
        }
        false
    }

    /// Takes the due bucket out of the timeline, in execution order, and
    /// moves the current time to its tick. Where nothing is pending the
    /// bucket is empty and nothing changes.
    pub fn take_due(&mut self) -> (bucket: Vec<ScheduledEvent<A>>)
        requires
            old(self)@.wf(),
        ensures
            final(self)@.wf(),
            final(self)@ == old(self)@.advance(),
            entries(bucket@) == old(self)@.due(),
            agent_values(bucket@) == old(self).agents().take(bucket@.len() as int),
            final(self).agents() == old(self).agents().skip(bucket@.len() as int),
    {
        let ghost before = self@.pending;
        if self.events.len() == 0 {
            let bucket: Vec<ScheduledEvent<A>> = Vec::new();
            assert(entries(bucket@) =~= before);
            assert(agent_values(bucket@) =~= self.agents().take(0));
            assert(self.agents() =~= self.agents().skip(0));
            return bucket;
        }
        let tick = self.events[0].time;
        let mut k: usize = 1;
        while k < self.events.len() && self.events[k].time == tick
            invariant
                0 < k <= self.events.len(),
                *self == *old(self),
                before == self@.pending,
                tick == before[0].time,
                forall|j: int| 0 <= j < k ==> (#[trigger] before[j]).time == tick,
            decreases self.events.len() - k,
        {
            k += 1;
        }
        proof {
            lemma_due_is_prefix(before, k as int);
        }
        let mut bucket = self.events.split_off(k);
        std::mem::swap(&mut self.events, &mut bucket);
        self.current_time = tick;
        proof {
            assert(entries(bucket@) =~= before.take(k as int));
            assert(self@.pending =~= before.skip(k as int));
            assert(agent_values(bucket@) =~= old(self).agents().take(k as int));
            assert(self.agents() =~= old(self).agents().skip(k as int));
            let after = self@.pending;
            assert forall|i: int, j: int| 0 <= i < j < after.len() implies precedes(
                #[trigger] after[i],
                #[trigger] after[j],
            ) by {
                assert(precedes(before[i + k], before[j + k]));
            }
            assert forall|i: int, j: int| 0 <= i < j < after.len() implies (#[trigger] after[i]).id
                != (#[trigger] after[j]).id by {
                assert(before[i + k].id != before[j + k].id);
            }
            assert forall|j: int| 0 <= j < after.len() implies self@.admits(#[trigger] after[j]) by {
                assert(old(self)@.admits(before[j + k]));
                assert(precedes(before[0], before[j + k]));
            }
        }
        bucket
    }

    /// Hands back an event that has run. A repeating event whose agent goes
    /// on is enrolled again one interval later, unless that tick is beyond
    /// the last one; any other event is dropped. Returns whether the event
    /// is pending again. No other pending event is touched, whatever agent
    /// it carries.
    pub fn reenroll(&mut self, event: ScheduledEvent<A>, stopped: bool) -> (kept: bool)
        requires
            old(self)@.wf(),
            old(self)@.admits(event@),
            !has_id(old(self)@.pending, event@.id),
        ensures
            final(self)@.wf(),
            kept == renewed(event@, stopped) is Some,
            final(self)@ == old(self)@.readmit(event@, stopped),
            final(self).agents() == (match renewed(event@, stopped) {
                Some(next) => old(self).agents().insert(
                    rank(old(self)@.pending, next),
                    event.agent_value(),
                ),
                None => old(self).agents(),
            }),
    {
        match event.interval {
            Some(step) => {
                if !stopped && step <= u64::MAX - event.time {
                    let mut event = event;
                    event.time = event.time + step;
                    self.place(event);
                    true
                } else {
                    false
                }
            },
            None => false,
        }
    }

    /// Runs the next bucket: moves the current time to the smallest pending
    /// time, runs every event due then, in order of priority and then of
    /// enrollment, and, once all have run, asks each agent whether it stops
    /// and enrolls the repeating events of those that go on again. Returns
    /// whether any event ran.
    ///
    /// A stop ends one enrollment only: the event whose agent answered is
    /// not enrolled again, while every other pending event stays pending,
    /// also one that was enrolled with an agent of the same identifier.
    ///
    /// The contract says so of the agents too: for the `i`-th due event the
    /// three hooks are called on its agent, `before_step`, `step` and
    /// `after_step`, each on the agent and the state as the call before left
    /// them, and the first on the state as the run of the event before left
    /// it; the stop answers are those that `is_stopped` gave for the agents
    /// as their runs left them.
    pub fn step(&mut self, state: &mut A::State) -> (executed: bool)
        requires
            old(self)@.wf(),
        ensures
            final(self)@.wf(),
            executed == (old(self)@.pending.len() > 0),
            exists|stops: Seq<bool>, after: Seq<A>, states: Seq<A::State>|
                {
                    &&& #[trigger] old(self).steps_to(
                        *final(self),
                        *old(state),
                        *final(state),
                        stops,
                        after,
                        states,
                    )
                    &&& forall|i: int|
                        #![trigger old(self).agents()[i]]
                        0 <= i < after.len() ==> exists|
                            a0: &mut A,
                            s0: &mut A::State,
                            a1: &mut A,
                            s1: &mut A::State,
                            a2: &mut A,
                            s2: &mut A::State,
                        |
                            {
                                &&& #[trigger] call_ensures(A::before_step, (a0, s0), ())
                                &&& #[trigger] call_ensures(A::step, (a1, s1), ())
                                &&& #[trigger] call_ensures(A::after_step, (a2, s2), ())
                                &&& mut_ref_current(a0) == old(self).agents()[i]
                                &&& mut_ref_current(s0) == states[i]
                                &&& mut_ref_current(a1) == mut_ref_future(a0)
                                &&& mut_ref_current(s1) == mut_ref_future(s0)
                                &&& mut_ref_current(a2) == mut_ref_future(a1)
                                &&& mut_ref_current(s2) == mut_ref_future(s1)
                                &&& mut_ref_future(a2) == after[i]
                                &&& mut_ref_future(s2) == states[i + 1]
                            }
                },
    {
        let ghost start = self@;
        let ghost riders = self.agents();
        let ghost state0 = *state;
        let mut bucket = self.take_due();
        let n = bucket.len();
        let ghost ran = entries(bucket@);
        let ghost before = agent_values(bucket@);
        let ghost mut states: Seq<A::State> = seq![state0];
        let mut i: usize = 0;
        while i < n
            invariant
                i <= n,
                n == bucket.len(),
                entries(bucket@) == ran,
                before.len() == n,
                states.len() == i + 1,
                states[0] == state0,
                states[i as int] == *state,
                forall|j: int| i <= j < n ==> (#[trigger] bucket@[j]).agent_value() == before[j],
                forall|j: int|
                    #![trigger before[j]]
                    #![trigger bucket@[j]]
                    0 <= j < i ==> exists|
                        a0: &mut A,
                        s0: &mut A::State,
                        a1: &mut A,
                        s1: &mut A::State,
                        a2: &mut A,
                        s2: &mut A::State,
                    |
                        {
                            &&& #[trigger] call_ensures(A::before_step, (a0, s0), ())
                            &&& #[trigger] call_ensures(A::step, (a1, s1), ())
                            &&& #[trigger] call_ensures(A::after_step, (a2, s2), ())
                            &&& mut_ref_current(a0) == before[j]
                            &&& mut_ref_current(s0) == states[j]
                            &&& mut_ref_current(a1) == mut_ref_future(a0)
                            &&& mut_ref_current(s1) == mut_ref_future(s0)
                            &&& mut_ref_current(a2) == mut_ref_future(a1)
                            &&& mut_ref_current(s2) == mut_ref_future(s1)
                            &&& mut_ref_future(a2) == bucket@[j].agent_value()
                            &&& mut_ref_future(s2) == states[j + 1]
                        },
            decreases n - i,
        {
            let ghost earlier = bucket@;
            bucket[i].run(state);
            proof {
                assert(entries(bucket@) =~= ran);
                assert forall|j: int| 0 <= j < bucket@.len() && j != i implies #[trigger] bucket@[j]
                    == earlier[j] by {}
                states = states.push(*state);
            }
            i += 1;
        }
        let ghost after = agent_values(bucket@);
        let ghost bucket_after = bucket@;
        let ghost state1 = *state;
        let ghost mut stops: Seq<bool> = Seq::empty();
        let ghost base = self@;
        let ghost rest = self.agents();
        proof {
            lemma_advance(start);
            if start.pending.len() > 0 {
                lemma_bucket_is_prefix(start.pending);
            }
        }
        for event in it: bucket
            invariant
                n == ran.len(),
                (n > 0) == (start.pending.len() > 0),
                entries(it.seq()) == ran,
                agent_values(it.seq()) == after,
                ran == start.due(),
                base == start.advance(),
                distinct_ids(ran),
                forall|j: int| 0 <= j < ran.len() ==> base.admits(#[trigger] ran[j]),
                stops.len() == it.index(),
                *state == state1,
                forall|j: int|
                    0 <= j < it.index() ==> call_ensures(
                        A::is_stopped,
                        (&after[j], &state1),
                        #[trigger] stops[j],
                    ),
                self@.wf(),
                self@ == (Timeline {
                    pending: settle(base.pending, ran.take(it.index() as int), stops),
                    ..base
                }),
                self.agents() == settle_agents(
                    base.pending,
                    rest,
                    ran.take(it.index() as int),
                    after.take(it.index() as int),
                    stops,
                ),
                forall|j: int| it.index() <= j < ran.len() ==> !has_id(self@.pending, (#[trigger] ran[j]).id),
        {
            let ghost idx = it.index() as int;
            let stopped = event.agent.is_stopped(state);
            proof {
                assert(event@ == ran[idx]);
                assert(event.agent_value() == after[idx]);
                assert(ran.take(idx + 1).drop_last() =~= ran.take(idx));
                assert(ran.take(idx + 1).last() == ran[idx]);
                assert(after.take(idx + 1).drop_last() =~= after.take(idx));
                assert(after.take(idx + 1).last() == after[idx]);
                assert(stops.push(stopped).drop_last() =~= stops);
                assert(base.admits(ran[idx]));
                if renewed(event@, stopped) is Some {
                    lemma_insert_entry(self@.pending, renewed(event@, stopped)->0);
                }
                assert forall|j: int| idx < j < ran.len() implies ran[idx].id != (#[trigger] ran[j]).id by {}
                stops = stops.push(stopped);
            }
            self.reenroll(event, stopped);
        }
        proof {
            assert(ran.take(ran.len() as int) =~= ran);
            assert(after.take(after.len() as int) =~= after);
            assert(self@ == start.step(stops));
            assert(before == riders.take(n as int));
            assert(rest == riders.skip(n as int));
            assert(old(self).steps_to(*self, state0, state1, stops, after, states));
            assert forall|j: int| 0 <= j < n implies after[j] == (#[trigger] bucket_after[j]).agent_value() by {}
            assert forall|j: int| 0 <= j < n implies before[j] == #[trigger] riders[j] by {}
        }
        n > 0
    }
}

} // verus!
