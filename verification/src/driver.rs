//! The driver's loop: seed the scheduler, then run tick after tick until the
//! run is over.

use vstd::prelude::*;
use crate::agent::State;
use crate::scheduler::Scheduler;
use crate::timeline::Timeline;

verus! {

/// Why a run came to its end.
#[derive(Clone, Copy, Debug, PartialEq, Eq)]
pub enum Ending {
    /// The allowed number of ticks has run.
    OutOfTicks,
    /// No event was pending any more.
    OutOfEvents,
    /// The state said that the run is over.
    Ended,
}

/// What a run did.
#[derive(Clone, Copy, Debug, PartialEq, Eq)]
pub struct Outcome {
    /// Number of ticks in which events ran.
    pub ticks: u64,
    /// The scheduler's time when the run came to its end.
    pub time: u64,
    /// Why it came to its end.
    pub ending: Ending,
}

impl Outcome {
    /// What holds of every run of at most `max_ticks` ticks: a run that is
    /// out of ticks has run them all, a run that is out of events has not,
    /// and a run that the state ended has run at least one.
    pub open spec fn fits(self, max_ticks: u64) -> bool {
        &&& self.ticks <= max_ticks
        &&& self.ending == Ending::OutOfTicks ==> self.ticks == max_ticks
        &&& self.ending == Ending::OutOfEvents ==> self.ticks < max_ticks
        &&& self.ending == Ending::Ended ==> self.ticks >= 1
    }
}

/// What the driver does after a step of a run that has counted `ticks`
/// ticks so far: the new count, and why the run is over if it is.
/// `executed` says whether the step ran events, `ended` whether the state
/// then said that the run is over.
pub open spec fn next_move(ticks: u64, max_ticks: u64, executed: bool, ended: bool) -> (
    u64,
    Option<Ending>,
) {
    if ticks >= max_ticks {
        (ticks, Some(Ending::OutOfTicks))
    } else if !executed {
        (ticks, Some(Ending::OutOfEvents))
    } else if ended {
        ((ticks + 1) as u64, Some(Ending::Ended))
    } else if ticks + 1 == max_ticks {
        ((ticks + 1) as u64, Some(Ending::OutOfTicks))
    } else {
        ((ticks + 1) as u64, None)
    }
}

/// Decides how a run goes on after a step: a step that ran nothing ends the
/// run for want of events and is not counted; any other step is counted,
/// and the run ends where the state says so, or else with the last tick
/// allowed.
pub fn progress(ticks: u64, max_ticks: u64, executed: bool, ended: bool) -> (r: (
    u64,
    Option<Ending>,
))
    ensures
        r == next_move(ticks, max_ticks, executed, ended),
{
    if ticks >= max_ticks {
        (ticks, Some(Ending::OutOfTicks))
    } else if !executed {
        (ticks, Some(Ending::OutOfEvents))
    } else if ended {
        (ticks + 1, Some(Ending::Ended))
    } else if ticks + 1 == max_ticks {
        (ticks + 1, Some(Ending::OutOfTicks))
    } else {
        (ticks + 1, None)
    }
}

/// Whether a tick leads from the scheduler `before` and the state
/// `state_before` to the scheduler `after` and the state `state_after`: an
/// event is pending, and a step of the scheduler leads there.
pub open spec fn ticked<S: State>(
    before: Scheduler<S::Agent>,
    state_before: S,
    after: Scheduler<S::Agent>,
    state_after: S,
) -> bool {
    &&& before@.pending.len() > 0
    &&& exists|stops: Seq<bool>, agents: Seq<S::Agent>, seen: Seq<S>| #[trigger]
        before.steps_to(after, state_before, state_after, stops, agents, seen)
}

/// Whether this is the course of a run with the outcome `outcome`:
/// `scheds[i]` and `states[i]` are the scheduler and the state before the
/// `i`-th tick, `mids[i]` is the state as the step of that tick left it and
/// before the state's update, and the last entries are what the run left.
/// Every counted tick is a step that ran events; after each the state is
/// asked whether the run is over, and it says so exactly at the last tick
/// of a run that it ended; the outcome's time is the scheduler's at the
/// end; and a run that is out of events has none pending.
pub open spec fn traced<S: State>(
    outcome: Outcome,
    max_ticks: u64,
    scheds: Seq<Scheduler<S::Agent>>,
    states: Seq<S>,
    mids: Seq<S>,
) -> bool {
    let n = outcome.ticks as int;
    &&& outcome.fits(max_ticks)
    &&& max_ticks == 0 ==> outcome.ending == Ending::OutOfTicks
    &&& scheds.len() == n + 1
    &&& states.len() == n + 1
    &&& mids.len() == n
    &&& forall|i: int|
        0 <= i < n ==> {
            &&& ticked::<S>(#[trigger] scheds[i], states[i], scheds[i + 1], mids[i])
            &&& call_ensures(
                S::end_condition,
                (&states[i + 1], &scheds[i + 1]),
                i == n - 1 && outcome.ending == Ending::Ended,
            )
        }
    &&& outcome.time == scheds[n]@.now
    &&& outcome.ending == Ending::OutOfEvents ==> scheds[n]@.pending.len() == 0
}

/// Runs `state` once from a fresh scheduler: seeds the scheduler, then
/// steps it, and after each step that ran events lets the state update and
/// asks it whether the run is over, until no event is pending, the state
/// says that the run is over, or `max_ticks` steps have run events. A tick
/// always runs to its end.
///
/// The contract follows the run: `init` gets the state as it is given and
/// an empty scheduler; from what it leaves, tick follows tick, each a step
/// of the scheduler, then the state's update, then the question whether the
/// run is over; and the state is left as the last tick left it.
pub fn run<S: State>(state: &mut S, max_ticks: u64) -> (outcome: Outcome)
    ensures
        outcome.fits(max_ticks),
        max_ticks == 0 ==> outcome.ending == Ending::OutOfTicks,
        exists|
            seeded: &mut S,
            scheduler: &mut Scheduler<S::Agent>,
            scheds: Seq<Scheduler<S::Agent>>,
            states: Seq<S>,
            mids: Seq<S>,
        |
            {
                &&& #[trigger] call_ensures(S::init, (seeded, scheduler), ())
                &&& #[trigger] traced::<S>(outcome, max_ticks, scheds, states, mids)
                &&& mut_ref_current(seeded) == *old(state)
                &&& mut_ref_current(scheduler)@ == Timeline::empty()
                &&& mut_ref_current(scheduler).agents() == Seq::<S::Agent>::empty()
                &&& scheds[0] == mut_ref_future(scheduler)
                &&& states[0] == mut_ref_future(seeded)
                &&& forall|i: int|
                    #![trigger mids[i]]
                    0 <= i < mids.len() ==> exists|u: &mut S|
                        {
                            &&& #[trigger] call_ensures(S::update, (u,), ())
                            &&& mut_ref_current(u) == mids[i]
                            &&& mut_ref_future(u) == states[i + 1]
                        }
                &&& *final(state) == states[outcome.ticks as int]
            },
{
    let mut scheduler: Scheduler<S::Agent> = Scheduler::new();
    state.init(&mut scheduler);
    let ghost mut scheds: Seq<Scheduler<S::Agent>> = seq![scheduler];
    let ghost mut states: Seq<S> = seq![*state];
    let ghost mut mids: Seq<S> = Seq::empty();
    let ghost first_scheduler = scheduler;
    let ghost first_state = *state;
    let mut ticks: u64 = 0;
    let mut ending = Ending::OutOfTicks;
    while ticks < max_ticks
        invariant_except_break
            ending == Ending::OutOfTicks,
            scheds[ticks as int] == scheduler,
            forall|j: int|
                1 <= j <= ticks ==> call_ensures(
                    S::end_condition,
                    (&states[j], &(#[trigger] scheds[j])),
                    false,
                ),
        invariant
            ticks <= max_ticks,
            scheduler@.wf(),
            scheds.len() == ticks + 1,
            states.len() == ticks + 1,
            mids.len() == ticks,
            scheds[0] == first_scheduler,
            states[0] == first_state,
            scheds[ticks as int]@ == scheduler@,
            states[ticks as int] == *state,
            forall|i: int|
                0 <= i < ticks ==> ticked::<S>(
                    #[trigger] scheds[i],
                    states[i],
                    scheds[i + 1],
                    mids[i],
                ),
            forall|i: int|
                #![trigger mids[i]]
                0 <= i < mids.len() ==> exists|u: &mut S|
                    {
                        &&& #[trigger] call_ensures(S::update, (u,), ())
                        &&& mut_ref_current(u) == mids[i]
                        &&& mut_ref_future(u) == states[i + 1]
                    },
        ensures
            traced::<S>(
                Outcome { ticks, time: scheduler@.now, ending },
                max_ticks,
                scheds,
                states,
                mids,
            ),
        decreases max_ticks - ticks,
    {
        let ghost before = scheduler;
        let ghost state_before = *state;
        let executed = scheduler.step(state);
        let ghost stepped = scheduler;
        let ghost mid = *state;
        let ended = if executed {
            state.update();
            state.end_condition(&scheduler)
        } else {
            false
        };
        let (counted, over) = progress(ticks, max_ticks, executed, ended);
        proof {
            if executed {
                assert(ticked::<S>(scheds[ticks as int], state_before, stepped, mid)) by {
                    lemma_steps_by_view(scheds[ticks as int], before, stepped, state_before, mid);
                }
                scheds = scheds.push(stepped);
                mids = mids.push(mid);
                states = states.push(*state);
            } else {
                lemma_idle_step(before, stepped, state_before, mid);
            }
        }
        ticks = counted;
        match over {
            Some(why) => {
                ending = why;
                break;
            },
            None => {},
        }
    }
    Outcome { ticks, time: scheduler.current_time(), ending }
}

/// A step from a scheduler is a step from every scheduler with the same
/// timeline and the same agents.
proof fn lemma_steps_by_view<S: State>(
    known: Scheduler<S::Agent>,
    before: Scheduler<S::Agent>,
    after: Scheduler<S::Agent>,
    state_before: S,
    state_after: S,
)
    requires
        known@ == before@,
        known.agents() == before.agents(),
        before@.pending.len() > 0,
        exists|stops: Seq<bool>, agents: Seq<S::Agent>, seen: Seq<S>| #[trigger]
            before.steps_to(after, state_before, state_after, stops, agents, seen),
    ensures
        ticked::<S>(known, state_before, after, state_after),
{
    let (stops, agents, seen) = choose|stops: Seq<bool>, agents: Seq<S::Agent>, seen: Seq<S>| #[trigger]
        before.steps_to(after, state_before, state_after, stops, agents, seen);
    assert(known.steps_to(after, state_before, state_after, stops, agents, seen));
}

/// A step with nothing pending leaves the timeline and the state as they
/// are.
proof fn lemma_idle_step<S: State>(
    before: Scheduler<S::Agent>,
    after: Scheduler<S::Agent>,
    state_before: S,
    state_after: S,
)
    requires
        before@.pending.len() == 0,
        exists|stops: Seq<bool>, agents: Seq<S::Agent>, seen: Seq<S>| #[trigger]
            before.steps_to(after, state_before, state_after, stops, agents, seen),
    ensures
        after@ == before@,
        state_after == state_before,
{
    let (stops, agents, seen) = choose|stops: Seq<bool>, agents: Seq<S::Agent>, seen: Seq<S>| #[trigger]
        before.steps_to(after, state_before, state_after, stops, agents, seen);
    assert(before@.due().len() == 0);
    assert(stops.len() == 0);
    assert(before@.step(stops).pending =~= before@.pending);
}

/// Runs `state` `repetitions` times, each time from a fresh scheduler, and
/// returns what each run did, in order. The first run starts from the state
/// as it is given, every later one from the state that the run before left,
/// and the state is left as the last run left it. Of every run the contract
/// says what `run` says of it.
pub fn simulate<S: State>(state: &mut S, max_ticks: u64, repetitions: usize) -> (outcomes: Vec<
    Outcome,
>)
    ensures
        outcomes@.len() == repetitions,
        exists|starts: Seq<S>|
            {
                &&& #[trigger] starts.len() == repetitions + 1
                &&& starts[0] == *old(state)
                &&& starts[repetitions as int] == *final(state)
                &&& forall|r: int|
                    #![trigger outcomes@[r]]
                    0 <= r < repetitions ==> outcomes@[r].fits(max_ticks) && exists|
                        seeded: &mut S,
                        scheduler: &mut Scheduler<S::Agent>,
                        scheds: Seq<Scheduler<S::Agent>>,
                        states: Seq<S>,
                        mids: Seq<S>,
                    |
                        {
                            &&& #[trigger] call_ensures(S::init, (seeded, scheduler), ())
                            &&& #[trigger] traced::<S>(outcomes@[r], max_ticks, scheds, states, mids)
                            &&& mut_ref_current(seeded) == starts[r]
                            &&& mut_ref_current(scheduler)@ == Timeline::empty()
                            &&& mut_ref_current(scheduler).agents() == Seq::<S::Agent>::empty()
                            &&& scheds[0] == mut_ref_future(scheduler)
                            &&& states[0] == mut_ref_future(seeded)
                            &&& forall|i: int|
                                #![trigger mids[i]]
                                0 <= i < mids.len() ==> exists|u: &mut S|
                                    {
                                        &&& #[trigger] call_ensures(S::update, (u,), ())
                                        &&& mut_ref_current(u) == mids[i]
                                        &&& mut_ref_future(u) == states[i + 1]
                                    }
                            &&& starts[r + 1] == states[outcomes@[r].ticks as int]
                        }
            },
{
    let mut outcomes: Vec<Outcome> = Vec::new();
    let mut done: usize = 0;
    let ghost mut starts: Seq<S> = seq![*state];
    let ghost given = *state;
    while done < repetitions
        invariant
            done <= repetitions,
            outcomes@.len() == done,
            starts.len() == done + 1,
            starts[0] == given,
            starts[done as int] == *state,
            forall|r: int|
                #![trigger outcomes@[r]]
                0 <= r < done ==> outcomes@[r].fits(max_ticks) && exists|
                    seeded: &mut S,
                    scheduler: &mut Scheduler<S::Agent>,
                    scheds: Seq<Scheduler<S::Agent>>,
                    states: Seq<S>,
                    mids: Seq<S>,
                |
                    {
                        &&& #[trigger] call_ensures(S::init, (seeded, scheduler), ())
                        &&& #[trigger] traced::<S>(outcomes@[r], max_ticks, scheds, states, mids)
                        &&& mut_ref_current(seeded) == starts[r]
                        &&& mut_ref_current(scheduler)@ == Timeline::empty()
                        &&& mut_ref_current(scheduler).agents() == Seq::<S::Agent>::empty()
                        &&& scheds[0] == mut_ref_future(scheduler)
                        &&& states[0] == mut_ref_future(seeded)
                        &&& forall|i: int|
                            #![trigger mids[i]]
                            0 <= i < mids.len() ==> exists|u: &mut S|
                                {
                                    &&& #[trigger] call_ensures(S::update, (u,), ())
                                    &&& mut_ref_current(u) == mids[i]
                                    &&& mut_ref_future(u) == states[i + 1]
                                }
                        &&& starts[r + 1] == states[outcomes@[r].ticks as int]
                    },
        decreases repetitions - done,
    {
        let ghost earlier = outcomes@;
        let ghost begun = starts;
        let outcome = run(state, max_ticks);
        outcomes.push(outcome);
        proof {
            starts = starts.push(*state);
            assert forall|r: int| 0 <= r < done implies #[trigger] outcomes@[r] == earlier[r]
                && starts[r] == begun[r] && starts[r + 1] == begun[r + 1] by {}
            assert(outcomes@[done as int] == outcome);
            assert(starts[done as int] == begun[done as int]);
        }
        done += 1;
    }
    outcomes
}

} // verus!
