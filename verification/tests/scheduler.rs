use krabmaga::agent::Agent;
use krabmaga::scheduler::{ScheduledEvent, Scheduler};
use krabmaga::timeline::{ScheduleError, Time};

struct World {
    log: Vec<u64>,
    hooks: Vec<&'static str>,
    stopped: Vec<u64>,
}

struct Walker {
    id: u64,
    runs: u64,
    stop_after: u64,
    marks: Option<u64>,
}

fn walker(id: u64) -> Walker {
    Walker { id, runs: 0, stop_after: u64::MAX, marks: None }
}

fn quitter(id: u64, stop_after: u64) -> Walker {
    Walker { id, runs: 0, stop_after, marks: None }
}

fn marker(id: u64, marks: u64) -> Walker {
    Walker { id, runs: 0, stop_after: u64::MAX, marks: Some(marks) }
}

impl Agent for Walker {
    type State = World;

    fn get_id(&self) -> u64 {
        self.id
    }

    fn step(&mut self, state: &mut World) {
        self.runs += 1;
        state.log.push(self.id);
        state.hooks.push("step");
        if let Some(other) = self.marks {
            state.stopped.push(other);
        }
    }

    fn is_stopped(&self, state: &World) -> bool {
        self.runs >= self.stop_after || state.stopped.contains(&self.id)
    }

    fn before_step(&mut self, state: &mut World) {
        state.hooks.push("before");
    }

    fn after_step(&mut self, state: &mut World) {
        state.hooks.push("after");
    }
}

fn world() -> World {
    World { log: Vec::new(), hooks: Vec::new(), stopped: Vec::new() }
}

/// Steps until nothing runs or `max` steps have run, and returns for each
/// step its tick and the agents that ran, in order.
fn run(s: &mut Scheduler<Walker>, w: &mut World, max: usize) -> Vec<(u64, Vec<u64>)> {
    let mut out = Vec::new();
    for _ in 0..max {
        let seen = w.log.len();
        if !s.step(w) {
            break;
        }
        out.push((s.current_time(), w.log[seen..].to_vec()));
    }
    out
}

#[test]
fn new_scheduler_is_empty_at_time_zero() {
    let mut w = world();
    let mut s: Scheduler<Walker> = Scheduler::new();
    assert_eq!(s.current_time(), 0);
    assert_eq!(s.event_count(), 0);
    assert_eq!(s.next_id(), 0);
    assert_eq!(s.next_time(), None);
    assert!(!s.step(&mut w));
    assert_eq!(s.current_time(), 0);
    assert!(w.log.is_empty());
}

#[test]
fn earlier_bucket_runs_before_later_bucket() {
    let mut w = world();
    let mut s: Scheduler<Walker> = Scheduler::new();
    assert_eq!(s.schedule_once(walker(20), Time::Finite(7), 0), Ok(0));
    assert_eq!(s.schedule_once(walker(10), Time::Finite(3), 9), Ok(1));
    assert_eq!(s.schedule_once(walker(21), Time::Finite(7), -1), Ok(2));
    assert_eq!(s.schedule_once(walker(11), Time::Finite(3), 9), Ok(3));
    assert_eq!(s.next_time(), Some(3));
    assert_eq!(s.event_count(), 4);
    let ran = run(&mut s, &mut w, 10);
    assert_eq!(ran, vec![(3, vec![10, 11]), (7, vec![21, 20])]);
    assert_eq!(s.event_count(), 0);
    assert_eq!(s.current_time(), 7);
}

#[test]
fn tie_break_by_priority_then_enrollment() {
    let mut w = world();
    let mut s: Scheduler<Walker> = Scheduler::new();
    assert_eq!(s.schedule_once(walker(1), Time::Finite(5), 2), Ok(0));
    assert_eq!(s.schedule_once(walker(2), Time::Finite(5), 1), Ok(1));
    assert!(s.step(&mut w));
    assert_eq!(w.log, vec![2, 1]);
    assert_eq!(s.current_time(), 5);
    assert!(!s.step(&mut w));

    let mut w = world();
    let mut s: Scheduler<Walker> = Scheduler::new();
    assert_eq!(s.schedule_once(walker(2), Time::Finite(5), 1), Ok(0));
    assert_eq!(s.schedule_once(walker(1), Time::Finite(5), 2), Ok(1));
    assert!(s.step(&mut w));
    assert_eq!(w.log, vec![2, 1]);
}

#[test]
fn hooks_run_in_order_for_each_event() {
    let mut w = world();
    let mut s: Scheduler<Walker> = Scheduler::new();
    s.schedule_once(walker(1), Time::Finite(0), 0).unwrap();
    s.schedule_once(walker(2), Time::Finite(0), 0).unwrap();
    assert!(s.step(&mut w));
    assert_eq!(w.hooks, vec!["before", "step", "after", "before", "step", "after"]);
}

#[test]
fn repeating_event_runs_once_per_tick() {
    let mut w = world();
    let mut s: Scheduler<Walker> = Scheduler::new();
    assert_eq!(s.schedule_repeating(walker(1), Time::Finite(0), 0, Time::Finite(1)), Ok(0));
    let n = 25;
    let ran = run(&mut s, &mut w, n);
    assert_eq!(ran.len(), n);
    for (k, (tick, agents)) in ran.iter().enumerate() {
        assert_eq!(*tick, k as u64);
        assert_eq!(agents, &vec![1]);
    }
    assert_eq!(w.log.len(), n);
    assert_eq!(s.event_count(), 1);
    assert_eq!(s.next_time(), Some(n as u64));
}

#[test]
fn repeating_event_keeps_its_interval() {
    let mut w = world();
    let mut s: Scheduler<Walker> = Scheduler::new();
    assert_eq!(s.schedule_repeating(walker(1), Time::Finite(4), 0, Time::Finite(3)), Ok(0));
    let ran = run(&mut s, &mut w, 4);
    let ticks: Vec<u64> = ran.iter().map(|(t, _)| *t).collect();
    assert_eq!(ticks, vec![4, 7, 10, 13]);
}

#[test]
fn stopped_agent_never_runs_again() {
    let mut w = world();
    let mut s: Scheduler<Walker> = Scheduler::new();
    s.schedule_repeating(quitter(1, 3), Time::Finite(0), 0, Time::Finite(1)).unwrap();
    s.schedule_repeating(walker(2), Time::Finite(0), 1, Time::Finite(1)).unwrap();
    let ran = run(&mut s, &mut w, 6);
    assert_eq!(
        ran,
        vec![
            (0, vec![1, 2]),
            (1, vec![1, 2]),
            (2, vec![1, 2]),
            (3, vec![2]),
            (4, vec![2]),
            (5, vec![2]),
        ]
    );
    assert_eq!(s.event_count(), 1);
}

#[test]
fn stop_is_asked_after_the_whole_bucket_has_run() {
    // Agent 1 runs first; agent 2 runs later in the same bucket and marks
    // agent 1 as stopped. Agent 1 is asked only once the bucket has run, so
    // it is dropped after this very step.
    let mut w = world();
    let mut s: Scheduler<Walker> = Scheduler::new();
    s.schedule_repeating(walker(1), Time::Finite(0), 0, Time::Finite(1)).unwrap();
    s.schedule_repeating(marker(2, 1), Time::Finite(0), 1, Time::Finite(1)).unwrap();
    assert!(s.step(&mut w));
    assert_eq!(w.log, vec![1, 2]);
    assert_eq!(s.event_count(), 1);
    assert!(s.step(&mut w));
    assert_eq!(w.log, vec![1, 2, 2]);
}

#[test]
fn dual_enrollment_runs_twice_at_the_shared_tick() {
    let mut w = world();
    let mut s: Scheduler<Walker> = Scheduler::new();
    assert_eq!(s.schedule_repeating(walker(9), Time::Finite(0), 0, Time::Finite(1)), Ok(0));
    assert_eq!(s.schedule_once(walker(9), Time::Finite(5), 0), Ok(1));
    let ran = run(&mut s, &mut w, 6);
    assert_eq!(
        ran,
        vec![
            (0, vec![9]),
            (1, vec![9]),
            (2, vec![9]),
            (3, vec![9]),
            (4, vec![9]),
            (5, vec![9, 9]),
        ]
    );
    assert_eq!(w.log.len(), 7);
    assert_eq!(s.event_count(), 1);
}

#[test]
fn equal_priority_runs_in_enrollment_order() {
    let mut w = world();
    let mut s: Scheduler<Walker> = Scheduler::new();
    // The repeating event keeps the handle of its enrollment, so at tick 2
    // it still runs before the one-shot enrolled after it.
    s.schedule_repeating(walker(1), Time::Finite(0), 0, Time::Finite(2)).unwrap();
    s.schedule_once(walker(2), Time::Finite(2), 0).unwrap();
    let ran = run(&mut s, &mut w, 2);
    assert_eq!(ran, vec![(0, vec![1]), (2, vec![1, 2])]);
}

#[test]
fn rejects_times_in_the_past_and_beyond() {
    let mut w = world();
    let mut s: Scheduler<Walker> = Scheduler::new();
    assert_eq!(s.schedule_once(walker(1), Time::Finite(3), 0), Ok(0));
    assert!(s.step(&mut w));
    assert_eq!(
        s.schedule_once(walker(1), Time::Finite(2), 0),
        Err(ScheduleError::InvalidScheduleTime)
    );
    assert_eq!(
        s.schedule_once(walker(1), Time::Infinite, 0),
        Err(ScheduleError::InvalidScheduleTime)
    );
    assert_eq!(
        s.schedule_repeating(walker(1), Time::Finite(2), 0, Time::Finite(1)),
        Err(ScheduleError::InvalidScheduleTime)
    );
    assert_eq!(s.event_count(), 0);
    assert_eq!(s.next_id(), 1);
    // The current time itself is still allowed.
    assert_eq!(s.schedule_once(walker(1), Time::Finite(3), 0), Ok(1));
    assert!(s.step(&mut w));
    assert_eq!(s.current_time(), 3);
}

#[test]
fn rejects_intervals_that_are_not_positive_and_finite() {
    let mut s: Scheduler<Walker> = Scheduler::new();
    assert_eq!(
        s.schedule_repeating(walker(1), Time::Finite(0), 0, Time::Finite(0)),
        Err(ScheduleError::InvalidInterval)
    );
    assert_eq!(
        s.schedule_repeating(walker(1), Time::Finite(0), 0, Time::Infinite),
        Err(ScheduleError::InvalidInterval)
    );
    // A bad time is reported before a bad interval.
    assert_eq!(
        s.schedule_repeating(walker(1), Time::Infinite, 0, Time::Finite(0)),
        Err(ScheduleError::InvalidScheduleTime)
    );
    assert_eq!(s.event_count(), 0);
    assert_eq!(s.next_id(), 0);
}

#[test]
fn cancel_removes_a_pending_event_only() {
    let mut w = world();
    let mut s: Scheduler<Walker> = Scheduler::new();
    let a = s.schedule_once(walker(1), Time::Finite(1), 0).unwrap();
    let b = s.schedule_repeating(walker(2), Time::Finite(1), 0, Time::Finite(1)).unwrap();
    let c = s.schedule_once(walker(3), Time::Finite(2), 0).unwrap();
    assert!(s.cancel(c));
    assert!(!s.cancel(c));
    assert!(!s.cancel(99));
    assert_eq!(s.event_count(), 2);
    assert!(s.step(&mut w));
    assert_eq!(w.log, vec![1, 2]);
    // The one-shot has run: cancelling it is a no-op.
    assert!(!s.cancel(a));
    // The repeating event is still known under its handle.
    assert!(s.cancel(b));
    assert_eq!(s.event_count(), 0);
    assert!(!s.step(&mut w));
}

#[test]
fn repeating_event_ends_where_time_ends() {
    let mut w = world();
    let mut s: Scheduler<Walker> = Scheduler::new();
    s.schedule_repeating(walker(1), Time::Finite(u64::MAX - 3), 0, Time::Finite(2)).unwrap();
    let ran = run(&mut s, &mut w, 5);
    assert_eq!(ran, vec![(u64::MAX - 3, vec![1]), (u64::MAX - 1, vec![1])]);
    assert_eq!(s.event_count(), 0);
}

#[test]
fn bucket_can_be_taken_and_handed_back_by_hand() {
    let mut w = world();
    let mut s: Scheduler<Walker> = Scheduler::new();
    s.schedule_repeating(walker(1), Time::Finite(2), 5, Time::Finite(10)).unwrap();
    s.schedule_repeating(walker(2), Time::Finite(2), 4, Time::Finite(1)).unwrap();
    s.schedule_once(walker(3), Time::Finite(2), 3).unwrap();
    s.schedule_once(walker(4), Time::Finite(3), 0).unwrap();
    let mut bucket: Vec<ScheduledEvent<Walker>> = s.take_due();
    assert_eq!(s.current_time(), 2);
    assert_eq!(s.event_count(), 1);
    let seen: Vec<(u64, u64, i32, Option<u64>)> =
        bucket.iter().map(|e| (e.id(), e.time(), e.priority(), e.interval())).collect();
    assert_eq!(seen, vec![(2, 2, 3, None), (1, 2, 4, Some(1)), (0, 2, 5, Some(10))]);
    for event in bucket.iter_mut() {
        event.agent_mut().step(&mut w);
    }
    assert_eq!(w.log, vec![3, 2, 1]);
    assert_eq!(bucket[0].agent().get_id(), 3);
    let flags = [false, true, false];
    let mut kept = Vec::new();
    for (event, stopped) in bucket.into_iter().zip(flags) {
        kept.push(s.reenroll(event, stopped));
    }
    // The one-shot goes, the stopped repeating event goes, the other stays.
    assert_eq!(kept, vec![false, false, true]);
    assert_eq!(s.event_count(), 2);
    assert_eq!(s.next_time(), Some(3));
    let ran = run(&mut s, &mut w, 3);
    assert_eq!(ran, vec![(3, vec![4]), (12, vec![1]), (22, vec![1])]);
}

#[test]
fn event_run_calls_the_three_hooks_in_order() {
    let mut w = world();
    let mut s: Scheduler<Walker> = Scheduler::new();
    s.schedule_repeating(walker(4), Time::Finite(1), 0, Time::Finite(2)).unwrap();
    let mut bucket = s.take_due();
    assert_eq!(bucket.len(), 1);
    bucket[0].run(&mut w);
    assert_eq!(w.hooks, vec!["before", "step", "after"]);
    assert_eq!(w.log, vec![4]);
    assert_eq!(bucket[0].agent().runs, 1);
    assert_eq!((bucket[0].id(), bucket[0].time()), (0, 1));
    bucket[0].run(&mut w);
    assert_eq!(w.hooks, vec!["before", "step", "after", "before", "step", "after"]);
    assert_eq!(bucket[0].agent().runs, 2);
}

#[test]
fn events_carry_their_own_agents() {
    // Three events, enrolled out of order: each runs the agent that it was
    // enrolled with, and a renewed event keeps the agent that ran.
    let mut w = world();
    let mut s: Scheduler<Walker> = Scheduler::new();
    let a = s.schedule_once(walker(30), Time::Finite(3), 0).unwrap();
    s.schedule_repeating(quitter(10, 2), Time::Finite(1), 0, Time::Finite(1)).unwrap();
    s.schedule_once(walker(20), Time::Finite(2), -5).unwrap();
    assert!(s.cancel(a));
    let ran = run(&mut s, &mut w, 10);
    // Agent 10 counts its own runs and stops after the second.
    assert_eq!(ran, vec![(1, vec![10]), (2, vec![20, 10])]);
    assert_eq!(s.event_count(), 0);
}
