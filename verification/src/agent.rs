//! What the kernel asks of the agents it runs and of the state they share.

use vstd::prelude::*;
use crate::scheduler::Scheduler;
use crate::timeline::Timeline;

verus! {

/// Identifier of an agent: unique within a run and never reused.
pub type AgentId = u64;

/// An agent: a unit of behaviour that the scheduler runs against the shared
/// state of the simulation.
pub trait Agent: Sized {
    /// The shared state the agent runs against.
    type State;

    /// The agent's identifier: the key under which the shared structures
    /// know the agent. The scheduler knows its events by their handles and
    /// never asks for it.
    fn get_id(&self) -> AgentId;

    /// One run of the agent.
    fn step(&mut self, state: &mut Self::State);

    /// Whether the agent is done for good. Asked after each run. An agent
    /// that does not say otherwise never stops. The answer is about the
    /// enrollment that has just run: where it is a stop, that event is not
    /// enrolled again, and other events that carry the same agent stay
    /// pending.
    fn is_stopped(&self, state: &Self::State) -> (stopped: bool)
        default_ensures
            !stopped,
    {
        false
    }

    /// Runs right before `step`. An agent that does not say otherwise
    /// leaves itself and the state as they are.
    fn before_step(&mut self, state: &mut Self::State)
        default_ensures
            *final(self) == *old(self),
            *final(state) == *old(state),
    {
    }

    /// Runs right after `step`. An agent that does not say otherwise leaves
    /// itself and the state as they are.
    fn after_step(&mut self, state: &mut Self::State)
        default_ensures
            *final(self) == *old(self),
            *final(state) == *old(state),
    {
    }
}

/// The shared state of a simulation, as the driver sees it.
pub trait State: Sized {
    /// The agents that run against this state.
    type Agent: Agent<State = Self>;

    /// Seeds the scheduler with the first events of a run. The scheduler
    /// it gets is new: no event is pending and no handle given out.
    fn init(&mut self, scheduler: &mut Scheduler<Self::Agent>)
        requires
            old(scheduler)@ == Timeline::empty(),
            old(scheduler).agents() == Seq::<Self::Agent>::empty(),
        ensures
            final(scheduler)@.wf(),
    ;

    /// Runs once after every tick: the place to commit the shared
    /// structures. A state that does not say otherwise stays as it is.
    fn update(&mut self)
        default_ensures
            *final(self) == *old(self),
    {
    }

    /// Whether the run is over.
    fn end_condition(&self, scheduler: &Scheduler<Self::Agent>) -> bool;
}

} // verus!
