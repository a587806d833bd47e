use krabmaga::agent::{Agent, State};
use krabmaga::coord::Coord;
use krabmaga::driver::{progress, run, simulate, Ending, Outcome};
use krabmaga::grid::DenseGrid;
use krabmaga::report::{Journal, LogType};
use krabmaga::scheduler::Scheduler;
use krabmaga::timeline::Time;

struct Field {
    grid: DenseGrid,
    walkers: u64,
    target: i32,
    inits: u32,
    updates: u32,
}

struct Walker {
    id: u64,
    x: i32,
    lifetime: u32,
}

impl Agent for Walker {
    type State = Field;

    fn get_id(&self) -> u64 {
        self.id
    }

    fn step(&mut self, state: &mut Field) {
        // The agent sees where the last commit put it, not its own staged move.
        assert_eq!(state.grid.position_of(self.id), Some(Coord::new(self.x, 0)));
        self.x += 1;
        assert!(state.grid.set_position(self.id, Coord::new(self.x, 0)));
        self.lifetime -= 1;
    }

    fn is_stopped(&self, _state: &Field) -> bool {
        self.lifetime == 0
    }
}

impl State for Field {
    type Agent = Walker;

    fn init(&mut self, scheduler: &mut Scheduler<Walker>) {
        self.inits += 1;
        self.grid = DenseGrid::new(50, 1);
        for id in 0..self.walkers {
            self.grid.set_position(id, Coord::new(0, 0));
            scheduler
                .schedule_repeating(
                    Walker { id, x: 0, lifetime: 5 },
                    Time::Finite(0),
                    0,
                    Time::Finite(1),
                )
                .unwrap();
        }
        self.grid.commit();
    }

    fn update(&mut self) {
        self.updates += 1;
        self.grid.commit();
    }

    fn end_condition(&self, _scheduler: &Scheduler<Walker>) -> bool {
        !self.grid.occupants_of(Coord::new(self.target, 0)).is_empty()
    }
}

fn field(walkers: u64, target: i32) -> Field {
    Field { grid: DenseGrid::new(1, 1), walkers, target, inits: 0, updates: 0 }
}

#[test]
fn run_stops_when_the_state_says_so() {
    let mut f = field(3, 2);
    let outcome = run(&mut f, 100);
    assert_eq!(outcome, Outcome { ticks: 2, time: 1, ending: Ending::Ended });
    assert_eq!(f.updates, 2);
    assert_eq!(f.grid.occupants_of(Coord::new(2, 0)), vec![0, 1, 2]);
}

#[test]
fn run_stops_when_no_event_is_left() {
    let mut f = field(2, 40);
    let outcome = run(&mut f, 100);
    assert_eq!(outcome, Outcome { ticks: 5, time: 4, ending: Ending::OutOfEvents });
    assert_eq!(f.updates, 5);
    assert_eq!(f.grid.occupants_of(Coord::new(5, 0)), vec![0, 1]);
}

#[test]
fn run_stops_when_the_ticks_are_used_up() {
    let mut f = field(1, 40);
    let outcome = run(&mut f, 3);
    assert_eq!(outcome, Outcome { ticks: 3, time: 2, ending: Ending::OutOfTicks });
    assert_eq!(f.grid.position_of(0), Some(Coord::new(3, 0)));
    let outcome = run(&mut f, 0);
    assert_eq!(outcome, Outcome { ticks: 0, time: 0, ending: Ending::OutOfTicks });
}

#[test]
fn simulate_repeats_from_a_fresh_scheduler() {
    let mut f = field(1, 4);
    let outcomes = simulate(&mut f, 10, 3);
    assert_eq!(outcomes, vec![Outcome { ticks: 4, time: 3, ending: Ending::Ended }; 3]);
    assert_eq!(f.inits, 3);
    assert_eq!(simulate(&mut f, 10, 0), Vec::<Outcome>::new());
}

#[test]
fn log_types_have_their_prefixes() {
    assert_eq!(LogType::Info.prefix(), "Info: ");
    assert_eq!(LogType::Warning.prefix(), "Warning: ");
    assert_eq!(LogType::Error.prefix(), "Error: ");
    assert_eq!(LogType::Critical.prefix(), "Critical: ");
}

#[test]
fn journal_keeps_newest_entry_first() {
    let mut j = Journal::new();
    assert_eq!(j.len(), 0);
    assert!(j.entry(0).is_none());
    assert_eq!(j.description(), "");
    j.log(LogType::Info, String::from("started"));
    j.log(LogType::Critical, String::from("broke"));
    j.describe(String::from("walkers on a line"));
    assert_eq!(j.len(), 2);
    let newest = j.entry(0).unwrap();
    assert!(matches!(newest.ltype, LogType::Critical));
    assert_eq!(newest.body, "broke");
    let oldest = j.entry(1).unwrap();
    assert!(matches!(oldest.ltype, LogType::Info));
    assert_eq!(oldest.body, "started");
    assert!(j.entry(2).is_none());
    assert_eq!(j.description(), "walkers on a line");
}

#[test]
fn progress_decides_how_a_run_goes_on() {
    // A step that ran nothing ends the run and is not counted.
    assert_eq!(progress(2, 5, false, false), (2, Some(Ending::OutOfEvents)));
    assert_eq!(progress(2, 5, false, true), (2, Some(Ending::OutOfEvents)));
    // A step that ran events is counted; the state's word ends the run.
    assert_eq!(progress(2, 5, true, true), (3, Some(Ending::Ended)));
    assert_eq!(progress(4, 5, true, true), (5, Some(Ending::Ended)));
    // The last tick allowed ends the run.
    assert_eq!(progress(4, 5, true, false), (5, Some(Ending::OutOfTicks)));
    assert_eq!(progress(2, 5, true, false), (3, None));
    assert_eq!(progress(0, 1, true, false), (1, Some(Ending::OutOfTicks)));
    // Where no tick is left nothing is counted.
    assert_eq!(progress(0, 0, true, true), (0, Some(Ending::OutOfTicks)));
    assert_eq!(progress(7, 5, false, false), (7, Some(Ending::OutOfTicks)));
    assert_eq!(progress(u64::MAX, u64::MAX, true, false), (u64::MAX, Some(Ending::OutOfTicks)));
}
