//! Execution kernel of an agent-based simulation engine.
//!
//! A [`scheduler::Scheduler`] keeps a timeline of events and runs it one time
//! bucket at a step; the agents it runs read and change shared structures:
//! a [`dbmap::DBMap`], a [`grid::Grid`] over sparse or dense storage, a
//! [`field::Field`], a [`network::Network`] or a [`hypergraph::Hypergraph`].
//! Each of these shows its readers the state as of the last commit and
//! keeps the writes of the current tick in a log, so that what an agent
//! reads does not depend on which agents ran before it in the same tick.
//!
//! Every structure has a mathematical model (its view), the contracts of its
//! operations are stated over that model, and the laws that hold of the
//! model are proved beside it.

pub mod agent;
pub mod cells;
pub mod coord;
pub mod dbmap;
pub mod driver;
pub mod explore;
pub mod export;
pub mod field;
pub mod graph;
pub mod grid;
pub mod hyper;
pub mod hypergraph;
pub mod lists;
pub mod network;
pub mod placement;
pub mod report;
pub mod scheduler;
pub mod timeline;
pub mod timeline_laws;
pub mod timeline_lemmas;

pub use crate::agent::{Agent, AgentId, State};
pub use crate::coord::Coord;
pub use crate::dbmap::DBMap;
pub use crate::driver::{progress, run, simulate, Ending, Outcome};
pub use crate::explore::{build_configurations, gen_param};
pub use crate::export::{csv_file_name, DataFrame};
pub use crate::field::Field;
pub use crate::graph::Edge;
pub use crate::grid::{DenseGrid, Grid, SparseGrid};
pub use crate::hypergraph::{HyperEdge, Hypergraph};
pub use crate::network::Network;
pub use crate::report::{ExploreMode, Info, Journal, Log, LogType};
pub use crate::scheduler::{EventId, ScheduledEvent, Scheduler};
pub use crate::timeline::{ScheduleError, Time};
