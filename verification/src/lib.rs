//! Terrarium: a deterministic, replayable synthetic-world simulation core.
//!
//! An `Event` says what happened; its `StateEffect`s say what changed because
//! it happened. The `Run` keeps the durable history (events, observations,
//! actions and snapshots) from which any recorded state can be rebuilt.
//!
//! `consistency` and `sequencing` hold the guarantees that span operations:
//! replaying the history reproduces the latent state, and the trace stays one
//! gap-free order. `outcomes` states what single operations produce: replay
//! by time, branching, and each kind of effect.

pub mod agent;
pub mod binary32;
pub mod consistency;
pub mod duplicate;
pub mod echo;
pub mod effect;
pub mod event;
pub mod experiment;
pub mod ids;
pub mod outcomes;
pub mod person;
pub mod person_map;
pub mod replay;
pub mod rng;
pub mod sequencing;
pub mod simulation;
pub mod text;
pub mod time;
pub mod world;

pub use agent::{Action, Agent, AgentAction, Observation};
pub use binary32::Binary32;
pub use echo::EchoAgent;
pub use effect::StateEffect;
pub use event::{Event, EventKind, Visibility};
pub use experiment::{Experiment, ExperimentPerson, Intervention, RelationshipSetup};
pub use ids::{EventId, LocationId, ObjectId, PersonId, SnapshotId};
pub use person::{
    AffectiveState, Belief, BeliefState, Expectations, Goal, Identity, Memory, MemoryStore, Person,
    RelationshipState, SelfModel,
};
pub use person_map::PersonMap;
pub use replay::{ActionRecord, BranchInfo, ObservationRecord, Run, Snapshot, TraceEntry};
pub use rng::DeterministicRng;
pub use simulation::Simulation;
pub use time::{Duration, SimTime};
pub use world::{Location, WorldError, WorldState};
