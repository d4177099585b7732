//! Declarative experiment descriptions and deterministic instantiation.
//!
//! An experiment describes initial conditions and an intervention, not the
//! implementation details of a cognitive architecture, so specifications stay
//! portable across agent implementations.

use vstd::prelude::*;
use vstd::string::*;
use crate::binary32::Binary32;
use crate::event::{person_id_debug, person_id_debug_string};
use crate::ids::PersonId;
use crate::person::{new_person, Person, RelationshipState, RelationshipView};
use crate::person_map::{lookup, store};
use crate::replay::trace_len;
use crate::simulation::{advanced, checkpointed, seeded_simulation, Simulation, SimulationView};
use crate::time::{parse_duration, Duration};
use crate::world::{world_with_relationship, WorldView};

verus! {

#[derive(Debug, PartialEq)]
pub struct ExperimentPerson {
    pub id: PersonId,
    pub name: String,
}

#[derive(Debug, Clone, Copy, PartialEq, Eq, Structural)]
pub struct RelationshipSetup {
    pub from: PersonId,
    pub to: PersonId,
    pub trust: Binary32,
    pub attachment: Binary32,
}

#[derive(Debug, PartialEq)]
pub struct Intervention {
    pub kind: String,
    pub promise: Option<String>,
}

#[derive(Debug, PartialEq)]
pub struct Experiment {
    pub name: String,
    pub duration: String,
    pub people: Vec<ExperimentPerson>,
    pub relationship: Option<RelationshipSetup>,
    pub intervention: Option<Intervention>,
    pub seed: u64,
}

pub struct ExperimentPersonView {
    pub id: PersonId,
    pub name: Seq<char>,
}

impl View for ExperimentPerson {
    type V = ExperimentPersonView;

    open spec fn view(&self) -> ExperimentPersonView {
        ExperimentPersonView { id: self.id, name: self.name@ }
    }
}

/// The relationship an experiment sets up: trust and attachment as given,
/// every other dimension `0.0`, no shared history.
pub open spec fn initial_relationship(r: RelationshipSetup) -> RelationshipView {
    RelationshipView {
        trust: r.trust,
        familiarity: Binary32 { bits: 0 },
        attachment: r.attachment,
        perceived_reciprocity: Binary32 { bits: 0 },
        conflict: Binary32 { bits: 0 },
        uncertainty: Binary32 { bits: 0 },
        shared_history: Seq::empty(),
    }
}

/// A simulation after adding a new person (and the checkpoint that follows).
pub open spec fn with_person(s: SimulationView, p: ExperimentPersonView) -> SimulationView {
    checkpointed(
        SimulationView {
            world: WorldView {
                people: store(s.world.people, p.id, new_person(p.id, p.name)),
                ..s.world
            },
            ..s
        },
    )
}

/// A simulation after adding each of `ps` in order.
pub open spec fn with_people(s: SimulationView, ps: Seq<ExperimentPersonView>) -> SimulationView
    decreases ps.len(),
{
    if ps.len() == 0 {
        s
    } else {
        with_person(with_people(s, ps.drop_last()), ps.last())
    }
}

pub open spec fn unknown_target_message(id: PersonId) -> Seq<char> {
    "unknown relationship target "@ + person_id_debug(id)
}

pub open spec fn unknown_source_message(id: PersonId) -> Seq<char> {
    "unknown relationship source "@ + person_id_debug(id)
}

/// The initial simulation of an experiment, or why it cannot be set up: a
/// simulation with the experiment's seed, its people added in order, the
/// relationship (if any) set up between existing people, and a final checkpoint.
pub open spec fn instantiated(
    seed: u64,
    people: Seq<ExperimentPersonView>,
    relationship: Option<RelationshipSetup>,
) -> Result<SimulationView, Seq<char>> {
    let s = with_people(seeded_simulation(seed), people);
    match relationship {
        None => Ok(checkpointed(s)),
        Some(r) => if lookup(s.world.people, r.to) is None {
            Err(unknown_target_message(r.to))
        } else if lookup(s.world.people, r.from) is None {
            Err(unknown_source_message(r.from))
        } else {
            Ok(
                checkpointed(
                    SimulationView {
                        world: world_with_relationship(s.world, r.from, r.to, initial_relationship(r)),
                        ..s
                    },
                ),
            )
        },
    }
}

impl Experiment {
    /// Instantiates only the initial world. Running the experiment is kept
    /// separate so callers can inspect or modify the simulation before time
    /// advances.
    pub fn instantiate(&self) -> (r: Result<Simulation, String>)
        ensures
            match instantiated(self.seed, self.people@.map_values(|p: ExperimentPerson| p@), self.relationship) {
                Ok(v) => r matches Ok(sim) && sim@ == v,
                Err(msg) => r matches Err(e) && e@ == msg,
            },
    {
        let ghost ps = self.people@.map_values(|p: ExperimentPerson| p@);
        let mut simulation = Simulation::with_seed(self.seed);
        for i in 0..self.people.len()
            invariant
                ps == self.people@.map_values(|p: ExperimentPerson| p@),
                simulation@ == with_people(seeded_simulation(self.seed), ps.take(i as int)),
        {
            let person = &self.people[i];
            assert(ps.take(i + 1).drop_last() =~= ps.take(i as int));
            assert(ps.take(i + 1).last() == person@);
            simulation.add_person(Person::new(person.id, person.name.as_str()));
        }
        assert(ps.take(ps.len() as int) =~= ps);
        if let Some(relationship) = &self.relationship {
            if !simulation.has_person(relationship.to) {
                let msg = String::from_str("unknown relationship target ").concat(
                    person_id_debug_string(relationship.to).as_str(),
                );
                return Err(msg);
            }
            let state = RelationshipState {
                trust: relationship.trust,
                familiarity: Binary32::zero(),
                attachment: relationship.attachment,
                perceived_reciprocity: Binary32::zero(),
                conflict: Binary32::zero(),
                uncertainty: Binary32::zero(),
                shared_history: Vec::new(),
            };
            assert(state@ =~= initial_relationship(*relationship));
            if !simulation.set_relationship(relationship.from, relationship.to, state) {
                let msg = String::from_str("unknown relationship source ").concat(
                    person_id_debug_string(relationship.from).as_str(),
                );
                return Err(msg);
            }
        }
        // The relationship and person setup is an initial condition, not a
        // semantic world event: take one final setup checkpoint.
        simulation.checkpoint();
        Ok(simulation)
    }

    /// Runs the declared duration, then checkpoints. Interventions remain
    /// explicit operations so their timing is not guessed by the schema.
    pub fn run_duration(&self, simulation: &mut Simulation) -> (r: Result<(), String>)
        requires
            match parse_duration(self.duration@) {
                Ok(v) => {
                    &&& old(simulation)@.world.time.0 + v <= u64::MAX
                    &&& old(simulation)@.world.next_event_id + old(simulation)@.scheduled.len() <= u64::MAX
                    &&& trace_len(old(simulation)@.run) + old(simulation)@.scheduled.len() <= u64::MAX
                },
                Err(_) => true,
            },
        ensures
            match parse_duration(self.duration@) {
                Ok(v) => r is Ok && final(simulation)@ == checkpointed(advanced(old(simulation)@, Duration(v))),
                Err(msg) => r matches Err(e) && e@ == msg && final(simulation)@ == old(simulation)@,
            },
    {
        let duration = match Duration::parse(self.duration.as_str()) {
            Ok(d) => d,
            Err(e) => {
                return Err(e);
            },
        };
        simulation.advance(duration);
        simulation.checkpoint();
        Ok(())
    }
}

} // verus!
