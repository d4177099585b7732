use terrarium::{
    Binary32, Duration, EchoAgent, EventKind, Experiment, ExperimentPerson, Person, PersonId,
    RelationshipSetup, RelationshipState, SimTime, Simulation, StateEffect, TraceEntry, Visibility,
};

fn num(x: f32) -> Binary32 {
    Binary32::from_bits(x.to_bits())
}

fn value(x: Binary32) -> f32 {
    f32::from_bits(x.to_bits())
}

fn relationship(trust: f32, familiarity: f32, attachment: f32, reciprocity: f32, conflict: f32, uncertainty: f32) -> RelationshipState {
    RelationshipState {
        trust: num(trust),
        familiarity: num(familiarity),
        attachment: num(attachment),
        perceived_reciprocity: num(reciprocity),
        conflict: num(conflict),
        uncertainty: num(uncertainty),
        shared_history: vec![],
    }
}

#[test]
fn promise_break_is_replayable() {
    let mut sim = Simulation::new();
    let alice = Person::new(PersonId(1), "Alice");
    let mut bob = Person::new(PersonId(2), "Bob");

    bob.relationships.insert(alice.id, relationship(0.8, 0.7, 0.7, 0.7, 0.0, 0.1));

    sim.add_person(alice);
    sim.add_person(bob);
    sim.advance(Duration::hours(18));
    sim.promise_broken(PersonId(1), PersonId(2), "home by 18:00");

    let replayed = sim.run.replay_to(sim.time()).unwrap();
    let bob = replayed.people.get(&PersonId(2)).unwrap();
    let rel = bob.relationships.get(&PersonId(1)).unwrap();

    assert!((value(rel.trust) - 0.65).abs() < 1e-6);
    assert_eq!(bob.memories.memories.len(), 1);
}

#[test]
fn branch_uses_exact_event_cursor_and_world_state() {
    let mut sim = Simulation::new();
    sim.add_person(Person::new(PersonId(1), "Alice"));
    sim.add_person(Person::new(PersonId(2), "Bob"));

    sim.promise_made(PersonId(1), PersonId(2), "one");
    sim.checkpoint();
    sim.advance(Duration::seconds(10));
    sim.promise_broken(PersonId(1), PersonId(2), "two");

    let child = sim.branch("counterfactual", 1);

    assert_eq!(child.run.events.len(), 1);
    assert!(matches!(child.run.events[0].kind, EventKind::PromiseMade { .. }));
    assert_eq!(child.time(), terrarium::SimTime(0));
}

#[test]
fn observation_does_not_expose_latent_events() {

    let mut sim = Simulation::new();
    sim.add_person(Person::new(PersonId(1), "Alice"));
    sim.add_person(Person::new(PersonId(2), "Bob"));

    sim.schedule_event(
        terrarium::SimTime(5),
        EventKind::Custom { description: "secret".into() },
        vec![],
        Visibility::Latent,
    );
    sim.advance(Duration::seconds(5));

    let observation = sim.observe(PersonId(1)).unwrap();

    match observation {
        terrarium::Observation::Text { source_events, .. } => assert!(source_events.is_empty()),
    }
}

#[test]
fn agent_step_is_recorded_as_observation_action_and_event() {

    let mut sim = Simulation::new();
    sim.add_person(Person::new(PersonId(1), "Alice"));

    let mut agent = EchoAgent;
    sim.promise_made(PersonId(1), PersonId(1), "hello");

    let action = sim.step_agent(PersonId(1), &mut agent).unwrap();

    assert!(!sim.run.observations.is_empty());
    assert!(!sim.run.actions.is_empty());
    assert!(!sim.run.events.is_empty());
    assert!(matches!(action, terrarium::Action::Say(_)));
}

#[test]
fn state_effects_cover_location_belief_and_affect() {
    let mut sim = Simulation::new();
    sim.add_person(Person::new(PersonId(1), "Alice"));

    sim.enter_room(PersonId(1), "kitchen");
    sim.set_belief(PersonId(1), "the kitchen is safe", num(0.9));
    sim.set_affect(PersonId(1), num(-0.2), num(0.7));

    let replayed = sim.run.replay_to(sim.time()).unwrap();
    let alice = replayed.people.get(&PersonId(1)).unwrap();

    assert_eq!(alice.location.as_deref(), Some("kitchen"));
    assert!((value(alice.beliefs.beliefs[0].confidence) - 0.9).abs() < 1e-6);
    assert!((value(alice.affect.valence) + 0.2).abs() < 1e-6);
    assert!((value(alice.affect.arousal) - 0.7).abs() < 1e-6);
}

#[test]
fn scheduled_events_execute_in_time_order() {

    let mut sim = Simulation::new();
    sim.add_person(Person::new(PersonId(1), "Alice"));

    sim.schedule_event(
        SimTime(20),
        EventKind::Custom { description: "later".into() },
        vec![],
        Visibility::Public,
    );
    sim.schedule_event(
        SimTime(10),
        EventKind::Custom { description: "earlier".into() },
        vec![],
        Visibility::Public,
    );

    sim.advance(Duration::seconds(30));

    assert_eq!(sim.run.events.len(), 2);
    assert_eq!(sim.run.events[0].timestamp, SimTime(10));
    assert_eq!(sim.run.events[1].timestamp, SimTime(20));
    assert_eq!(sim.time(), SimTime(30));
}

#[test]
fn seeded_randomness_is_reproducible() {
    let mut a = Simulation::with_seed(1234);
    let mut b = Simulation::with_seed(1234);

    assert_eq!(a.random_u64(), b.random_u64());
    assert_eq!(a.random_u64(), b.random_u64());
}

#[test]
fn timeline_is_chronological_and_preserves_agent_loop_order() {

    let mut sim = Simulation::new();
    sim.add_person(Person::new(PersonId(1), "Alice"));
    sim.promise_made(PersonId(1), PersonId(1), "hello");

    let mut agent = EchoAgent;
    sim.step_agent(PersonId(1), &mut agent).unwrap();

    let timeline = sim.run.timeline();
    assert!(timeline.len() >= 4);
    assert!(matches!(timeline[0], TraceEntry::Event(_)));
    assert!(matches!(timeline[1], TraceEntry::Observation(_)));
    assert!(matches!(timeline[2], TraceEntry::Event(_)));
    assert!(matches!(timeline[3], TraceEntry::Action(_)));
}

#[test]
fn duration_parser_handles_compound_values() {
    assert_eq!(terrarium::Duration::parse("2h30m").unwrap(), Duration::minutes(150));
    assert_eq!(terrarium::Duration::parse("1d5m").unwrap(), Duration::seconds(86_700));
    assert!(terrarium::Duration::parse("2x").is_err());
}

#[test]
fn experiment_instantiation_is_deterministic() {

    let experiment = Experiment {
        name: "small".into(),
        duration: "2h30m".into(),
        people: vec![
            ExperimentPerson { id: PersonId(1), name: "Alice".into() },
            ExperimentPerson { id: PersonId(2), name: "Bob".into() },
        ],
        relationship: Some(RelationshipSetup {
            from: PersonId(2),
            to: PersonId(1),
            trust: num(0.8),
            attachment: num(0.7),
        }),
        intervention: None,
        seed: 42,
    };

    let a = experiment.instantiate().unwrap();
    let b = experiment.instantiate().unwrap();
    assert_eq!(a.world.people.len(), 2);
    assert_eq!(a.world.people, b.world.people);
}

#[test]
fn run_validation_accepts_a_complete_trace() {
    let mut sim = Simulation::new();
    sim.add_person(Person::new(PersonId(1), "Alice"));
    sim.promise_made(PersonId(1), PersonId(1), "hello");
    sim.checkpoint();
    sim.run.validate().unwrap();
}

#[test]
fn effect_values_keep_their_encoding() {
    let effect = StateEffect::MemoryAdded {
        person: PersonId(1),
        timestamp: terrarium::SimTime(3),
        description: "x".into(),
        salience: num(0.5),
    };
    assert_eq!(effect.clone(), effect);
}
