use terrarium::replay::RunError;
use terrarium::simulation::compose_observation_text;
use terrarium::{
    Binary32, Duration, EchoAgent, Event, EventId, EventKind, Experiment, ExperimentPerson, Observation,
    Person, PersonId, PersonMap, RelationshipSetup, SimTime, Simulation, StateEffect, Visibility,
    WorldError,
};

fn num(x: f32) -> Binary32 {
    Binary32::from_bits(x.to_bits())
}

fn value(x: Binary32) -> f32 {
    f32::from_bits(x.to_bits())
}

fn busy_simulation() -> Simulation {
    let mut sim = Simulation::with_seed(7);
    sim.add_person(Person::new(PersonId(1), "Alice"));
    sim.add_person(Person::new(PersonId(2), "Bob"));
    sim.enter_room(PersonId(1), "kitchen");
    sim.schedule_event(
        SimTime(40),
        EventKind::Custom { description: "doorbell".into() },
        vec![StateEffect::PersonEnteredRoom { person: PersonId(2), room: "hall".into() }],
        Visibility::Public,
    );
    sim.advance(Duration::minutes(1));
    sim.set_belief(PersonId(2), "someone is home", num(1.4));
    sim.promise_made(PersonId(1), PersonId(2), "call back");
    let mut agent = EchoAgent;
    sim.step_agent(PersonId(2), &mut agent).unwrap();
    sim.promise_broken(PersonId(1), PersonId(2), "call back");
    sim.set_affect(PersonId(2), num(-0.4), num(0.6));
    sim
}

#[test]
fn replay_at_the_present_gives_the_current_world() {
    let sim = busy_simulation();
    let replayed = sim.run.replay_to(sim.time()).unwrap();
    let base = sim.run.snapshots.last().unwrap();
    assert_eq!(replayed.people, sim.world.people);
    assert_eq!(replayed.locations, sim.world.locations);
    assert_eq!(replayed.time, sim.time());
    // Only effects are replayed: the event list and id counter are the snapshot's.
    assert_eq!(replayed.events, base.world.events);
    assert_eq!(replayed.next_event_id(), base.world.next_event_id());
}

#[test]
fn replay_after_a_checkpoint_gives_the_current_world() {
    let mut sim = busy_simulation();
    sim.checkpoint();
    sim.leave_room(PersonId(1), "kitchen");
    let replayed = sim.run.replay_to(sim.time()).unwrap();
    assert_eq!(replayed.people, sim.world.people);
    assert_eq!(replayed.time, sim.time());
    assert_eq!(replayed.events.len(), sim.world.events.len() - 1);
    assert_eq!(replayed.person(PersonId(1)).unwrap().location, None);
}

#[test]
fn replay_to_cursor_at_the_end_gives_the_current_world_up_to_the_clock() {
    let mut sim = busy_simulation();
    sim.advance(Duration::seconds(5));
    let n = sim.run.events.len();
    let mut replayed = sim.run.replay_to_cursor(n).unwrap();
    assert_eq!(replayed.people, sim.world.people);
    assert_eq!(replayed.events, sim.world.events);
    replayed.set_time(sim.time());
    assert_eq!(replayed, sim.world);
}

#[test]
fn branch_at_the_present_starts_from_the_current_world() {
    let mut sim = busy_simulation();
    sim.checkpoint();
    let n = sim.run.events.len();
    let child = sim.branch("what-if", n);
    assert_eq!(child.world.people, sim.world.people);
    assert_eq!(child.run.events, sim.run.events);
    assert_eq!(child.run.branch.parent_branch_id.as_deref(), Some("main"));
}

#[test]
fn a_branch_replays_to_its_own_world() {
    let mut sim = Simulation::new();
    sim.add_person(Person::new(PersonId(1), "Alice"));
    sim.add_person(Person::new(PersonId(2), "Bob"));
    sim.promise_made(PersonId(1), PersonId(2), "one");
    sim.advance(Duration::seconds(10));
    sim.enter_room(PersonId(2), "hall");
    sim.checkpoint();
    sim.advance(Duration::seconds(10));
    sim.promise_broken(PersonId(1), PersonId(2), "one");
    let mut child = sim.branch("what-if", 2);
    assert_eq!(child.time(), SimTime(10));
    assert_eq!(child.run.replay_to(child.time()).unwrap().people, child.world.people);
    assert!(child.world.person(PersonId(2)).unwrap().memories.memories.is_empty());
    child.leave_room(PersonId(2), "hall");
    assert_eq!(child.run.replay_to(child.time()).unwrap().people, child.world.people);
}

#[test]
fn sim_time_plus_duration() {
    assert_eq!(SimTime(5) + Duration::seconds(3), SimTime(8));
    assert_eq!(SimTime(0) + Duration::minutes(2), SimTime(120));
}

#[test]
fn branch_without_checkpoint_at_the_cursor_is_refused() {
    let sim = busy_simulation();
    match sim.try_branch("what-if", 2) {
        Err(msg) => assert_eq!(
            msg,
            "branch cursor 2 has no RNG checkpoint; call checkpoint() at the intervention boundary first"
        ),
        Ok(_) => panic!("branch without a checkpoint was accepted"),
    }
}

#[test]
fn equal_times_run_in_scheduling_order() {
    let mut sim = Simulation::new();
    sim.add_person(Person::new(PersonId(1), "Alice"));
    for name in ["first", "second", "third"] {
        sim.schedule_event(SimTime(15), EventKind::Custom { description: name.into() }, vec![], Visibility::Public);
    }
    sim.schedule_event(SimTime(5), EventKind::Custom { description: "zeroth".into() }, vec![], Visibility::Public);
    sim.schedule_event(SimTime(99), EventKind::Custom { description: "late".into() }, vec![], Visibility::Public);
    sim.advance(Duration::seconds(20));
    let names: Vec<String> = sim
        .run
        .events
        .iter()
        .map(|e| match &e.kind {
            EventKind::Custom { description } => description.clone(),
            _ => String::new(),
        })
        .collect();
    assert_eq!(names, vec!["zeroth", "first", "second", "third"]);
    assert_eq!(sim.time(), SimTime(20));
    sim.advance(Duration::seconds(100));
    assert_eq!(sim.run.events.len(), 5);
    assert_eq!(sim.run.events[4].timestamp, SimTime(99));
}

#[test]
fn draws_depend_only_on_seed_and_draw_count() {
    let mut quiet = Simulation::with_seed(99);
    let mut busy = Simulation::with_seed(99);
    let first = quiet.random_u64();
    assert_eq!(busy.random_u64(), first);
    busy.add_person(Person::new(PersonId(1), "Alice"));
    busy.promise_made(PersonId(1), PersonId(1), "x");
    busy.advance(Duration::hours(1));
    busy.checkpoint();
    assert_eq!(busy.random_u64(), quiet.random_u64());
}

#[test]
fn first_draw_follows_the_linear_congruential_step() {
    let mut sim = Simulation::with_seed(1);
    let expected = 1u64.wrapping_mul(6364136223846793005).wrapping_add(1442695040888963407);
    assert_eq!(sim.random_u64(), expected);
    let mut zero = Simulation::with_seed(0);
    let expected_zero = 0x9E37_79B9_7F4A_7C15u64.wrapping_mul(6364136223846793005).wrapping_add(1442695040888963407);
    assert_eq!(zero.random_u64(), expected_zero);
}

#[test]
fn person_map_reads_back_what_was_written() {
    let mut m: PersonMap<u32> = PersonMap::new();
    m.insert(PersonId(3), 30);
    m.insert(PersonId(1), 10);
    assert_eq!(m.get(&PersonId(3)), Some(&30));
    assert_eq!(m.len(), 2);
    m.insert(PersonId(3), 33);
    assert_eq!(m.get(&PersonId(3)), Some(&33));
    assert_eq!(m.get(&PersonId(1)), Some(&10));
    assert_eq!(m.get(&PersonId(2)), None);
    assert_eq!(m.len(), 2);
    assert_eq!(m.key_at(0), PersonId(3));
}

#[test]
fn clamp_unit_lands_in_the_unit_interval() {
    assert_eq!(value(num(1.5).clamp_unit()), 1.0);
    assert_eq!(value(num(-0.25).clamp_unit()), 0.0);
    assert_eq!(value(num(0.3).clamp_unit()), 0.3);
    assert_eq!(num(0.3).clamp_unit().clamp_unit(), num(0.3).clamp_unit());
    assert!(value(num(f32::NAN).clamp_unit()).is_nan());
    assert_eq!(num(-0.0).clamp_unit().to_bits(), (-0.0f32).to_bits());
}

#[test]
fn set_belief_clamps_and_remembers_the_old_confidence() {
    let mut sim = Simulation::new();
    sim.add_person(Person::new(PersonId(1), "Alice"));
    sim.set_belief(PersonId(1), "p", num(0.4));
    sim.set_belief(PersonId(1), "p", num(1.4));
    match &sim.run.events[1].effects[0] {
        StateEffect::BeliefChanged { old_confidence, new_confidence, .. } => {
            assert_eq!(value(*old_confidence), 0.4);
            assert_eq!(value(*new_confidence), 1.0);
        }
        _ => panic!("unexpected effect"),
    }
}

#[test]
fn binary32_addition_rounds_like_f32() {
    assert_eq!(value(num(0.8).add(num(-0.15))), 0.8f32 + -0.15f32);
    assert_eq!(value(num(0.1).add(num(0.2))), 0.1f32 + 0.2f32);
}

#[test]
fn durations_compose() {
    let a = Duration::parse("2h").unwrap();
    let b = Duration::parse("30m").unwrap();
    assert_eq!(Duration::parse("2h30m").unwrap(), Duration::seconds(a.0 + b.0));
    assert_eq!(Duration::parse("1d1h1m1s").unwrap(), Duration::seconds(86_400 + 3_600 + 60 + 1));
    assert_eq!(Duration::parse("007s").unwrap(), Duration::seconds(7));
}

#[test]
fn duration_errors_say_what_is_wrong() {
    assert_eq!(Duration::parse("").unwrap_err(), "duration is empty");
    assert_eq!(Duration::parse("h").unwrap_err(), "duration has unit `h` without a number");
    assert_eq!(Duration::parse("2x").unwrap_err(), "unknown duration unit `x`");
    assert_eq!(Duration::parse("15").unwrap_err(), "duration must end in s, m, h, or d");
    assert_eq!(
        Duration::parse("99999999999999999999s").unwrap_err(),
        "invalid duration number `99999999999999999999`"
    );
    assert_eq!(Duration::parse("18446744073709551615m").unwrap_err(), "duration overflow");
    assert_eq!(Duration::parse("18446744073709551615s1s").unwrap_err(), "duration overflow");
}

#[test]
fn causal_chain_ends_with_the_selected_event() {
    let mut sim = Simulation::new();
    sim.add_person(Person::new(PersonId(1), "Alice"));
    let made = sim.promise_made(PersonId(1), PersonId(1), "hello");
    let mut agent = EchoAgent;
    sim.step_agent(PersonId(1), &mut agent).unwrap();
    let action_event = sim.run.events[1].id;
    let chain: Vec<&Event> = sim.run.causal_chain(action_event);
    assert_eq!(chain.len(), 2);
    assert_eq!(chain[0].id, made);
    assert_eq!(chain[1].id, action_event);
    assert_eq!(chain[1].causal_parents[0], chain[0].id);
    assert!(sim.run.causal_chain(EventId(77)).is_empty());
}

#[test]
fn a_busy_run_validates() {
    let mut sim = busy_simulation();
    sim.checkpoint();
    assert_eq!(sim.run.validate(), Ok(()));
    let timeline = sim.run.timeline();
    for (k, entry) in timeline.iter().enumerate() {
        assert_eq!(entry.trace_sequence(), k as u64);
    }
}

#[test]
fn validation_reports_each_broken_invariant() {
    let mut sim = busy_simulation();
    sim.run.events[0].trace_sequence = 50;
    assert_eq!(sim.run.validate(), Err(RunError::TraceOutOfOrder));

    let mut sim = busy_simulation();
    sim.run.snapshots[0].event_cursor = 1000;
    assert_eq!(sim.run.validate(), Err(RunError::SnapshotOutOfRange));

    let mut sim = busy_simulation();
    sim.run.events[0].causal_parents.push(EventId(500));
    assert_eq!(sim.run.validate(), Err(RunError::UnknownCausalParent));
}

#[test]
fn observation_shows_only_what_the_observer_may_see() {
    let mut sim = Simulation::new();
    sim.add_person(Person::new(PersonId(1), "Alice"));
    sim.add_person(Person::new(PersonId(2), "Bob"));
    sim.schedule_event(
        SimTime(1),
        EventKind::Custom { description: "whisper".into() },
        vec![],
        Visibility::Persons(vec![PersonId(2)]),
    );
    sim.advance(Duration::seconds(1));
    sim.promise_made(PersonId(1), PersonId(2), "hello");

    match sim.observe(PersonId(1)).unwrap() {
        Observation::Text { text, source_events, timestamp, observer } => {
            assert_eq!(source_events, vec![EventId(1)]);
            assert_eq!(text, "PromiseMade { from: PersonId(1), to: PersonId(2), content: \"hello\" }");
            assert_eq!(timestamp, SimTime(1));
            assert_eq!(observer, PersonId(1));
        }
    }
    match sim.observe(PersonId(2)).unwrap() {
        Observation::Text { text, source_events, .. } => {
            assert_eq!(source_events, vec![EventId(0), EventId(1)]);
            assert_eq!(
                text,
                "Custom { description: \"whisper\" }\nPromiseMade { from: PersonId(1), to: PersonId(2), content: \"hello\" }"
            );
        }
    }
    match sim.observe(PersonId(1)).unwrap() {
        Observation::Text { text, source_events, .. } => {
            assert!(source_events.is_empty());
            assert_eq!(text, "Nothing new is observable.");
        }
    }
    assert!(sim.observe(PersonId(9)).is_none());
}

#[test]
fn unknown_actor_is_an_error() {
    let mut sim = Simulation::new();
    let mut agent = EchoAgent;
    let err = sim.step_agent(PersonId(4), &mut agent).unwrap_err();
    assert_eq!(err, WorldError::UnknownPerson(PersonId(4)));
    assert_eq!(err.message(), "person PersonId(4) does not exist");
    assert!(sim.run.events.is_empty());
}

#[test]
fn broken_promise_lowers_trust_and_adds_a_memory() {
    let mut sim = Simulation::new();
    sim.add_person(Person::new(PersonId(1), "Alice"));
    sim.add_person(Person::new(PersonId(2), "Bob"));
    sim.promise_broken(PersonId(1), PersonId(2), "home by 18:00");
    let bob = sim.world.person(PersonId(2)).unwrap();
    assert_eq!(bob.memories.memories.len(), 1);
    assert_eq!(bob.memories.memories[0].description, "1 broke a promise: home by 18:00");
    assert_eq!(value(bob.memories.memories[0].salience), 0.8);
}

#[test]
fn experiment_errors_name_the_missing_person() {
    let mut experiment = Experiment {
        name: "e".into(),
        duration: "1h".into(),
        people: vec![ExperimentPerson { id: PersonId(1), name: "Alice".into() }],
        relationship: Some(RelationshipSetup {
            from: PersonId(1),
            to: PersonId(2),
            trust: num(0.5),
            attachment: num(0.5),
        }),
        intervention: None,
        seed: 3,
    };
    assert_eq!(experiment.instantiate().err(), Some("unknown relationship target PersonId(2)".to_string()));
    experiment.relationship = Some(RelationshipSetup {
        from: PersonId(5),
        to: PersonId(1),
        trust: num(0.5),
        attachment: num(0.5),
    });
    assert_eq!(experiment.instantiate().err(), Some("unknown relationship source PersonId(5)".to_string()));
}

#[test]
fn run_duration_advances_and_checkpoints() {
    let experiment = Experiment {
        name: "e".into(),
        duration: "1h".into(),
        people: vec![ExperimentPerson { id: PersonId(1), name: "Alice".into() }],
        relationship: None,
        intervention: None,
        seed: 3,
    };
    let mut sim = experiment.instantiate().unwrap();
    let snapshots = sim.run.snapshots.len();
    experiment.run_duration(&mut sim).unwrap();
    assert_eq!(sim.time(), SimTime(3600));
    assert_eq!(sim.run.snapshots.len(), snapshots + 1);
    let bad = Experiment { duration: "soon".into(), ..experiment };
    assert_eq!(bad.run_duration(&mut sim).unwrap_err(), "duration has unit `s` without a number");
}

#[test]
fn observation_text_lists_one_description_per_line() {
    assert_eq!(compose_observation_text(&vec![]), "Nothing new is observable.");
    assert_eq!(compose_observation_text(&vec!["a".to_string()]), "a");
    assert_eq!(
        compose_observation_text(&vec!["a".to_string(), "b".to_string(), "c".to_string()]),
        "a\nb\nc"
    );
}

#[test]
fn event_kind_text_is_its_debug_form() {
    let kinds = vec![
        EventKind::PersonEnteredRoom { person: PersonId(3), room: "hall".into() },
        EventKind::AgentAction { actor: PersonId(1), description: "said \"hi\"\n".into() },
        EventKind::AffectChanged { person: PersonId(12) },
        EventKind::MessageSent { from: PersonId(1), to: PersonId(2), content: "tab\there".into() },
    ];
    for kind in &kinds {
        assert_eq!(kind.debug_text(), format!("{:?}", kind));
    }
}

#[test]
fn branch_without_any_snapshot_is_refused() {
    let mut sim = busy_simulation();
    sim.run.snapshots.clear();
    match sim.try_branch("what-if", 1) {
        Err(msg) => assert_eq!(msg, "no snapshot exists from which to replay this cursor"),
        Ok(_) => panic!("branch without a snapshot was accepted"),
    }
    assert!(sim.run.replay_to(sim.time()).is_none());
}

#[test]
fn replay_before_the_first_snapshot_is_impossible() {
    let mut sim = Simulation::new();
    sim.advance(Duration::seconds(50));
    sim.checkpoint();
    sim.run.snapshots.remove(0);
    assert!(sim.run.replay_to(SimTime(10)).is_none());
    assert!(sim.run.replay_to(SimTime(50)).is_some());
}

#[test]
fn branches_of_a_valid_run_are_valid() {
    let mut sim = Simulation::new();
    sim.add_person(Person::new(PersonId(1), "Alice"));
    sim.promise_made(PersonId(1), PersonId(1), "hello");
    let mut agent = EchoAgent;
    sim.step_agent(PersonId(1), &mut agent).unwrap();
    sim.checkpoint();
    sim.step_agent(PersonId(1), &mut agent).unwrap();
    sim.promise_broken(PersonId(1), PersonId(1), "hello");
    assert_eq!(sim.run.validate(), Ok(()));
    for cursor in 0..=sim.run.events.len() + 1 {
        let child = sim.run.branch("b", cursor);
        assert_eq!(child.validate(), Ok(()));
        let grandchild = child.branch("c", cursor / 2);
        assert_eq!(grandchild.validate(), Ok(()));
    }
    let child = sim.run.branch("b", 2);
    assert_eq!(child.events.len(), 2);
    // The second step's observation came before the first dropped event; its
    // action came after.
    assert_eq!(child.observations.len(), 2);
    assert_eq!(child.actions.len(), 1);
    assert_eq!(child.timeline().len(), 5);
}

#[test]
fn replay_by_time_applies_effects_only() {
    let mut sim = Simulation::new();
    sim.promise_made(PersonId(1), PersonId(1), "x");
    let replayed = sim.run.replay_to(sim.time()).unwrap();
    assert!(replayed.events.is_empty());
    assert_eq!(replayed.next_event_id(), 0);
    assert_eq!(sim.world.events.len(), 1);
}

#[test]
fn unit_durations_parse_to_their_constructors() {
    for n in [0u64, 1, 7, 42, 1000] {
        assert_eq!(Duration::parse(&format!("{n}s")).unwrap(), Duration::seconds(n));
        assert_eq!(Duration::parse(&format!("{n}m")).unwrap(), Duration::minutes(n));
        assert_eq!(Duration::parse(&format!("{n}h")).unwrap(), Duration::hours(n));
        assert_eq!(Duration::parse(&format!("{n}d")).unwrap(), Duration::days(n));
    }
    assert_eq!(Duration::days(1), Duration::seconds(86_400));
    assert_eq!(Duration::hours(2), Duration::minutes(120));
}

fn scheduled_simulation() -> Simulation {
    let mut sim = Simulation::new();
    sim.add_person(Person::new(PersonId(1), "Alice"));
    for (t, name) in [(5u64, "a"), (12, "b"), (12, "c"), (30, "d")] {
        sim.schedule_event(
            SimTime(t),
            EventKind::Custom { description: name.into() },
            vec![StateEffect::PersonEnteredRoom { person: PersonId(1), room: name.into() }],
            Visibility::Public,
        );
    }
    sim
}

#[test]
fn splitting_an_advance_changes_nothing() {
    let mut split = scheduled_simulation();
    let mut whole = scheduled_simulation();
    split.advance(Duration::seconds(12));
    split.advance(Duration::seconds(13));
    whole.advance(Duration::seconds(25));
    assert_eq!(split.time(), whole.time());
    assert_eq!(split.run.events, whole.run.events);
    assert_eq!(split.world, whole.world);
}

#[test]
fn no_event_is_delivered_twice() {
    let mut sim = Simulation::new();
    sim.add_person(Person::new(PersonId(1), "Alice"));
    sim.promise_made(PersonId(1), PersonId(1), "one");
    let first = match sim.observe(PersonId(1)).unwrap() {
        Observation::Text { source_events, .. } => source_events,
    };
    sim.promise_made(PersonId(1), PersonId(1), "two");
    sim.enter_room(PersonId(1), "hall");
    let second = match sim.observe(PersonId(1)).unwrap() {
        Observation::Text { source_events, .. } => source_events,
    };
    assert_eq!(first, vec![EventId(0)]);
    assert_eq!(second, vec![EventId(1), EventId(2)]);
    assert!(first.iter().all(|id| !second.contains(id)));
}

#[test]
fn causal_chain_follows_a_parent_recorded_later() {
    let mut sim = Simulation::new();
    sim.add_person(Person::new(PersonId(1), "Alice"));
    for c in ["a", "b", "c"] {
        sim.promise_made(PersonId(1), PersonId(1), c);
    }
    sim.run.events[1].causal_parents = vec![EventId(2)];
    sim.run.events[2].causal_parents = vec![];
    let ids: Vec<EventId> = sim.run.causal_chain(EventId(1)).iter().map(|e| e.id).collect();
    assert_eq!(ids, vec![EventId(2), EventId(1)]);
    let ids: Vec<EventId> = sim.run.causal_chain(EventId(0)).iter().map(|e| e.id).collect();
    assert_eq!(ids, vec![EventId(0)]);
}
