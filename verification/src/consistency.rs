//! The replay guarantee: a simulation's recorded history reproduces its world.
//!
//! Every operation of `Simulation` keeps the history consistent with the
//! world, and from a consistent history `Run::replay_to` at the current time,
//! which applies the recorded effects to the latest snapshot's world,
//! reconstructs exactly the current people, locations and time. Any sequence
//! of calls from a new simulation keeps this (`lemma_operations_replay`).

use vstd::prelude::*;
use crate::agent::ActionView;
use crate::effect::StateEffectView;
use crate::event::{EventKindView, EventView, VisibilityView};
use crate::experiment::{
    initial_relationship, instantiated, with_people, ExperimentPersonView, RelationshipSetup,
};
use crate::ids::{EventId, PersonId};
use crate::person::{new_person, PersonView};
use crate::event::visible;
use crate::person_map::{lemma_lookup_store, lookup, store};
use crate::replay::{
    base_snapshot, branched, captured_by, fork_cursor, lemma_base_snapshot_bounds, replay_all,
    replay_until, replayed_at, replayed_through, taken_before_cursor, taken_by, trace_len,
    ObservationRecordView, RunView, SnapshotView,
};
use crate::rng::lcg_next;
use crate::sequencing::{
    lemma_advanced_valid, lemma_checkpointed_valid, lemma_emitted_valid, lemma_seeded_valid,
    lemma_stepped_valid, well_recorded,
};
use crate::simulation::{
    advanced, after_observing, branch_of, emitted, can_record, checkpointed, cursor_of, observed_from,
    visible_event_after, lemma_observation_shows_only_visible, lemma_next_due_bounds,
    lemma_next_due_earliest, lemma_recorded_counts, next_due, observation_for, recorded,
    recorded_event, run_due, seeded_simulation, snapshot_of, source_events_of, stepped,
    ScheduledView, SimulationView,
};
use crate::time::{Duration, SimTime};
use crate::world::{
    action_text, id_after, latest_event_parent, lemma_effects_keep_history, world_after_effect,
    world_after_effects, world_after_emit, world_after_replay, world_with_relationship, WorldView,
};

verus! {

/// The two worlds agree in everything but the clock.
pub open spec fn same_but_time(a: WorldView, b: WorldView) -> bool {
    WorldView { time: b.time, ..a } == b
}

/// The structural part of consistency: the world's event list is the run's;
/// every snapshot holds the history up to its cursor, and snapshot cursors
/// never go back; time never goes back either: events are recorded in time
/// order, none lies after the world's clock or before a snapshot that precedes
/// it or after one that follows it, snapshots are taken in time order and none
/// is later than the clock, and nothing is scheduled in the past; event ids
/// increase along the history and stay below the world's (and each snapshot's)
/// id counter.
pub open spec fn sound(s: SimulationView) -> bool {
    let es = s.run.events;
    let snaps = s.run.snapshots;
    let now = s.world.time.0;
    &&& s.world.events == es
    &&& forall|i: int|
        0 <= i < snaps.len() ==> {
            &&& (#[trigger] snaps[i]).event_cursor <= es.len()
            &&& snaps[i].world.events == es.take(snaps[i].event_cursor as int)
            &&& snaps[i].time == snaps[i].world.time
            &&& snaps[i].time.0 <= now
        }
    &&& forall|i: int, j: int|
        0 <= i <= j < snaps.len() ==> (#[trigger] snaps[i]).event_cursor <= (#[trigger] snaps[j]).event_cursor
            && snaps[i].time.0 <= snaps[j].time.0
    &&& forall|i: int, j: int| 0 <= i <= j < es.len() ==> (#[trigger] es[i]).timestamp.0 <= (#[trigger] es[j]).timestamp.0
    &&& forall|k: int| 0 <= k < es.len() ==> (#[trigger] es[k]).timestamp.0 <= now
    &&& forall|i: int, k: int|
        0 <= i < snaps.len() && 0 <= k < es.len() ==> (k < (#[trigger] snaps[i]).event_cursor ==> (
        #[trigger] es[k]).timestamp.0 <= snaps[i].time.0) && (snaps[i].event_cursor <= k ==> snaps[i].time.0
            <= es[k].timestamp.0)
    &&& forall|j: int| 0 <= j < s.scheduled.len() ==> (#[trigger] s.scheduled[j]).timestamp.0 >= now
    &&& ids_increasing(es)
    &&& forall|k: int| 0 <= k < es.len() ==> (#[trigger] es[k]).id.0 < s.world.next_event_id
    &&& forall|i: int, k: int|
        0 <= i < snaps.len() && 0 <= k < (#[trigger] snaps[i]).event_cursor && k < es.len() ==> (
        #[trigger] es[k]).id.0 < snaps[i].world.next_event_id
}

/// Event ids strictly increase along the list, so no id occurs twice.
pub open spec fn ids_increasing(es: Seq<EventView>) -> bool {
    forall|i: int, j: int| 0 <= i < j < es.len() ==> (#[trigger] es[i]).id.0 < (#[trigger] es[j]).id.0
}

/// The history reproduces the world: replaying the events recorded after the
/// latest snapshot on that snapshot's world gives the current world, up to the clock.
pub open spec fn consistent(s: SimulationView) -> bool {
    let es = s.run.events;
    let snaps = s.run.snapshots;
    &&& sound(s)
    &&& snaps.len() > 0
    &&& same_but_time(replay_all(snaps.last().world, es.skip(snaps.last().event_cursor as int)), s.world)
}

/// The people after some effects depend only on the people before them.
proof fn lemma_effects_on_people(w1: WorldView, w2: WorldView, es: Seq<StateEffectView>)
    requires
        w1.people == w2.people,
    ensures
        world_after_effects(w1, es).people == world_after_effects(w2, es).people,
    decreases es.len(),
{
    if es.len() > 0 {
        lemma_effects_on_people(w1, w2, es.drop_last());
    }
}

/// Applying the effects of events none of which is later than `t` changes the
/// people as replaying the events does, and nothing else.
proof fn lemma_replay_until_all(w1: WorldView, w2: WorldView, es: Seq<EventView>, t: SimTime)
    requires
        w1.people == w2.people,
        forall|k: int| 0 <= k < es.len() ==> (#[trigger] es[k]).timestamp.0 <= t.0,
    ensures
        replay_until(w1, es, t) == (WorldView { people: replay_all(w2, es).people, ..w1 }),
        replay_all(w2, es).locations == w2.locations,
    decreases es.len(),
{
    if es.len() > 0 {
        let rest = es.drop_first();
        assert forall|k: int| 0 <= k < rest.len() implies (#[trigger] rest[k]).timestamp.0 <= t.0 by {
            assert(rest[k] == es[k + 1]);
        }
        lemma_effects_keep_history(w1, es[0].effects);
        lemma_effects_keep_history(w2, es[0].effects);
        lemma_effects_on_people(w1, w2, es[0].effects);
        lemma_replay_until_all(world_after_effects(w1, es[0].effects), world_after_replay(w2, es[0]), rest, t);
    } else {
        assert(replay_until(w1, es, t) =~= (WorldView { people: w2.people, ..w1 }));
    }
}

/// Replaying one more event at the end.
proof fn lemma_replay_all_push(w: WorldView, es: Seq<EventView>, e: EventView)
    ensures
        replay_all(w, es.push(e)) == world_after_replay(replay_all(w, es), e),
    decreases es.len(),
{
    if es.len() == 0 {
        assert(es.push(e)[0] == e);
        assert(es.push(e).drop_first() =~= Seq::<EventView>::empty());
        assert(replay_all(world_after_replay(w, e), Seq::<EventView>::empty()) == world_after_replay(w, e));
        assert(replay_all(w, es) == w);
    } else {
        assert(es.push(e)[0] == es[0]);
        assert(es.push(e).drop_first() =~= es.drop_first().push(e));
        lemma_replay_all_push(world_after_replay(w, es[0]), es.drop_first(), e);
    }
}

/// Effects neither read nor write the clock.
proof fn lemma_effect_ignores_time(w: WorldView, e: StateEffectView, t: SimTime)
    ensures
        world_after_effect((WorldView { time: t, ..w }), e) == (WorldView { time: t, ..world_after_effect(w, e) }),
{
}

proof fn lemma_effects_ignore_time(w: WorldView, es: Seq<StateEffectView>, t: SimTime)
    ensures
        world_after_effects((WorldView { time: t, ..w }), es) == (WorldView { time: t, ..world_after_effects(w, es) }),
    decreases es.len(),
{
    if es.len() > 0 {
        lemma_effects_ignore_time(w, es.drop_last(), t);
        lemma_effect_ignores_time(world_after_effects(w, es.drop_last()), es.last(), t);
    }
}

/// When every snapshot is eligible up to the last one's cursor, and the last
/// one is eligible, replay starts from the last one.
proof fn lemma_base_is_last(snaps: Seq<SnapshotView>, eligible: spec_fn(SnapshotView) -> bool)
    requires
        snaps.len() > 0,
        eligible(snaps.last()),
        forall|i: int| 0 <= i < snaps.len() ==> (#[trigger] snaps[i]).event_cursor <= snaps.last().event_cursor,
    ensures
        base_snapshot(snaps, eligible) == Some(snaps.len() - 1),
{
    crate::replay::lemma_base_snapshot_bounds(snaps.drop_last(), eligible);
    match base_snapshot(snaps.drop_last(), eligible) {
        Some(i) => {
            assert(snaps.drop_last()[i] == snaps[i]);
        },
        None => {},
    }
}

/// The replay guarantee: from a consistent history, reconstructing the world
/// at the current time gives exactly the current people, locations and time;
/// the event list and id counter are those of the snapshot it starts from.
pub proof fn lemma_replay_reproduces_world(s: SimulationView)
    requires
        consistent(s),
    ensures
        replayed_at(s.run, s.world.time) == Some(
            WorldView {
                events: s.run.snapshots.last().world.events,
                next_event_id: s.run.snapshots.last().world.next_event_id,
                ..s.world
            },
        ),
{
    let snaps = s.run.snapshots;
    let es = s.run.events;
    let last = snaps.last();
    assert forall|i: int| 0 <= i < snaps.len() implies (#[trigger] snaps[i]).event_cursor <= snaps.last().event_cursor by {
        assert(snaps[i].event_cursor <= snaps[snaps.len() - 1].event_cursor);
    }
    lemma_base_is_last(snaps, taken_by(s.world.time));
    let tail = es.skip(last.event_cursor as int);
    assert forall|k: int| 0 <= k < tail.len() implies (#[trigger] tail[k]).timestamp.0 <= s.world.time.0 by {
        assert(tail[k] == es[k + last.event_cursor]);
    }
    lemma_replay_until_all(last.world, last.world, tail, s.world.time);
    assert(replayed_at(s.run, s.world.time)->0 =~= (WorldView {
        events: last.world.events,
        next_event_id: last.world.next_event_id,
        ..s.world
    }));
}

/// A new simulation is consistent.
pub proof fn lemma_seeded_consistent(seed: u64)
    ensures
        consistent(seeded_simulation(seed)),
{
    let s = seeded_simulation(seed);
    assert(s.run.events.take(0) =~= s.run.events);
    assert(s.run.events.skip(0) =~= Seq::<EventView>::empty());
}

/// A checkpoint makes a sound simulation consistent: the new snapshot is the
/// current world at the current cursor.
pub proof fn lemma_checkpoint_consistent(s: SimulationView)
    requires
        sound(s),
        s.run.events.len() <= usize::MAX,
    ensures
        consistent(checkpointed(s)),
{
    let c = checkpointed(s);
    let es = s.run.events;
    let snaps = c.run.snapshots;
    assert(es.take(es.len() as int) =~= es);
    assert(es.skip(es.len() as int) =~= Seq::<EventView>::empty());
    assert forall|i: int| 0 <= i < snaps.len() implies {
        &&& (#[trigger] snaps[i]).event_cursor <= es.len()
        &&& snaps[i].world.events == es.take(snaps[i].event_cursor as int)
        &&& snaps[i].time == snaps[i].world.time
    } by {
        if i < s.run.snapshots.len() {
            assert(snaps[i] == s.run.snapshots[i]);
        } else {
            assert(snaps[i] == snapshot_of(s.run, s.world, s.rng_state));
        }
    }
    assert forall|i: int, j: int|
        0 <= i <= j < snaps.len() implies (#[trigger] snaps[i]).event_cursor <= (#[trigger] snaps[j]).event_cursor by {
        if j < s.run.snapshots.len() {
            assert(snaps[i] == s.run.snapshots[i]);
            assert(snaps[j] == s.run.snapshots[j]);
        } else if i < s.run.snapshots.len() {
            assert(snaps[i] == s.run.snapshots[i]);
        }
    }
}

/// Appending an event keeps every snapshot's prefix of the history.
proof fn lemma_sound_after_push(s: SimulationView, t: SimulationView, e: EventView)
    requires
        sound(s),
        t.run.events == s.run.events.push(e),
        t.world.events == t.run.events,
        t.run.snapshots == s.run.snapshots,
        t.world.time == s.world.time,
        t.scheduled == s.scheduled,
        e.timestamp == s.world.time,
        e.id.0 == s.world.next_event_id,
        t.world.next_event_id == s.world.next_event_id + 1,
    ensures
        sound(t),
{
    let es = s.run.events;
    let snaps = s.run.snapshots;
    let es2 = t.run.events;
    assert forall|i: int, j: int| 0 <= i < j < es2.len() implies (#[trigger] es2[i]).id.0 < (#[trigger] es2[j]).id.0 by {
        if j < es.len() {
            assert(es2[i] == es[i] && es2[j] == es[j]);
        } else {
            assert(es2[i] == es[i]);
        }
    }
    assert forall|k: int| 0 <= k < es2.len() implies (#[trigger] es2[k]).id.0 < t.world.next_event_id by {
        if k < es.len() {
            assert(es2[k] == es[k]);
        }
    }
    assert forall|i: int, k: int|
        0 <= i < snaps.len() && 0 <= k < (#[trigger] snaps[i]).event_cursor && k < es2.len() implies (
        #[trigger] es2[k]).id.0 < snaps[i].world.next_event_id by {
        assert(es2[k] == es[k]);
    }
    assert forall|i: int, j: int| 0 <= i <= j < es2.len() implies (#[trigger] es2[i]).timestamp.0
        <= (#[trigger] es2[j]).timestamp.0 by {
        if j < es.len() {
            assert(es2[i] == es[i] && es2[j] == es[j]);
        } else if i < es.len() {
            assert(es2[i] == es[i]);
        }
    }
    assert forall|k: int| 0 <= k < es2.len() implies (#[trigger] es2[k]).timestamp.0 <= t.world.time.0 by {
        if k < es.len() {
            assert(es2[k] == es[k]);
        }
    }
    assert forall|i: int, k: int|
        0 <= i < snaps.len() && (#[trigger] snaps[i]).event_cursor <= k < es2.len() implies snaps[i].time.0
            <= (#[trigger] es2[k]).timestamp.0 by {
        if k < es.len() {
            assert(es2[k] == es[k]);
        }
    }
    assert forall|i: int| 0 <= i < snaps.len() implies t.run.events.take(
        (#[trigger] snaps[i]).event_cursor as int,
    ) == es.take(snaps[i].event_cursor as int) by {
        assert(t.run.events.take(snaps[i].event_cursor as int) =~= es.take(snaps[i].event_cursor as int));
    }
}

/// Recording an event keeps the history consistent: replaying the new event
/// on the replayed world does exactly what emitting it did.
pub proof fn lemma_recorded_consistent(
    s: SimulationView,
    kind: EventKindView,
    effects: Seq<StateEffectView>,
    visibility: VisibilityView,
    parents: Seq<EventId>,
)
    requires
        consistent(s),
        can_record(s),
    ensures
        consistent(recorded(s, kind, effects, visibility, parents)),
{
    let t = recorded(s, kind, effects, visibility, parents);
    let e = recorded_event(s, kind, effects, visibility, parents);
    let es = s.run.events;
    let last = s.run.snapshots.last();
    let c = last.event_cursor as int;
    lemma_effects_keep_history(s.world, effects);
    let applied = world_after_effects(s.world, effects);
    let w1 = world_after_emit(s.world, kind, effects, visibility, parents);
    assert(w1.events.update(w1.events.len() - 1, e) =~= applied.events.push(e));
    assert(t.world.events =~= t.run.events);
    lemma_sound_after_push(s, t, e);
    assert(t.run.events.skip(c) =~= es.skip(c).push(e));
    let r = replay_all(last.world, es.skip(c));
    lemma_replay_all_push(last.world, es.skip(c), e);
    assert(r == WorldView { time: r.time, ..s.world });
    lemma_effects_ignore_time(s.world, effects, r.time);
    assert(world_after_replay(r, e) =~= t.world);
}

/// Running the due scheduled events keeps the history consistent, leaves the
/// clock at or before the target and only later events in the schedule.
proof fn lemma_run_due_consistent(s: SimulationView, target: SimTime)
    requires
        consistent(s),
        s.world.time.0 <= target.0,
        s.world.next_event_id + s.scheduled.len() <= u64::MAX,
        trace_len(s.run) + s.scheduled.len() <= u64::MAX,
    ensures
        consistent(run_due(s, target)),
        run_due(s, target).world.time.0 <= target.0,
        forall|j: int|
            0 <= j < run_due(s, target).scheduled.len() ==> (#[trigger] run_due(s, target).scheduled[j]).timestamp.0
                > target.0,
    decreases s.scheduled.len(),
{
    lemma_next_due_bounds(s.scheduled, target);
    lemma_next_due_earliest(s.scheduled, target);
    match next_due(s.scheduled, target) {
        None => {},
        Some(i) => {
            let ev = s.scheduled[i];
            let s1 = SimulationView {
                scheduled: s.scheduled.remove(i),
                world: WorldView { time: ev.timestamp, ..s.world },
                ..s
            };
            assert forall|j: int| 0 <= j < s1.scheduled.len() implies (#[trigger] s1.scheduled[j]).timestamp.0
                >= s1.world.time.0 by {
                if j < i {
                    assert(s1.scheduled[j] == s.scheduled[j]);
                } else {
                    assert(s1.scheduled[j] == s.scheduled[j + 1]);
                }
            }
            assert(consistent(s1));
            let parents = latest_event_parent(s1.world);
            lemma_recorded_consistent(s1, ev.kind, ev.effects, ev.visibility, parents);
            lemma_recorded_counts(s1, ev.kind, ev.effects, ev.visibility, parents);
            let s2 = recorded(s1, ev.kind, ev.effects, ev.visibility, parents);
            lemma_effects_keep_history(s1.world, ev.effects);
            lemma_run_due_consistent(s2, target);
        },
    }
}

/// Advancing the clock keeps the history consistent.
pub proof fn lemma_advanced_consistent(s: SimulationView, d: Duration)
    requires
        consistent(s),
        s.world.time.0 + d.0 <= u64::MAX,
        s.world.next_event_id + s.scheduled.len() <= u64::MAX,
        trace_len(s.run) + s.scheduled.len() <= u64::MAX,
    ensures
        consistent(advanced(s, d)),
{
    let target = SimTime((s.world.time.0 + d.0) as u64);
    lemma_run_due_consistent(s, target);
    let r = run_due(s, target);
    let a = advanced(s, d);
    assert forall|j: int| 0 <= j < a.scheduled.len() implies (#[trigger] a.scheduled[j]).timestamp.0
        >= a.world.time.0 by {
        assert(a.scheduled[j] == r.scheduled[j]);
    }
}

/// Adding a person (setup state, not an event) and then checkpointing leaves
/// a consistent history.
pub proof fn lemma_add_person_consistent(s: SimulationView, id: PersonId, p: PersonView)
    requires
        sound(s),
        s.run.events.len() <= usize::MAX,
    ensures
        consistent(
            checkpointed(
                SimulationView { world: WorldView { people: store(s.world.people, id, p), ..s.world }, ..s },
            ),
        ),
{
    lemma_checkpoint_consistent(
        SimulationView { world: WorldView { people: store(s.world.people, id, p), ..s.world }, ..s },
    );
}

/// Observing moves only the observer's cursor, so the history stays consistent.
pub proof fn lemma_observing_consistent(s: SimulationView, observer: PersonId)
    requires
        consistent(s),
    ensures
        consistent(after_observing(s, observer)),
{
}

/// Drawing a random number changes only the generator state.
pub proof fn lemma_random_consistent(s: SimulationView)
    requires
        consistent(s),
    ensures
        consistent(SimulationView { rng_state: lcg_next(s.rng_state), ..s }),
{
}

/// Scheduling an event at or after the current time keeps the history consistent.
pub proof fn lemma_scheduled_consistent(s: SimulationView, ev: ScheduledView)
    requires
        consistent(s),
        ev.timestamp.0 >= s.world.time.0,
    ensures
        consistent(SimulationView { scheduled: s.scheduled.push(ev), ..s }),
{
    let t = SimulationView { scheduled: s.scheduled.push(ev), ..s };
    assert forall|j: int| 0 <= j < t.scheduled.len() implies (#[trigger] t.scheduled[j]).timestamp.0
        >= t.world.time.0 by {
        if j < s.scheduled.len() {
            assert(t.scheduled[j] == s.scheduled[j]);
        }
    }
}

/// An agent step keeps the history consistent: the observation and action
/// records do not touch the world, and the action's event is recorded.
pub proof fn lemma_stepped_consistent(s: SimulationView, actor: PersonId, action: ActionView)
    requires
        consistent(s),
        s.world.next_event_id < u64::MAX,
        trace_len(s.run) + 2 <= u64::MAX,
    ensures
        consistent(stepped(s, actor, action)),
{
    let o = observation_for(s, actor);
    let src = source_events_of(o);
    let s1 = after_observing(s, actor);
    let s2 = SimulationView {
        run: RunView {
            observations: s1.run.observations.push(
                ObservationRecordView {
                    trace_sequence: trace_len(s1.run) as u64,
                    timestamp: s1.world.time,
                    observer: actor,
                    observation: o,
                    source_events: src,
                },
            ),
            ..s1.run
        },
        ..s1
    };
    assert(consistent(s2));
    let name = lookup(s.world.people, actor)->0.name;
    lemma_recorded_consistent(
        s2,
        EventKindView::AgentAction { actor, description: action_text(name, action) },
        Seq::empty(),
        VisibilityView::Public,
        src,
    );
}

/// Adding people one by one (each followed by a checkpoint) keeps the event
/// history and leaves it sound.
proof fn lemma_with_people_sound(s: SimulationView, ps: Seq<ExperimentPersonView>)
    requires
        sound(s),
        s.run.events.len() <= usize::MAX,
    ensures
        sound(with_people(s, ps)),
        with_people(s, ps).run.events == s.run.events,
    decreases ps.len(),
{
    if ps.len() > 0 {
        lemma_with_people_sound(s, ps.drop_last());
        let s1 = with_people(s, ps.drop_last());
        let p = ps.last();
        lemma_add_person_consistent(s1, p.id, new_person(p.id, p.name));
    }
}

/// An instantiated experiment starts from a consistent history.
pub proof fn lemma_instantiated_consistent(
    seed: u64,
    people: Seq<ExperimentPersonView>,
    relationship: Option<RelationshipSetup>,
)
    ensures
        instantiated(seed, people, relationship) matches Ok(s) ==> consistent(s),
{
    let s0 = seeded_simulation(seed);
    lemma_seeded_consistent(seed);
    lemma_with_people_sound(s0, people);
    let s = with_people(s0, people);
    match relationship {
        None => lemma_checkpoint_consistent(s),
        Some(r) => {
            let t = SimulationView {
                world: world_with_relationship(s.world, r.from, r.to, initial_relationship(r)),
                ..s
            };
            assert(sound(t));
            lemma_checkpoint_consistent(t);
        },
    }
}

/// Reconstructing by cursor at the end of a consistent history gives the
/// current world, up to the clock.
pub proof fn lemma_replay_through_present(s: SimulationView)
    requires
        consistent(s),
    ensures
        replayed_through(s.run, s.run.events.len() as int) matches Some(w) && same_but_time(w, s.world),
{
    let snaps = s.run.snapshots;
    let es = s.run.events;
    let last = snaps.last();
    assert forall|i: int| 0 <= i < snaps.len() implies (#[trigger] snaps[i]).event_cursor <= snaps.last().event_cursor by {
        assert(snaps[i].event_cursor <= snaps[snaps.len() - 1].event_cursor);
    }
    lemma_base_is_last(snaps, taken_before_cursor(es.len() as int));
    assert(es.subrange(last.event_cursor as int, es.len() as int) =~= es.skip(last.event_cursor as int));
}

/// A branch forked at the current cursor of a consistent simulation starts
/// from the current world (up to the clock) with the whole event history.
pub proof fn lemma_branch_at_present(s: SimulationView, branch_id: Seq<char>)
    requires
        consistent(s),
    ensures
        branch_of(s, branch_id, s.run.events.len() as int) matches Ok(child) ==> same_but_time(
            child.world,
            s.world,
        ) && child.run.events == s.run.events,
{
    lemma_replay_through_present(s);
    assert(s.run.events.take(s.run.events.len() as int) =~= s.run.events);
}

/// Cursor order survives filtering.
proof fn lemma_filter_keeps_cursor_order(snaps: Seq<SnapshotView>, p: spec_fn(SnapshotView) -> bool)
    requires
        forall|i: int, j: int|
            0 <= i <= j < snaps.len() ==> (#[trigger] snaps[i]).event_cursor <= (#[trigger] snaps[j]).event_cursor
                && snaps[i].time.0 <= snaps[j].time.0,
    ensures
        forall|i: int, j: int|
            0 <= i <= j < snaps.filter(p).len() ==> (#[trigger] snaps.filter(p)[i]).event_cursor <= (
            #[trigger] snaps.filter(p)[j]).event_cursor && snaps.filter(p)[i].time.0 <= snaps.filter(p)[j].time.0,
    decreases snaps.len(),
{
    reveal(Seq::filter);
    if snaps.len() > 0 {
        let d = snaps.drop_last();
        assert forall|i: int, j: int| 0 <= i <= j < d.len() implies (#[trigger] d[i]).event_cursor <= (
        #[trigger] d[j]).event_cursor && d[i].time.0 <= d[j].time.0 by {
            assert(d[i] == snaps[i] && d[j] == snaps[j]);
        }
        lemma_filter_keeps_cursor_order(d, p);
        let f = d.filter(p);
        if p(snaps.last()) {
            let g = f.push(snaps.last());
            assert(snaps.filter(p) == g);
            assert forall|i: int, j: int| 0 <= i <= j < g.len() implies (#[trigger] g[i]).event_cursor <= (
            #[trigger] g[j]).event_cursor && g[i].time.0 <= g[j].time.0 by {
                if j < f.len() {
                    assert(g[i] == f[i] && g[j] == f[j]);
                } else if i < f.len() {
                    assert(g[i] == f[i]);
                    assert(f.contains(f[i]));
                    d.lemma_filter_contains_rev(p, f[i]);
                    let m = choose|m: int| 0 <= m < d.len() && d[m] == f[i];
                    assert(snaps[m] == d[m]);
                    assert(g[j] == snaps[snaps.len() - 1]);
                }
            }
        }
    }
}

/// With cursors in order, the last snapshot at or before a cursor is the
/// one reconstruction by cursor starts from.
proof fn lemma_last_captured_is_base(snaps: Seq<SnapshotView>, c: int)
    requires
        forall|i: int, j: int|
            0 <= i <= j < snaps.len() ==> (#[trigger] snaps[i]).event_cursor <= (#[trigger] snaps[j]).event_cursor,
    ensures
        match base_snapshot(snaps, taken_before_cursor(c)) {
            Some(i) => snaps.filter(captured_by(c)).len() > 0 && snaps.filter(captured_by(c)).last() == snaps[i],
            None => snaps.filter(captured_by(c)).len() == 0,
        },
    decreases snaps.len(),
{
    reveal(Seq::filter);
    if snaps.len() > 0 {
        let d = snaps.drop_last();
        assert forall|i: int, j: int| 0 <= i <= j < d.len() implies (#[trigger] d[i]).event_cursor <= (
        #[trigger] d[j]).event_cursor by {
            assert(d[i] == snaps[i] && d[j] == snaps[j]);
        }
        lemma_last_captured_is_base(d, c);
        lemma_base_snapshot_bounds(d, taken_before_cursor(c));
        match base_snapshot(d, taken_before_cursor(c)) {
            Some(i) => {
                assert(d[i] == snaps[i]);
            },
            None => {},
        }
    }
}

/// Replaying appends the events and leaves the clock at the last one's time.
proof fn lemma_replay_all_shape(w: WorldView, es: Seq<EventView>)
    ensures
        replay_all(w, es).events == w.events + es,
        replay_all(w, es).time == if es.len() > 0 { es.last().timestamp } else { w.time },
        replay_all(w, es).next_event_id == if es.len() > 0 { id_after(es.last().id) } else { w.next_event_id },
    decreases es.len(),
{
    if es.len() > 0 {
        let w1 = world_after_replay(w, es[0]);
        lemma_effects_keep_history(w, es[0].effects);
        lemma_replay_all_shape(w1, es.drop_first());
        assert(w.events + es =~= w1.events + es.drop_first());
        if es.len() > 1 {
            assert(es.drop_first().last() == es.last());
        }
    } else {
        assert(w.events + es =~= w.events);
    }
}

/// A branch is itself a consistent simulation: its world is what its own
/// history reconstructs, so replaying the child reproduces the child.
pub proof fn lemma_branch_consistent(s: SimulationView, branch_id: Seq<char>, event_cursor: int)
    requires
        sound(s),
    ensures
        branch_of(s, branch_id, event_cursor) matches Ok(child) ==> consistent(child),
{
    let es = s.run.events;
    let snaps = s.run.snapshots;
    let c = fork_cursor(s.run, event_cursor);
    match base_snapshot(snaps, taken_before_cursor(c)) {
        None => {},
        Some(i) => {
            lemma_base_snapshot_bounds(snaps, taken_before_cursor(c));
            let base = snaps[i];
            let bc = base.event_cursor as int;
            let tail = es.subrange(bc, c);
            let w = replay_all(base.world, tail);
            let child_run = branched(s.run, branch_id, event_cursor);
            let cs = child_run.snapshots;
            let ces = child_run.events;
            lemma_last_captured_is_base(snaps, c);
            lemma_filter_keeps_cursor_order(snaps, captured_by(c));
            lemma_replay_all_shape(base.world, tail);
            assert(ces == es.take(c));
            assert(w.events =~= ces);
            let t = w.time.0;
            assert(base.time.0 <= t) by {
                if tail.len() > 0 {
                    assert(tail.last() == es[c - 1]);
                }
            }
            assert forall|k: int| 0 <= k < ces.len() implies (#[trigger] ces[k]).timestamp.0 <= t by {
                assert(ces[k] == es[k]);
                if tail.len() > 0 {
                    assert(tail.last() == es[c - 1]);
                }
            }
            assert forall|m: int| 0 <= m < cs.len() implies {
                &&& (#[trigger] cs[m]).event_cursor <= ces.len()
                &&& cs[m].world.events == ces.take(cs[m].event_cursor as int)
                &&& cs[m].time == cs[m].world.time
                &&& cs[m].time.0 <= t
            } by {
                assert(cs.contains(cs[m]));
                snaps.lemma_filter_contains_rev(captured_by(c), cs[m]);
                snaps.lemma_filter_pred(captured_by(c), m);
                let n = choose|n: int| 0 <= n < snaps.len() && snaps[n] == cs[m];
                assert(ces.take(cs[m].event_cursor as int) =~= es.take(cs[m].event_cursor as int));
                assert(cs[m].time.0 <= cs.last().time.0);
            }
            assert forall|m: int, k: int|
                0 <= m < cs.len() && 0 <= k < ces.len() implies (k < (#[trigger] cs[m]).event_cursor ==> (
                #[trigger] ces[k]).timestamp.0 <= cs[m].time.0) && (cs[m].event_cursor <= k ==> cs[m].time.0
                    <= ces[k].timestamp.0) by {
                assert(cs.contains(cs[m]));
                snaps.lemma_filter_contains_rev(captured_by(c), cs[m]);
                let n = choose|n: int| 0 <= n < snaps.len() && snaps[n] == cs[m];
                assert(ces[k] == es[k]);
            }
            assert forall|a: int, b: int| 0 <= a <= b < ces.len() implies (#[trigger] ces[a]).timestamp.0
                <= (#[trigger] ces[b]).timestamp.0 by {
                assert(ces[a] == es[a] && ces[b] == es[b]);
            }
            assert(ces.skip(bc) =~= tail);
            assert forall|k: int| 0 <= k < ces.len() implies (#[trigger] ces[k]).id.0 < w.next_event_id by {
                assert(ces[k] == es[k]);
                if tail.len() > 0 {
                    assert(tail.last() == es[c - 1]);
                    assert(es[c - 1].id.0 < s.world.next_event_id);
                    if k < c - 1 {
                        assert(es[k].id.0 < es[c - 1].id.0);
                    }
                } else {
                    assert(k < bc);
                }
            }
            assert forall|a: int, b: int| 0 <= a < b < ces.len() implies (#[trigger] ces[a]).id.0 < (
            #[trigger] ces[b]).id.0 by {
                assert(ces[a] == es[a] && ces[b] == es[b]);
            }
            assert forall|m: int, k: int|
                0 <= m < cs.len() && 0 <= k < (#[trigger] cs[m]).event_cursor && k < ces.len() implies (
                #[trigger] ces[k]).id.0 < cs[m].world.next_event_id by {
                assert(cs.contains(cs[m]));
                snaps.lemma_filter_contains_rev(captured_by(c), cs[m]);
                let n = choose|n: int| 0 <= n < snaps.len() && snaps[n] == cs[m];
                assert(ces[k] == es[k]);
            }
        },
    }
}

/// No event is delivered twice to an observer: once `observer` has observed in
/// `s`, a later simulation `t` whose history extends `s`'s and in which
/// `observer`'s cursor has not moved since (only observing moves it) delivers
/// none of the events `s` delivered, hidden ones included.
pub proof fn lemma_observations_never_repeat(s: SimulationView, t: SimulationView, observer: PersonId)
    requires
        s.world.events.len() <= usize::MAX,
        sound(t),
        s.world.events.len() <= t.world.events.len(),
        t.world.events.take(s.world.events.len() as int) == s.world.events,
        cursor_of(t.cursors, observer) == cursor_of(after_observing(s, observer).cursors, observer),
    ensures
        forall|k: int, m: int|
            0 <= k < source_events_of(observation_for(s, observer)).len() && 0 <= m < source_events_of(
                observation_for(t, observer),
            ).len() ==> #[trigger] source_events_of(observation_for(s, observer))[k] != #[trigger] source_events_of(
                observation_for(t, observer),
            )[m],
{
    let n = s.world.events.len() as int;
    let a = source_events_of(observation_for(s, observer));
    let b = source_events_of(observation_for(t, observer));
    let et = t.world.events;
    lemma_lookup_store(s.cursors, observer, s.world.events.len() as usize, observer);
    assert(observed_from(t, observer) == n);
    lemma_observation_shows_only_visible(s, observer);
    lemma_observation_shows_only_visible(t, observer);
    assert forall|k: int, m: int| 0 <= k < a.len() && 0 <= m < b.len() implies #[trigger] a[k] != #[trigger] b[m] by {
        assert(visible_event_after(s.world.events, observed_from(s, observer), a[k], observer));
        assert(visible_event_after(et, n, b[m], observer));
        let j = choose|j: int|
            observed_from(s, observer) <= j < s.world.events.len() && s.world.events[j].id == a[k] && visible(
                s.world.events[j].visibility,
                observer,
            );
        let j2 = choose|j2: int| n <= j2 < et.len() && et[j2].id == b[m] && visible(et[j2].visibility, observer);
        assert(observed_from(s, observer) >= 0);
        assert(et[j] == s.world.events[j]);
        assert(et[j].id.0 < et[j2].id.0);
    }
}

/// One call of a `Simulation` operation, by the value it works with.
pub enum Operation {
    /// `add_person` with a person of this id and value.
    AddPerson(PersonId, PersonView),
    /// `checkpoint`.
    Checkpoint,
    /// `advance` by this duration.
    Advance(Duration),
    /// `schedule_event` of this event.
    Schedule(ScheduledView),
    /// An operation that emits one public event with these effects, caused by
    /// the latest event: `enter_room`, `leave_room`, `set_belief`,
    /// `set_affect`, `promise_made` or `promise_broken`.
    Emit(EventKindView, Seq<StateEffectView>),
    /// `step_agent` for this actor, whose agent answers with this action.
    Step(PersonId, ActionView),
    /// `observe` for this person.
    Observe(PersonId),
    /// `random_u64`.
    Draw,
}

/// The simulation after an operation.
pub open spec fn operated(s: SimulationView, op: Operation) -> SimulationView {
    match op {
        Operation::AddPerson(id, p) => checkpointed(
            SimulationView { world: WorldView { people: store(s.world.people, id, p), ..s.world }, ..s },
        ),
        Operation::Checkpoint => checkpointed(s),
        Operation::Advance(d) => advanced(s, d),
        Operation::Schedule(ev) => SimulationView { scheduled: s.scheduled.push(ev), ..s },
        Operation::Emit(kind, effects) => emitted(s, kind, effects),
        Operation::Step(actor, action) => if lookup(s.world.people, actor) is Some {
            stepped(s, actor, action)
        } else {
            s
        },
        Operation::Observe(p) => if lookup(s.world.people, p) is Some {
            after_observing(s, p)
        } else {
            s
        },
        Operation::Draw => SimulationView { rng_state: lcg_next(s.rng_state), ..s },
    }
}

/// The operation may be called: its precondition holds (and, where a
/// snapshot is taken, the history's lengths fit in `usize`, as they do for
/// the vectors that hold it).
pub open spec fn allowed(s: SimulationView, op: Operation) -> bool {
    match op {
        Operation::AddPerson(_, _) | Operation::Checkpoint => {
            &&& s.run.events.len() <= usize::MAX
            &&& s.run.observations.len() <= usize::MAX
            &&& s.run.actions.len() <= usize::MAX
        },
        Operation::Advance(d) => {
            &&& s.world.time.0 + d.0 <= u64::MAX
            &&& s.world.next_event_id + s.scheduled.len() <= u64::MAX
            &&& trace_len(s.run) + s.scheduled.len() <= u64::MAX
        },
        Operation::Schedule(ev) => ev.timestamp.0 >= s.world.time.0,
        Operation::Emit(_, _) => can_record(s),
        Operation::Step(_, _) => s.world.next_event_id < u64::MAX && trace_len(s.run) + 2 <= u64::MAX,
        Operation::Observe(_) | Operation::Draw => true,
    }
}

/// The simulation after the operations `ops`, in order.
pub open spec fn run_ops(s: SimulationView, ops: Seq<Operation>) -> SimulationView
    decreases ops.len(),
{
    if ops.len() == 0 {
        s
    } else {
        operated(run_ops(s, ops.drop_last()), ops.last())
    }
}

/// Each of `ops` may be called when its turn comes.
pub open spec fn ops_allowed(s: SimulationView, ops: Seq<Operation>) -> bool
    decreases ops.len(),
{
    if ops.len() == 0 {
        true
    } else {
        ops_allowed(s, ops.drop_last()) && allowed(run_ops(s, ops.drop_last()), ops.last())
    }
}

/// One operation keeps a simulation consistent and its run well recorded.
proof fn lemma_operated(s: SimulationView, op: Operation)
    requires
        consistent(s),
        well_recorded(s.run),
        allowed(s, op),
    ensures
        consistent(operated(s, op)),
        well_recorded(operated(s, op).run),
{
    match op {
        Operation::AddPerson(id, p) => {
            lemma_add_person_consistent(s, id, p);
            lemma_checkpointed_valid(
                SimulationView { world: WorldView { people: store(s.world.people, id, p), ..s.world }, ..s },
            );
        },
        Operation::Checkpoint => {
            lemma_checkpoint_consistent(s);
            lemma_checkpointed_valid(s);
        },
        Operation::Advance(d) => {
            lemma_advanced_consistent(s, d);
            lemma_advanced_valid(s, d);
        },
        Operation::Schedule(ev) => {
            lemma_scheduled_consistent(s, ev);
        },
        Operation::Emit(kind, effects) => {
            lemma_recorded_consistent(s, kind, effects, VisibilityView::Public, latest_event_parent(s.world));
            lemma_emitted_valid(s, kind, effects);
        },
        Operation::Step(actor, action) => {
            if lookup(s.world.people, actor) is Some {
                lemma_stepped_consistent(s, actor, action);
                lemma_stepped_valid(s, actor, action);
            }
        },
        Operation::Observe(p) => {
            lemma_observing_consistent(s, p);
        },
        Operation::Draw => {
            lemma_random_consistent(s);
        },
    }
}

/// Replay holds for every simulation built by calls: starting from
/// `with_seed(seed)` and making any allowed sequence of calls, the history
/// stays consistent and the run valid, and replaying the run to the current
/// time gives the current people, locations and time.
pub proof fn lemma_operations_replay(seed: u64, ops: Seq<Operation>)
    requires
        ops_allowed(seeded_simulation(seed), ops),
    ensures
        consistent(run_ops(seeded_simulation(seed), ops)),
        well_recorded(run_ops(seeded_simulation(seed), ops).run),
        replayed_at(
            run_ops(seeded_simulation(seed), ops).run,
            run_ops(seeded_simulation(seed), ops).world.time,
        ) matches Some(w) && w.people == run_ops(seeded_simulation(seed), ops).world.people && w.locations
            == run_ops(seeded_simulation(seed), ops).world.locations && w.time == run_ops(
            seeded_simulation(seed),
            ops,
        ).world.time,
    decreases ops.len(),
{
    let s0 = seeded_simulation(seed);
    if ops.len() == 0 {
        lemma_seeded_consistent(seed);
        lemma_seeded_valid(seed);
    } else {
        lemma_operations_replay(seed, ops.drop_last());
        lemma_operated(run_ops(s0, ops.drop_last()), ops.last());
    }
    lemma_replay_reproduces_world(run_ops(s0, ops));
}

} // verus!
