//! The trace discipline: every record a simulation makes takes the next trace
//! sequence, so the run's timeline stays one gap-free order and the run stays
//! valid for export; a branch keeps a prefix of that order and stays valid too.

use vstd::prelude::*;
use crate::agent::ActionView;
use crate::effect::StateEffectView;
use crate::event::{visible, EventKindView, EventView, VisibilityView};
use crate::experiment::{
    initial_relationship, instantiated, with_people, ExperimentPersonView, RelationshipSetup,
};
use crate::ids::{EventId, PersonId};
use crate::person::new_person;
use crate::person_map::{lookup, store};
use crate::replay::{
    acted_before, branched, captured_by, entry_sequence, event_index, fork_boundary, fork_cursor,
    lemma_event_index, merged, observed_before, timeline_of, trace_len, valid_run, well_sequenced,
    ActionRecordView, ObservationRecordView, RunView, TraceEntryView,
};
use crate::simulation::{
    advanced, after_observing, can_record, checkpointed, emitted, lemma_next_due_bounds,
    lemma_observation_shows_only_visible, lemma_recorded_counts, next_due, observation_for,
    observed_from, recorded, recorded_event, run_due, seeded_simulation, source_events_of, stepped,
    visible_event_after, SimulationView,
};
use crate::time::{Duration, SimTime};
use crate::world::{
    action_text, latest_event_parent, lemma_effects_keep_history, world_after_effects,
    world_after_emit, world_with_relationship, WorldView,
};

verus! {

/// Every record of the three lists has a trace sequence below `n`.
pub open spec fn records_below(
    es: Seq<EventView>,
    os: Seq<ObservationRecordView>,
    acts: Seq<ActionRecordView>,
    n: int,
) -> bool {
    &&& forall|i: int| 0 <= i < es.len() ==> (#[trigger] es[i]).trace_sequence < n
    &&& forall|i: int| 0 <= i < os.len() ==> (#[trigger] os[i]).trace_sequence < n
    &&& forall|i: int| 0 <= i < acts.len() ==> (#[trigger] acts[i]).trace_sequence < n
}

proof fn lemma_records_below_rest(
    es: Seq<EventView>,
    os: Seq<ObservationRecordView>,
    acts: Seq<ActionRecordView>,
    n: int,
)
    requires
        records_below(es, os, acts, n),
    ensures
        es.len() > 0 ==> records_below(es.drop_first(), os, acts, n),
        os.len() > 0 ==> records_below(es, os.drop_first(), acts, n),
        acts.len() > 0 ==> records_below(es, os, acts.drop_first(), n),
{
    if es.len() > 0 {
        assert forall|i: int| 0 <= i < es.drop_first().len() implies (#[trigger] es.drop_first()[i]).trace_sequence
            < n by {
            assert(es.drop_first()[i] == es[i + 1]);
        }
    }
    if os.len() > 0 {
        assert forall|i: int| 0 <= i < os.drop_first().len() implies (#[trigger] os.drop_first()[i]).trace_sequence
            < n by {
            assert(os.drop_first()[i] == os[i + 1]);
        }
    }
    if acts.len() > 0 {
        assert forall|i: int| 0 <= i < acts.drop_first().len() implies (#[trigger] acts.drop_first()[i]).trace_sequence
            < n by {
            assert(acts.drop_first()[i] == acts[i + 1]);
        }
    }
}

/// The timeline holds every record once.
pub proof fn lemma_merged_len(es: Seq<EventView>, os: Seq<ObservationRecordView>, acts: Seq<ActionRecordView>)
    ensures
        merged(es, os, acts).len() == es.len() + os.len() + acts.len(),
    decreases es.len() + os.len() + acts.len(),
{
    if es.len() > 0 && (os.len() == 0 || es[0].trace_sequence <= os[0].trace_sequence) && (acts.len() == 0
        || es[0].trace_sequence <= acts[0].trace_sequence) {
        lemma_merged_len(es.drop_first(), os, acts);
    } else if os.len() > 0 && (acts.len() == 0 || os[0].trace_sequence <= acts[0].trace_sequence) {
        lemma_merged_len(es, os.drop_first(), acts);
    } else if acts.len() > 0 {
        lemma_merged_len(es, os, acts.drop_first());
    }
}

/// An event with a later trace sequence than every record comes last.
proof fn lemma_merged_push_event(
    es: Seq<EventView>,
    os: Seq<ObservationRecordView>,
    acts: Seq<ActionRecordView>,
    e: EventView,
)
    requires
        records_below(es, os, acts, e.trace_sequence as int),
    ensures
        merged(es.push(e), os, acts) == merged(es, os, acts).push(TraceEntryView::Event(e)),
    decreases es.len() + os.len() + acts.len(),
{
    let n = e.trace_sequence as int;
    lemma_records_below_rest(es, os, acts, n);
    let es2 = es.push(e);
    if es.len() > 0 {
        assert(es2[0] == es[0]);
        assert(es2.drop_first() =~= es.drop_first().push(e));
        if (os.len() == 0 || es[0].trace_sequence <= os[0].trace_sequence) && (acts.len() == 0
            || es[0].trace_sequence <= acts[0].trace_sequence) {
            lemma_merged_push_event(es.drop_first(), os, acts, e);
            assert(merged(es2, os, acts) =~= merged(es, os, acts).push(TraceEntryView::Event(e)));
        } else if os.len() > 0 && (acts.len() == 0 || os[0].trace_sequence <= acts[0].trace_sequence) {
            lemma_merged_push_event(es, os.drop_first(), acts, e);
            assert(merged(es2, os, acts) =~= merged(es, os, acts).push(TraceEntryView::Event(e)));
        } else {
            lemma_merged_push_event(es, os, acts.drop_first(), e);
            assert(merged(es2, os, acts) =~= merged(es, os, acts).push(TraceEntryView::Event(e)));
        }
    } else {
        assert(es2[0] == e);
        if os.len() == 0 && acts.len() == 0 {
            assert(es2.drop_first() =~= es);
            assert(merged(es, os, acts) =~= Seq::<TraceEntryView>::empty());
            assert(merged(es2.drop_first(), os, acts) =~= Seq::<TraceEntryView>::empty());
            assert(merged(es2, os, acts) =~= merged(es, os, acts).push(TraceEntryView::Event(e)));
        } else if os.len() > 0 && (acts.len() == 0 || os[0].trace_sequence <= acts[0].trace_sequence) {
            lemma_merged_push_event(es, os.drop_first(), acts, e);
            assert(merged(es2, os, acts) =~= merged(es, os, acts).push(TraceEntryView::Event(e)));
        } else {
            lemma_merged_push_event(es, os, acts.drop_first(), e);
            assert(merged(es2, os, acts) =~= merged(es, os, acts).push(TraceEntryView::Event(e)));
        }
    }
}

/// An observation with a later trace sequence than every record comes last.
proof fn lemma_merged_push_observation(
    es: Seq<EventView>,
    os: Seq<ObservationRecordView>,
    acts: Seq<ActionRecordView>,
    o: ObservationRecordView,
)
    requires
        records_below(es, os, acts, o.trace_sequence as int),
    ensures
        merged(es, os.push(o), acts) == merged(es, os, acts).push(TraceEntryView::Observation(o)),
    decreases es.len() + os.len() + acts.len(),
{
    let n = o.trace_sequence as int;
    lemma_records_below_rest(es, os, acts, n);
    let os2 = os.push(o);
    let goal = merged(es, os, acts).push(TraceEntryView::Observation(o));
    if os.len() > 0 {
        assert(os2[0] == os[0]);
        assert(os2.drop_first() =~= os.drop_first().push(o));
    } else {
        assert(os2[0] == o);
        assert(os2.drop_first() =~= os);
    }
    if es.len() > 0 && (os.len() == 0 || es[0].trace_sequence <= os[0].trace_sequence) && (acts.len() == 0
        || es[0].trace_sequence <= acts[0].trace_sequence) {
        lemma_merged_push_observation(es.drop_first(), os, acts, o);
        assert(merged(es, os2, acts) =~= goal);
    } else if os.len() > 0 && (acts.len() == 0 || os[0].trace_sequence <= acts[0].trace_sequence) {
        lemma_merged_push_observation(es, os.drop_first(), acts, o);
        assert(merged(es, os2, acts) =~= goal);
    } else if acts.len() > 0 {
        lemma_merged_push_observation(es, os, acts.drop_first(), o);
        assert(merged(es, os2, acts) =~= goal);
    } else {
        assert(merged(es, os, acts) =~= Seq::<TraceEntryView>::empty());
        assert(merged(es, os2.drop_first(), acts) =~= Seq::<TraceEntryView>::empty());
        assert(merged(es, os2, acts) =~= goal);
    }
}

/// An action with a later trace sequence than every record comes last.
proof fn lemma_merged_push_action(
    es: Seq<EventView>,
    os: Seq<ObservationRecordView>,
    acts: Seq<ActionRecordView>,
    a: ActionRecordView,
)
    requires
        records_below(es, os, acts, a.trace_sequence as int),
    ensures
        merged(es, os, acts.push(a)) == merged(es, os, acts).push(TraceEntryView::Action(a)),
    decreases es.len() + os.len() + acts.len(),
{
    let n = a.trace_sequence as int;
    lemma_records_below_rest(es, os, acts, n);
    let acts2 = acts.push(a);
    let goal = merged(es, os, acts).push(TraceEntryView::Action(a));
    if acts.len() > 0 {
        assert(acts2[0] == acts[0]);
        assert(acts2.drop_first() =~= acts.drop_first().push(a));
    } else {
        assert(acts2[0] == a);
        assert(acts2.drop_first() =~= acts);
    }
    if es.len() > 0 && (os.len() == 0 || es[0].trace_sequence <= os[0].trace_sequence) && (acts.len() == 0
        || es[0].trace_sequence <= acts[0].trace_sequence) {
        lemma_merged_push_action(es.drop_first(), os, acts, a);
        assert(merged(es, os, acts2) =~= goal);
    } else if os.len() > 0 && (acts.len() == 0 || os[0].trace_sequence <= acts[0].trace_sequence) {
        lemma_merged_push_action(es, os.drop_first(), acts, a);
        assert(merged(es, os, acts2) =~= goal);
    } else if acts.len() > 0 {
        lemma_merged_push_action(es, os, acts.drop_first(), a);
        assert(merged(es, os, acts2) =~= goal);
    } else {
        assert(merged(es, os, acts) =~= Seq::<TraceEntryView>::empty());
        assert(merged(es, os, acts2.drop_first()) =~= Seq::<TraceEntryView>::empty());
        assert(merged(es, os, acts2) =~= goal);
    }
}

/// When every timeline entry is below `n`, so is every record.
proof fn lemma_merged_bound(es: Seq<EventView>, os: Seq<ObservationRecordView>, acts: Seq<ActionRecordView>, n: int)
    requires
        forall|k: int| 0 <= k < merged(es, os, acts).len() ==> entry_sequence(#[trigger] merged(es, os, acts)[k]) < n,
    ensures
        records_below(es, os, acts, n),
    decreases es.len() + os.len() + acts.len(),
{
    let m = merged(es, os, acts);
    if es.len() > 0 && (os.len() == 0 || es[0].trace_sequence <= os[0].trace_sequence) && (acts.len() == 0
        || es[0].trace_sequence <= acts[0].trace_sequence) {
        let rest = merged(es.drop_first(), os, acts);
        assert(m[0] == TraceEntryView::Event(es[0]));
        assert forall|k: int| 0 <= k < rest.len() implies entry_sequence(#[trigger] rest[k]) < n by {
            assert(rest[k] == m[k + 1]);
        }
        lemma_merged_bound(es.drop_first(), os, acts, n);
        assert forall|i: int| 0 <= i < es.len() implies (#[trigger] es[i]).trace_sequence < n by {
            if i > 0 {
                assert(es[i] == es.drop_first()[i - 1]);
            }
        }
    } else if os.len() > 0 && (acts.len() == 0 || os[0].trace_sequence <= acts[0].trace_sequence) {
        let rest = merged(es, os.drop_first(), acts);
        assert(m[0] == TraceEntryView::Observation(os[0]));
        assert forall|k: int| 0 <= k < rest.len() implies entry_sequence(#[trigger] rest[k]) < n by {
            assert(rest[k] == m[k + 1]);
        }
        lemma_merged_bound(es, os.drop_first(), acts, n);
        assert forall|i: int| 0 <= i < os.len() implies (#[trigger] os[i]).trace_sequence < n by {
            if i > 0 {
                assert(os[i] == os.drop_first()[i - 1]);
            }
        }
    } else if acts.len() > 0 {
        let rest = merged(es, os, acts.drop_first());
        assert(m[0] == TraceEntryView::Action(acts[0]));
        assert forall|k: int| 0 <= k < rest.len() implies entry_sequence(#[trigger] rest[k]) < n by {
            assert(rest[k] == m[k + 1]);
        }
        lemma_merged_bound(es, os, acts.drop_first(), n);
        assert forall|i: int| 0 <= i < acts.len() implies (#[trigger] acts[i]).trace_sequence < n by {
            if i > 0 {
                assert(acts[i] == acts.drop_first()[i - 1]);
            }
        }
    }
}

/// In a well-sequenced run every record comes before the next trace sequence.
proof fn lemma_sequenced_below(r: RunView)
    requires
        well_sequenced(r),
    ensures
        records_below(r.events, r.observations, r.actions, trace_len(r) as int),
        timeline_of(r).len() == trace_len(r),
{
    lemma_merged_len(r.events, r.observations, r.actions);
    let t = timeline_of(r);
    assert forall|k: int| 0 <= k < t.len() implies entry_sequence(#[trigger] t[k]) < trace_len(r) by {
        assert(entry_sequence(t[k]) == k);
    }
    lemma_merged_bound(r.events, r.observations, r.actions, trace_len(r) as int);
}

/// The first event with an id is unchanged by appending.
proof fn lemma_event_index_push(es: Seq<EventView>, e: EventView, id: EventId)
    requires
        event_index(es, id) is Some,
    ensures
        event_index(es.push(e), id) == event_index(es, id),
{
    assert(es.push(e).drop_last() =~= es);
}

/// Some event of `es` has id `id`.
pub open spec fn has_event(es: Seq<EventView>, id: EventId) -> bool {
    exists|j: int| 0 <= j < es.len() && es[j].id == id
}

/// Every id of `ids` names an event of `es`.
pub open spec fn all_recorded(es: Seq<EventView>, ids: Seq<EventId>) -> bool {
    forall|q: int| 0 <= q < ids.len() ==> has_event(es, #[trigger] ids[q])
}

/// Every snapshot cuts the trace at one point: the observations and actions
/// it counts come, in trace order, before every event it does not count.
pub open spec fn snapshots_cut_trace(r: RunView) -> bool {
    &&& forall|i: int, j: int, k: int|
        #![trigger r.snapshots[i], r.observations[j], r.events[k]]
        0 <= i < r.snapshots.len() && 0 <= j < r.observations.len() && j < r.snapshots[i].observation_cursor
            && r.snapshots[i].event_cursor <= k < r.events.len() ==> r.observations[j].trace_sequence
            < r.events[k].trace_sequence
    &&& forall|i: int, j: int, k: int|
        #![trigger r.snapshots[i], r.actions[j], r.events[k]]
        0 <= i < r.snapshots.len() && 0 <= j < r.actions.len() && j < r.snapshots[i].action_cursor
            && r.snapshots[i].event_cursor <= k < r.events.len() ==> r.actions[j].trace_sequence
            < r.events[k].trace_sequence
}

/// A valid run whose snapshots cut its trace consistently: what every
/// simulation operation keeps.
pub open spec fn well_recorded(r: RunView) -> bool {
    valid_run(r) && snapshots_cut_trace(r)
}

/// Appending an event that takes the next trace sequence and whose causal
/// parents are recorded events keeps a run well recorded.
pub proof fn lemma_valid_push_event(r: RunView, e: EventView)
    requires
        well_recorded(r),
        e.trace_sequence == trace_len(r),
        all_recorded(r.events, e.causal_parents),
    ensures
        well_recorded(RunView { events: r.events.push(e), ..r }),
{
    let t = RunView { events: r.events.push(e), ..r };
    let es = r.events;
    let es2 = es.push(e);
    lemma_sequenced_below(r);
    lemma_merged_push_event(es, r.observations, r.actions, e);
    assert forall|k: int| 0 <= k < timeline_of(t).len() implies entry_sequence(#[trigger] timeline_of(t)[k]) == k by {
        if k < timeline_of(r).len() {
            assert(timeline_of(t)[k] == timeline_of(r)[k]);
        }
    }
    assert forall|i: int, q: int|
        0 <= i < es2.len() && 0 <= q < es2[i].causal_parents.len() implies match event_index(
            es2,
            #[trigger] es2[i].causal_parents[q],
        ) {
            Some(j) => j < i,
            None => false,
        } by {
        if i < es.len() {
            assert(es2[i] == es[i]);
            lemma_event_index_push(es, e, es[i].causal_parents[q]);
        } else {
            assert(es2[i] == e);
            let j = choose|j: int| 0 <= j < es.len() && es[j].id == e.causal_parents[q];
            lemma_event_index(es, e.causal_parents[q]);
            lemma_event_index_push(es, e, e.causal_parents[q]);
        }
    }
}

/// Appending an observation that takes the next trace sequence keeps a run well recorded.
pub proof fn lemma_valid_push_observation(r: RunView, o: ObservationRecordView)
    requires
        well_recorded(r),
        o.trace_sequence == trace_len(r),
    ensures
        well_recorded(RunView { observations: r.observations.push(o), ..r }),
{
    let t = RunView { observations: r.observations.push(o), ..r };
    lemma_sequenced_below(r);
    lemma_merged_push_observation(r.events, r.observations, r.actions, o);
    assert forall|k: int| 0 <= k < timeline_of(t).len() implies entry_sequence(#[trigger] timeline_of(t)[k]) == k by {
        if k < timeline_of(r).len() {
            assert(timeline_of(t)[k] == timeline_of(r)[k]);
        }
    }
}

/// Appending an action that takes the next trace sequence keeps a run well recorded.
pub proof fn lemma_valid_push_action(r: RunView, a: ActionRecordView)
    requires
        well_recorded(r),
        a.trace_sequence == trace_len(r),
    ensures
        well_recorded(RunView { actions: r.actions.push(a), ..r }),
{
    let t = RunView { actions: r.actions.push(a), ..r };
    lemma_sequenced_below(r);
    lemma_merged_push_action(r.events, r.observations, r.actions, a);
    assert forall|k: int| 0 <= k < timeline_of(t).len() implies entry_sequence(#[trigger] timeline_of(t)[k]) == k by {
        if k < timeline_of(r).len() {
            assert(timeline_of(t)[k] == timeline_of(r)[k]);
        }
    }
}

/// Recording an event whose causal parents are recorded events keeps the run
/// well recorded, and the world's event list stays the run's.
pub proof fn lemma_recorded_valid(
    s: SimulationView,
    kind: EventKindView,
    effects: Seq<StateEffectView>,
    visibility: VisibilityView,
    parents: Seq<EventId>,
)
    requires
        well_recorded(s.run),
        s.world.events == s.run.events,
        can_record(s),
        all_recorded(s.run.events, parents),
    ensures
        well_recorded(recorded(s, kind, effects, visibility, parents).run),
        recorded(s, kind, effects, visibility, parents).world.events == recorded(
            s,
            kind,
            effects,
            visibility,
            parents,
        ).run.events,
{
    let e = recorded_event(s, kind, effects, visibility, parents);
    assert(e.trace_sequence == trace_len(s.run));
    lemma_valid_push_event(s.run, e);
    lemma_effects_keep_history(s.world, effects);
    let applied = world_after_effects(s.world, effects);
    let w1 = world_after_emit(s.world, kind, effects, visibility, parents);
    assert(w1.events.update(w1.events.len() - 1, e) =~= applied.events.push(e));
}

/// The latest event is a recorded event.
proof fn lemma_latest_parent_recorded(s: SimulationView)
    requires
        s.world.events == s.run.events,
    ensures
        all_recorded(s.run.events, latest_event_parent(s.world)),
{
    let ps = latest_event_parent(s.world);
    if s.world.events.len() > 0 {
        assert forall|q: int| 0 <= q < ps.len() implies has_event(s.run.events, #[trigger] ps[q]) by {
            let j = s.run.events.len() - 1;
            assert(s.run.events[j].id == ps[q]);
        }
    }
}

/// Every simulation operation that records an event of its own keeps the run
/// well recorded: emitting a public event caused by the latest one.
pub proof fn lemma_emitted_valid(s: SimulationView, kind: EventKindView, effects: Seq<StateEffectView>)
    requires
        well_recorded(s.run),
        s.world.events == s.run.events,
        can_record(s),
    ensures
        well_recorded(emitted(s, kind, effects).run),
        emitted(s, kind, effects).world.events == emitted(s, kind, effects).run.events,
{
    lemma_latest_parent_recorded(s);
    lemma_recorded_valid(s, kind, effects, VisibilityView::Public, latest_event_parent(s.world));
}

/// Running the due scheduled events keeps the run well recorded.
proof fn lemma_run_due_valid(s: SimulationView, target: SimTime)
    requires
        well_recorded(s.run),
        s.world.events == s.run.events,
        s.world.next_event_id + s.scheduled.len() <= u64::MAX,
        trace_len(s.run) + s.scheduled.len() <= u64::MAX,
    ensures
        well_recorded(run_due(s, target).run),
        run_due(s, target).world.events == run_due(s, target).run.events,
    decreases s.scheduled.len(),
{
    lemma_next_due_bounds(s.scheduled, target);
    match next_due(s.scheduled, target) {
        None => {},
        Some(i) => {
            let ev = s.scheduled[i];
            let s1 = SimulationView {
                scheduled: s.scheduled.remove(i),
                world: WorldView { time: ev.timestamp, ..s.world },
                ..s
            };
            let parents = latest_event_parent(s1.world);
            lemma_latest_parent_recorded(s1);
            lemma_recorded_valid(s1, ev.kind, ev.effects, ev.visibility, parents);
            lemma_recorded_counts(s1, ev.kind, ev.effects, ev.visibility, parents);
            lemma_run_due_valid(recorded(s1, ev.kind, ev.effects, ev.visibility, parents), target);
        },
    }
}

/// Advancing the clock keeps the run well recorded.
pub proof fn lemma_advanced_valid(s: SimulationView, d: Duration)
    requires
        well_recorded(s.run),
        s.world.events == s.run.events,
        s.world.next_event_id + s.scheduled.len() <= u64::MAX,
        trace_len(s.run) + s.scheduled.len() <= u64::MAX,
    ensures
        well_recorded(advanced(s, d).run),
        advanced(s, d).world.events == advanced(s, d).run.events,
{
    lemma_run_due_valid(s, SimTime((s.world.time.0 + d.0) as u64));
}

/// A checkpoint keeps the run well recorded: its cursors are the current lengths.
pub proof fn lemma_checkpointed_valid(s: SimulationView)
    requires
        well_recorded(s.run),
        s.run.events.len() <= usize::MAX,
        s.run.observations.len() <= usize::MAX,
        s.run.actions.len() <= usize::MAX,
    ensures
        well_recorded(checkpointed(s).run),
{
    let r = checkpointed(s).run;
    assert forall|i: int| 0 <= i < r.snapshots.len() implies {
        &&& (#[trigger] r.snapshots[i]).event_cursor <= r.events.len()
        &&& r.snapshots[i].observation_cursor <= r.observations.len()
        &&& r.snapshots[i].action_cursor <= r.actions.len()
    } by {
        if i < s.run.snapshots.len() {
            assert(r.snapshots[i] == s.run.snapshots[i]);
        }
    }
    assert(timeline_of(r) == timeline_of(s.run));
}

/// An agent step keeps the run well recorded: the observation, the action's event
/// (caused by the observed events) and the action record take the next three
/// trace sequences.
pub proof fn lemma_stepped_valid(s: SimulationView, actor: PersonId, action: ActionView)
    requires
        well_recorded(s.run),
        s.world.events == s.run.events,
        s.world.next_event_id < u64::MAX,
        trace_len(s.run) + 2 <= u64::MAX,
    ensures
        well_recorded(stepped(s, actor, action).run),
        stepped(s, actor, action).world.events == stepped(s, actor, action).run.events,
{
    let o = observation_for(s, actor);
    let src = source_events_of(o);
    let s1 = after_observing(s, actor);
    let rec = ObservationRecordView {
        trace_sequence: trace_len(s1.run) as u64,
        timestamp: s1.world.time,
        observer: actor,
        observation: o,
        source_events: src,
    };
    let s2 = SimulationView { run: RunView { observations: s1.run.observations.push(rec), ..s1.run }, ..s1 };
    lemma_valid_push_observation(s.run, rec);
    lemma_observation_shows_only_visible(s, actor);
    assert forall|q: int| 0 <= q < src.len() implies has_event(s2.run.events, #[trigger] src[q]) by {
        assert(visible_event_after(s.world.events, observed_from(s, actor), src[q], actor));
        let es = s.world.events;
        let from = observed_from(s, actor);
        let j = choose|j: int| from <= j < es.len() && es[j].id == src[q] && visible(es[j].visibility, actor);
        assert(0 <= from);
        assert(s2.run.events[j].id == src[q]);
    }
    let name = lookup(s.world.people, actor)->0.name;
    let kind = EventKindView::AgentAction { actor, description: action_text(name, action) };
    lemma_recorded_valid(s2, kind, Seq::empty(), VisibilityView::Public, src);
    let s3 = recorded(s2, kind, Seq::empty(), VisibilityView::Public, src);
    let arec = ActionRecordView {
        trace_sequence: trace_len(s3.run) as u64,
        timestamp: s3.world.time,
        actor,
        action,
        source_events: src,
        resulting_event: Some(EventId(s2.world.next_event_id)),
    };
    lemma_valid_push_action(s3.run, arec);
}

/// A new simulation's run is well recorded.
pub proof fn lemma_seeded_valid(seed: u64)
    ensures
        well_recorded(seeded_simulation(seed).run),
{
    let r = seeded_simulation(seed).run;
    assert(timeline_of(r) =~= Seq::<TraceEntryView>::empty());
}

/// Trace sequences strictly increase along each of the three lists, and none
/// is below `base`.
pub open spec fn increasing_from(
    es: Seq<EventView>,
    os: Seq<ObservationRecordView>,
    acts: Seq<ActionRecordView>,
    base: int,
) -> bool {
    &&& forall|i: int, j: int| 0 <= i < j < es.len() ==> (#[trigger] es[i]).trace_sequence < (#[trigger] es[j]).trace_sequence
    &&& forall|i: int, j: int| 0 <= i < j < os.len() ==> (#[trigger] os[i]).trace_sequence < (#[trigger] os[j]).trace_sequence
    &&& forall|i: int, j: int|
        0 <= i < j < acts.len() ==> (#[trigger] acts[i]).trace_sequence < (#[trigger] acts[j]).trace_sequence
    &&& forall|i: int| 0 <= i < es.len() ==> (#[trigger] es[i]).trace_sequence >= base
    &&& forall|i: int| 0 <= i < os.len() ==> (#[trigger] os[i]).trace_sequence >= base
    &&& forall|i: int| 0 <= i < acts.len() ==> (#[trigger] acts[i]).trace_sequence >= base
}

/// A timeline numbered from `base` on comes from lists ordered by trace sequence.
proof fn lemma_merged_increasing(
    es: Seq<EventView>,
    os: Seq<ObservationRecordView>,
    acts: Seq<ActionRecordView>,
    base: int,
)
    requires
        forall|k: int|
            0 <= k < merged(es, os, acts).len() ==> entry_sequence(#[trigger] merged(es, os, acts)[k]) == base + k,
    ensures
        increasing_from(es, os, acts, base),
    decreases es.len() + os.len() + acts.len(),
{
    let m = merged(es, os, acts);
    if es.len() > 0 && (os.len() == 0 || es[0].trace_sequence <= os[0].trace_sequence) && (acts.len() == 0
        || es[0].trace_sequence <= acts[0].trace_sequence) {
        let d = es.drop_first();
        let rest = merged(d, os, acts);
        assert(m[0] == TraceEntryView::Event(es[0]));
        assert forall|k: int| 0 <= k < rest.len() implies entry_sequence(#[trigger] rest[k]) == base + 1 + k by {
            assert(rest[k] == m[k + 1]);
        }
        lemma_merged_increasing(d, os, acts, base + 1);
        assert forall|i: int, j: int| 0 <= i < j < es.len() implies (#[trigger] es[i]).trace_sequence < (
        #[trigger] es[j]).trace_sequence by {
            assert(es[j] == d[j - 1]);
            if i > 0 {
                assert(es[i] == d[i - 1]);
            }
        }
        assert forall|i: int| 0 <= i < es.len() implies (#[trigger] es[i]).trace_sequence >= base by {
            if i > 0 {
                assert(es[i] == d[i - 1]);
            }
        }
    } else if os.len() > 0 && (acts.len() == 0 || os[0].trace_sequence <= acts[0].trace_sequence) {
        let d = os.drop_first();
        let rest = merged(es, d, acts);
        assert(m[0] == TraceEntryView::Observation(os[0]));
        assert forall|k: int| 0 <= k < rest.len() implies entry_sequence(#[trigger] rest[k]) == base + 1 + k by {
            assert(rest[k] == m[k + 1]);
        }
        lemma_merged_increasing(es, d, acts, base + 1);
        assert forall|i: int, j: int| 0 <= i < j < os.len() implies (#[trigger] os[i]).trace_sequence < (
        #[trigger] os[j]).trace_sequence by {
            assert(os[j] == d[j - 1]);
            if i > 0 {
                assert(os[i] == d[i - 1]);
            }
        }
        assert forall|i: int| 0 <= i < os.len() implies (#[trigger] os[i]).trace_sequence >= base by {
            if i > 0 {
                assert(os[i] == d[i - 1]);
            }
        }
    } else if acts.len() > 0 {
        let d = acts.drop_first();
        let rest = merged(es, os, d);
        assert(m[0] == TraceEntryView::Action(acts[0]));
        assert forall|k: int| 0 <= k < rest.len() implies entry_sequence(#[trigger] rest[k]) == base + 1 + k by {
            assert(rest[k] == m[k + 1]);
        }
        lemma_merged_increasing(es, os, d, base + 1);
        assert forall|i: int, j: int| 0 <= i < j < acts.len() implies (#[trigger] acts[i]).trace_sequence < (
        #[trigger] acts[j]).trace_sequence by {
            assert(acts[j] == d[j - 1]);
            if i > 0 {
                assert(acts[i] == d[i - 1]);
            }
        }
        assert forall|i: int| 0 <= i < acts.len() implies (#[trigger] acts[i]).trace_sequence >= base by {
            if i > 0 {
                assert(acts[i] == d[i - 1]);
            }
        }
    }
}

/// Filtering a list whose first `c` elements are exactly those kept keeps
/// that prefix.
proof fn lemma_filter_prefix<A>(s: Seq<A>, p: spec_fn(A) -> bool, c: int)
    requires
        0 <= c <= s.len(),
        forall|i: int| 0 <= i < s.len() ==> (p(#[trigger] s[i]) <==> i < c),
    ensures
        s.filter(p) == s.take(c),
    decreases s.len(),
{
    reveal(Seq::filter);
    if s.len() > 0 {
        let d = s.drop_last();
        if c == s.len() {
            assert forall|i: int| 0 <= i < d.len() implies (p(#[trigger] d[i]) <==> i < c - 1) by {
                assert(d[i] == s[i]);
            }
            lemma_filter_prefix(d, p, c - 1);
            assert(p(s[s.len() - 1]));
            assert(s.filter(p) =~= s.take(c));
        } else {
            assert forall|i: int| 0 <= i < d.len() implies (p(#[trigger] d[i]) <==> i < c) by {
                assert(d[i] == s[i]);
            }
            lemma_filter_prefix(d, p, c);
            assert(!p(s[s.len() - 1]));
            assert(s.filter(p) =~= s.take(c));
        }
    } else {
        assert(s.filter(p) =~= s.take(c));
    }
}

/// Events recorded before trace sequence `x`.
pub open spec fn event_before(x: u64) -> spec_fn(EventView) -> bool {
    |e: EventView| e.trace_sequence < x
}

/// Filtering a list sorted by `key` with "key below `x`" keeps its head and
/// filters the rest, or keeps nothing once the head is not below `x`.
proof fn lemma_filter_sorted_head<A>(s: Seq<A>, key: spec_fn(A) -> int, p: spec_fn(A) -> bool, x: int)
    requires
        forall|i: int, j: int| 0 <= i < j < s.len() ==> key(#[trigger] s[i]) < key(#[trigger] s[j]),
        forall|a: A| #[trigger] p(a) <==> key(a) < x,
    ensures
        s.filter(p) == if s.len() > 0 && key(s[0]) < x {
            seq![s[0]] + s.drop_first().filter(p)
        } else {
            Seq::<A>::empty()
        },
{
    if s.len() == 0 {
        lemma_filter_prefix(s, p, 0);
    } else {
        let d = s.drop_first();
        assert(s =~= seq![s[0]] + d);
        d.lemma_filter_prepend(s[0], p);
        if key(s[0]) >= x {
            assert forall|i: int| 0 <= i < d.len() implies (p(#[trigger] d[i]) <==> i < 0) by {
                assert(d[i] == s[i + 1]);
            }
            lemma_filter_prefix(d, p, 0);
            assert(s.filter(p) =~= Seq::<A>::empty());
        }
    }
}

/// Filtering a sorted list with "key below `x`" keeps a prefix of it.
proof fn lemma_filter_sorted_prefix<A>(s: Seq<A>, key: spec_fn(A) -> int, p: spec_fn(A) -> bool, x: int)
    requires
        forall|i: int, j: int| 0 <= i < j < s.len() ==> key(#[trigger] s[i]) < key(#[trigger] s[j]),
        forall|a: A| #[trigger] p(a) <==> key(a) < x,
    ensures
        exists|n: int| 0 <= n <= s.len() && s.filter(p) == s.take(n),
    decreases s.len(),
{
    reveal(Seq::filter);
    if s.len() == 0 {
        assert(s.filter(p) =~= s.take(0));
    } else {
        let d = s.drop_last();
        if p(s.last()) {
            assert forall|i: int| 0 <= i < s.len() implies (p(#[trigger] s[i]) <==> i < s.len()) by {
                if i < s.len() - 1 {
                    assert(key(s[i]) < key(s[s.len() - 1]));
                }
            }
            lemma_filter_prefix(s, p, s.len() as int);
        } else {
            assert forall|i: int, j: int| 0 <= i < j < d.len() implies key(#[trigger] d[i]) < key(#[trigger] d[j]) by {
                assert(d[i] == s[i] && d[j] == s[j]);
            }
            lemma_filter_sorted_prefix(d, key, p, x);
            let n = choose|n: int| 0 <= n <= d.len() && d.filter(p) == d.take(n);
            assert(s.filter(p) == d.filter(p));
            assert(d.take(n) =~= s.take(n));
        }
    }
}

/// Keeping the records before trace sequence `x` of a timeline numbered from
/// `base` keeps the timeline's first `x - base` entries.
proof fn lemma_merged_prefix(
    es: Seq<EventView>,
    os: Seq<ObservationRecordView>,
    acts: Seq<ActionRecordView>,
    base: int,
    x: u64,
)
    requires
        forall|k: int|
            0 <= k < merged(es, os, acts).len() ==> entry_sequence(#[trigger] merged(es, os, acts)[k]) == base + k,
        base <= x,
    ensures
        merged(es.filter(event_before(x)), os.filter(observed_before(Some(x))), acts.filter(acted_before(Some(x))))
            == merged(es, os, acts).take(
            if x - base <= merged(es, os, acts).len() {
                x - base
            } else {
                merged(es, os, acts).len() as int
            },
        ),
    decreases es.len() + os.len() + acts.len(),
{
    let m = merged(es, os, acts);
    let pe = event_before(x);
    let po = observed_before(Some(x));
    let pa = acted_before(Some(x));
    let ke = |e: EventView| e.trace_sequence as int;
    let ko = |o: ObservationRecordView| o.trace_sequence as int;
    let ka = |a: ActionRecordView| a.trace_sequence as int;
    lemma_merged_increasing(es, os, acts, base);
    lemma_merged_len(es, os, acts);
    assert forall|e: EventView| #[trigger] pe(e) <==> ke(e) < x by {}
    assert forall|o: ObservationRecordView| #[trigger] po(o) <==> ko(o) < x by {}
    assert forall|a: ActionRecordView| #[trigger] pa(a) <==> ka(a) < x by {}
    lemma_filter_sorted_head(es, ke, pe, x as int);
    lemma_filter_sorted_head(os, ko, po, x as int);
    lemma_filter_sorted_head(acts, ka, pa, x as int);
    let fe = es.filter(pe);
    let fo = os.filter(po);
    let fa = acts.filter(pa);
    let n = if x - base <= m.len() { x - base } else { m.len() as int };
    if m.len() == 0 || base == x {
        if m.len() > 0 {
            if es.len() > 0 {
                assert(es[0].trace_sequence >= base);
            }
            if os.len() > 0 {
                assert(os[0].trace_sequence >= base);
            }
            if acts.len() > 0 {
                assert(acts[0].trace_sequence >= base);
            }
        }
        assert(fe.len() == 0 && fo.len() == 0 && fa.len() == 0);
        assert(merged(fe, fo, fa) =~= m.take(n));
    } else if es.len() > 0 && (os.len() == 0 || es[0].trace_sequence <= os[0].trace_sequence) && (acts.len() == 0
        || es[0].trace_sequence <= acts[0].trace_sequence) {
        let d = es.drop_first();
        let rest = merged(d, os, acts);
        assert(m[0] == TraceEntryView::Event(es[0]));
        assert forall|k: int| 0 <= k < rest.len() implies entry_sequence(#[trigger] rest[k]) == base + 1 + k by {
            assert(rest[k] == m[k + 1]);
        }
        lemma_merged_prefix(d, os, acts, base + 1, x);
        assert(fe[0] == es[0]);
        assert(fe.drop_first() =~= d.filter(pe));
        assert(merged(fe, fo, fa) == seq![TraceEntryView::Event(es[0])] + merged(d.filter(pe), fo, fa));
        assert(merged(fe, fo, fa) =~= m.take(n));
    } else if os.len() > 0 && (acts.len() == 0 || os[0].trace_sequence <= acts[0].trace_sequence) {
        let d = os.drop_first();
        let rest = merged(es, d, acts);
        assert(m[0] == TraceEntryView::Observation(os[0]));
        assert forall|k: int| 0 <= k < rest.len() implies entry_sequence(#[trigger] rest[k]) == base + 1 + k by {
            assert(rest[k] == m[k + 1]);
        }
        lemma_merged_prefix(es, d, acts, base + 1, x);
        assert(fo[0] == os[0]);
        assert(fo.drop_first() =~= d.filter(po));
        assert(merged(fe, fo, fa) == seq![TraceEntryView::Observation(os[0])] + merged(fe, d.filter(po), fa));
        assert(merged(fe, fo, fa) =~= m.take(n));
    } else {
        let d = acts.drop_first();
        let rest = merged(es, os, d);
        assert(m[0] == TraceEntryView::Action(acts[0]));
        assert forall|k: int| 0 <= k < rest.len() implies entry_sequence(#[trigger] rest[k]) == base + 1 + k by {
            assert(rest[k] == m[k + 1]);
        }
        lemma_merged_prefix(es, os, d, base + 1, x);
        assert(fa[0] == acts[0]);
        assert(fa.drop_first() =~= d.filter(pa));
        assert(merged(fe, fo, fa) == seq![TraceEntryView::Action(acts[0])] + merged(fe, fo, d.filter(pa)));
        assert(merged(fe, fo, fa) =~= m.take(n));
    }
}

/// A branch of a well-recorded run is well recorded: it keeps the events before
/// its cursor and exactly the observations and actions recorded before the
/// first event it drops, so its timeline is a prefix of its parent's, and its
/// snapshots point into what it keeps.
pub proof fn lemma_branch_valid(r: RunView, branch_id: Seq<char>, event_cursor: int)
    requires
        well_recorded(r),
        0 <= event_cursor,
    ensures
        well_recorded(branched(r, branch_id, event_cursor)),
{
    let es = r.events;
    let os = r.observations;
    let acts = r.actions;
    let c = fork_cursor(r, event_cursor);
    let b = fork_boundary(r, c);
    let child = branched(r, branch_id, event_cursor);
    let po = observed_before(b);
    let pa = acted_before(b);
    let m = timeline_of(r);
    lemma_merged_len(es, os, acts);
    lemma_merged_increasing(es, os, acts, 0);
    let n: int = if c < es.len() { es[c].trace_sequence as int } else { m.len() as int };
    // The kept records are the first `n` entries of the parent's timeline.
    if c < es.len() {
        let x = es[c].trace_sequence;
        assert forall|i: int| 0 <= i < es.len() implies (#[trigger] event_before(x)(es[i]) <==> i < c) by {
            if i < c {
                assert(es[i].trace_sequence < es[c].trace_sequence);
            } else if i > c {
                assert(es[c].trace_sequence < es[i].trace_sequence);
            }
        }
        lemma_filter_prefix(es, event_before(x), c);
        assert(po == observed_before(Some(x)));
        assert(pa == acted_before(Some(x)));
        lemma_merged_prefix(es, os, acts, 0, x);
        lemma_sequenced_below(r);
        assert(x < m.len());
        assert(timeline_of(child) == m.take(n));
    } else {
        assert forall|i: int| 0 <= i < os.len() implies (#[trigger] po(os[i]) <==> i < os.len()) by {}
        assert forall|i: int| 0 <= i < acts.len() implies (#[trigger] pa(acts[i]) <==> i < acts.len()) by {}
        lemma_filter_prefix(os, po, os.len() as int);
        lemma_filter_prefix(acts, pa, acts.len() as int);
        assert(os.take(os.len() as int) =~= os);
        assert(acts.take(acts.len() as int) =~= acts);
        assert(es.take(c) =~= es);
        assert(timeline_of(child) == m.take(n));
    }
    assert forall|k: int| 0 <= k < timeline_of(child).len() implies entry_sequence(
        #[trigger] timeline_of(child)[k],
    ) == k by {
        assert(timeline_of(child)[k] == m[k]);
    }
    // Snapshots: each kept one counts only kept records.
    let cs = child.snapshots;
    assert forall|i: int| 0 <= i < cs.len() implies {
        &&& (#[trigger] cs[i]).event_cursor <= child.events.len()
        &&& cs[i].observation_cursor <= child.observations.len()
        &&& cs[i].action_cursor <= child.actions.len()
    } by {
        r.snapshots.lemma_filter_pred(captured_by(c), i);
        assert(cs.contains(cs[i]));
        r.snapshots.lemma_filter_contains_rev(captured_by(c), cs[i]);
        let t = choose|t: int| 0 <= t < r.snapshots.len() && r.snapshots[t] == cs[i];
        let oc = cs[i].observation_cursor as int;
        let ac = cs[i].action_cursor as int;
        assert forall|j: int| 0 <= j < os.take(oc).len() implies (#[trigger] po(os.take(oc)[j]) <==> j < oc) by {
            assert(os.take(oc)[j] == os[j]);
            if c < es.len() {
                assert(r.snapshots[t].event_cursor <= c);
                assert(os[j].trace_sequence < es[c].trace_sequence);
            }
        }
        lemma_filter_prefix(os.take(oc), po, oc);
        os.lemma_filter_take_len(po, oc);
        assert forall|j: int| 0 <= j < acts.take(ac).len() implies (#[trigger] pa(acts.take(ac)[j]) <==> j < ac) by {
            assert(acts.take(ac)[j] == acts[j]);
            if c < es.len() {
                assert(r.snapshots[t].event_cursor <= c);
                assert(acts[j].trace_sequence < es[c].trace_sequence);
            }
        }
        lemma_filter_prefix(acts.take(ac), pa, ac);
        acts.lemma_filter_take_len(pa, ac);
    }
    // The kept observations and actions are prefixes, so snapshots still cut
    // the child's trace where they cut the parent's.
    let ko = |o: ObservationRecordView| o.trace_sequence as int;
    let ka = |a: ActionRecordView| a.trace_sequence as int;
    if c < es.len() {
        let bound = es[c].trace_sequence as int;
        assert forall|o: ObservationRecordView| #[trigger] po(o) <==> ko(o) < bound by {}
        assert forall|a: ActionRecordView| #[trigger] pa(a) <==> ka(a) < bound by {}
        lemma_filter_sorted_prefix(os, ko, po, bound);
        lemma_filter_sorted_prefix(acts, ka, pa, bound);
    } else {
        assert(os.filter(po) == os.take(os.len() as int));
        assert(acts.filter(pa) == acts.take(acts.len() as int));
    }
    let no = choose|no: int| 0 <= no <= os.len() && os.filter(po) == os.take(no);
    let na = choose|na: int| 0 <= na <= acts.len() && acts.filter(pa) == acts.take(na);
    assert forall|i: int, j: int, k: int|
        #![trigger cs[i], child.observations[j], child.events[k]]
        0 <= i < cs.len() && 0 <= j < child.observations.len() && j < cs[i].observation_cursor
            && cs[i].event_cursor <= k < child.events.len() implies child.observations[j].trace_sequence
        < child.events[k].trace_sequence by {
        assert(cs.contains(cs[i]));
        r.snapshots.lemma_filter_contains_rev(captured_by(c), cs[i]);
        let t = choose|t: int| 0 <= t < r.snapshots.len() && r.snapshots[t] == cs[i];
        assert(child.observations[j] == os[j]);
        assert(child.events[k] == es[k]);
        assert(r.snapshots[t] == cs[i]);
        assert(os[j].trace_sequence < es[k].trace_sequence);
    }
    assert forall|i: int, j: int, k: int|
        #![trigger cs[i], child.actions[j], child.events[k]]
        0 <= i < cs.len() && 0 <= j < child.actions.len() && j < cs[i].action_cursor
            && cs[i].event_cursor <= k < child.events.len() implies child.actions[j].trace_sequence
        < child.events[k].trace_sequence by {
        assert(cs.contains(cs[i]));
        r.snapshots.lemma_filter_contains_rev(captured_by(c), cs[i]);
        let t = choose|t: int| 0 <= t < r.snapshots.len() && r.snapshots[t] == cs[i];
        assert(child.actions[j] == acts[j]);
        assert(child.events[k] == es[k]);
        assert(r.snapshots[t] == cs[i]);
        assert(acts[j].trace_sequence < es[k].trace_sequence);
    }
    // Causal parents: the kept events' parents precede them, so they are kept too.
    let ces = child.events;
    assert forall|i: int, q: int|
        0 <= i < ces.len() && 0 <= q < ces[i].causal_parents.len() implies match event_index(
            ces,
            #[trigger] ces[i].causal_parents[q],
        ) {
            Some(j) => j < i,
            None => false,
        } by {
        assert(ces[i] == es[i]);
        let id = es[i].causal_parents[q];
        lemma_event_index(es, id);
        lemma_event_index(ces, id);
        let j = event_index(es, id)->0;
        assert(ces[j] == es[j]);
        match event_index(ces, id) {
            Some(j2) => {
                assert(ces[j2] == es[j2]);
            },
            None => {},
        }
    }
}

/// Adding people (each followed by a checkpoint) records nothing in the trace.
proof fn lemma_with_people_well_recorded(s: SimulationView, ps: Seq<ExperimentPersonView>)
    requires
        well_recorded(s.run),
        s.run.events.len() == 0,
        s.run.observations.len() == 0,
        s.run.actions.len() == 0,
    ensures
        well_recorded(with_people(s, ps).run),
        with_people(s, ps).run.events.len() == 0,
        with_people(s, ps).run.observations.len() == 0,
        with_people(s, ps).run.actions.len() == 0,
    decreases ps.len(),
{
    if ps.len() > 0 {
        lemma_with_people_well_recorded(s, ps.drop_last());
        let s1 = with_people(s, ps.drop_last());
        let p = ps.last();
        lemma_checkpointed_valid(
            SimulationView {
                world: WorldView { people: store(s1.world.people, p.id, new_person(p.id, p.name)), ..s1.world },
                ..s1
            },
        );
    }
}

/// An instantiated experiment starts from a well-recorded run.
pub proof fn lemma_instantiated_valid(
    seed: u64,
    people: Seq<ExperimentPersonView>,
    relationship: Option<RelationshipSetup>,
)
    ensures
        instantiated(seed, people, relationship) matches Ok(s) ==> well_recorded(s.run),
{
    let s0 = seeded_simulation(seed);
    lemma_seeded_valid(seed);
    lemma_with_people_well_recorded(s0, people);
    let s = with_people(s0, people);
    match relationship {
        None => lemma_checkpointed_valid(s),
        Some(r) => {
            lemma_checkpointed_valid(
                SimulationView {
                    world: world_with_relationship(s.world, r.from, r.to, initial_relationship(r)),
                    ..s
                },
            );
        },
    }
}

} // verus!
