//! The simulation lifecycle.
//!
//! `WorldState` owns latent truth and `Run` owns history. `Simulation` is the
//! coordinator: it advances time, executes scheduled events, creates semantic
//! events and effects, exposes observations, and connects agents back to the
//! world.

use vstd::prelude::*;
use vstd::string::*;
use crate::agent::{Action, ActionView, Agent, Observation, ObservationView};
use crate::binary32::{clamp_unit_bits, Binary32};
use crate::duplicate::{copy_vec, views, Duplicate};
use crate::effect::{StateEffect, StateEffectView};
use crate::event::{
    event_kind_debug, person_id_debug, person_id_debug_string, visible, EventKind, EventKindView,
    EventView, Visibility, VisibilityView,
};
use crate::ids::{EventId, PersonId};
use crate::person::Person;
use crate::person_map::{lookup, store, PersonMap};
use crate::replay::{
    branched, fork_cursor, replayed_through, root_branch, trace_len, Run, RunView, SnapshotView,
};
use crate::rng::{lcg_next, seeded_state, DeterministicRng};
use crate::text::{decimal, decimal_string};
use crate::time::{Duration, SimTime};
use crate::world::{
    belief_index, confidence_in, latest_event_parent, next_event,
    world_after_emit, WorldError, WorldState, WorldView,
};

verus! {

struct ScheduledEvent {
    timestamp: SimTime,
    kind: EventKind,
    effects: Vec<StateEffect>,
    visibility: Visibility,
}

/// The mathematical value of a scheduled event.
pub struct ScheduledView {
    pub timestamp: SimTime,
    pub kind: EventKindView,
    pub effects: Seq<StateEffectView>,
    pub visibility: VisibilityView,
}

impl View for ScheduledEvent {
    type V = ScheduledView;

    closed spec fn view(&self) -> ScheduledView {
        ScheduledView {
            timestamp: self.timestamp,
            kind: self.kind@,
            effects: views(self.effects@),
            visibility: self.visibility@,
        }
    }
}

pub struct Simulation {
    pub world: WorldState,
    pub run: Run,
    seed: u64,
    rng: DeterministicRng,
    /// Observation cursors are runtime delivery state, not latent world state.
    /// They are reset when a branch is created.
    observation_cursors: PersonMap<usize>,
    scheduled: Vec<ScheduledEvent>,
}

/// The mathematical value of a `Simulation`.
#[verifier::ext_equal]
pub struct SimulationView {
    pub world: WorldView,
    pub run: RunView,
    pub seed: u64,
    pub rng_state: u64,
    pub cursors: Seq<(PersonId, usize)>,
    pub scheduled: Seq<ScheduledView>,
}

impl View for Simulation {
    type V = SimulationView;

    closed spec fn view(&self) -> SimulationView {
        SimulationView {
            world: self.world@,
            run: self.run@,
            seed: self.seed,
            rng_state: self.rng@,
            cursors: self.observation_cursors@,
            scheduled: views(self.scheduled@),
        }
    }
}

impl Simulation {
    /// The simulation's world (the public `world` field).
    pub fn world(&self) -> (w: &WorldState)
        ensures
            w@ == self@.world,
    {
        &self.world
    }

    /// The simulation's run (the public `run` field).
    pub fn run(&self) -> (r: &Run)
        ensures
            r@ == self@.run,
    {
        &self.run
    }
}

/// A world with nothing in it, at time zero.
pub open spec fn empty_world() -> WorldView {
    WorldView {
        time: SimTime(0),
        people: Seq::empty(),
        locations: Map::empty(),
        events: Seq::empty(),
        next_event_id: 0,
    }
}

/// A snapshot of `w` at the current cursors of `r`.
pub open spec fn snapshot_of(r: RunView, w: WorldView, rng_state: u64) -> SnapshotView {
    SnapshotView {
        time: w.time,
        event_cursor: r.events.len() as usize,
        observation_cursor: r.observations.len() as usize,
        action_cursor: r.actions.len() as usize,
        rng_state,
        world: w,
    }
}

/// A new simulation with seed `seed`: an empty world, a `main` run that has
/// recorded one snapshot of it, and the generator seeded with `seed`.
pub open spec fn seeded_simulation(seed: u64) -> SimulationView {
    let run0 = RunView {
        seed,
        branch: root_branch("main"@),
        events: Seq::empty(),
        observations: Seq::empty(),
        actions: Seq::empty(),
        snapshots: Seq::empty(),
    };
    SimulationView {
        world: empty_world(),
        run: RunView {
            snapshots: seq![snapshot_of(run0, empty_world(), seeded_state(seed))],
            ..run0
        },
        seed,
        rng_state: seeded_state(seed),
        cursors: Seq::empty(),
        scheduled: Seq::empty(),
    }
}

/// The simulation after a checkpoint: the run records a snapshot of the world
/// and of the generator state.
pub open spec fn checkpointed(s: SimulationView) -> SimulationView {
    SimulationView {
        run: RunView {
            snapshots: s.run.snapshots.push(snapshot_of(s.run, s.world, s.rng_state)),
            ..s.run
        },
        ..s
    }
}

/// The event a simulation records next, with its place in the run's trace.
pub open spec fn recorded_event(
    s: SimulationView,
    kind: EventKindView,
    effects: Seq<StateEffectView>,
    visibility: VisibilityView,
    parents: Seq<EventId>,
) -> EventView {
    EventView {
        trace_sequence: trace_len(s.run) as u64,
        ..next_event(s.world, kind, effects, visibility, parents)
    }
}

/// The simulation after recording an event: the world emits it (applying its
/// effects), and the run records the same event with the next trace sequence.
pub open spec fn recorded(
    s: SimulationView,
    kind: EventKindView,
    effects: Seq<StateEffectView>,
    visibility: VisibilityView,
    parents: Seq<EventId>,
) -> SimulationView {
    let w1 = world_after_emit(s.world, kind, effects, visibility, parents);
    let e = recorded_event(s, kind, effects, visibility, parents);
    SimulationView {
        world: WorldView { events: w1.events.update(w1.events.len() - 1, e), ..w1 },
        run: RunView { events: s.run.events.push(e), ..s.run },
        ..s
    }
}

/// Recording a public event whose causal parent is the latest event.
pub open spec fn emitted(s: SimulationView, kind: EventKindView, effects: Seq<StateEffectView>) -> SimulationView {
    recorded(s, kind, effects, VisibilityView::Public, latest_event_parent(s.world))
}

/// Room for one more event and one more trace record.
pub open spec fn can_record(s: SimulationView) -> bool {
    s.world.next_event_id < u64::MAX && trace_len(s.run) <= u64::MAX
}

/// The text of a promise-broken memory: `<from> broke a promise: <content>`.
pub open spec fn broken_promise_text(from: PersonId, content: Seq<char>) -> Seq<char> {
    decimal(from.0 as nat) + " broke a promise: "@ + content
}

/// `0.8`, the salience of a broken promise.
pub open spec fn broken_promise_salience() -> Binary32 {
    Binary32 { bits: 0x3F4C_CCCD }
}

/// `-0.15`, the trust change of a broken promise.
pub open spec fn broken_promise_trust_delta() -> Binary32 {
    Binary32 { bits: 0xBE19_999A }
}

/// `0.1`, the conflict and uncertainty change of a broken promise.
pub open spec fn broken_promise_unrest_delta() -> Binary32 {
    Binary32 { bits: 0x3DCC_CCCD }
}

/// The psychological consequences of `from` breaking a promise to `to` at time `t`.
pub open spec fn broken_promise_effects(from: PersonId, to: PersonId, t: SimTime, content: Seq<char>) -> Seq<StateEffectView> {
    seq![
        StateEffectView::MemoryAdded {
            person: to,
            timestamp: t,
            description: broken_promise_text(from, content),
            salience: broken_promise_salience(),
        },
        StateEffectView::RelationshipChanged {
            observer: to,
            target: from,
            trust_delta: broken_promise_trust_delta(),
            conflict_delta: broken_promise_unrest_delta(),
            uncertainty_delta: broken_promise_unrest_delta(),
        },
    ]
}

/// A person's current confidence in `prop`, or `0.0` when they hold no such
/// belief or do not exist.
pub open spec fn prior_confidence(w: WorldView, person: PersonId, prop: Seq<char>) -> Binary32 {
    match lookup(w.people, person) {
        Some(p) => match belief_index(p.beliefs, prop) {
            Some(i) => p.beliefs[i].confidence,
            None => Binary32 { bits: 0 },
        },
        None => Binary32 { bits: 0 },
    }
}

/// A person's current valence and arousal, or `0.0` for someone who does not exist.
pub open spec fn prior_affect(w: WorldView, person: PersonId) -> (Binary32, Binary32) {
    match lookup(w.people, person) {
        Some(p) => (p.affect.valence, p.affect.arousal),
        None => (Binary32 { bits: 0 }, Binary32 { bits: 0 }),
    }
}

/// The position of the next scheduled event due at or before `target`: the
/// earliest one, and the first scheduled among equally early ones.
pub open spec fn next_due(sched: Seq<ScheduledView>, target: SimTime) -> Option<int>
    decreases sched.len(),
{
    if sched.len() == 0 {
        None
    } else {
        let prev = next_due(sched.drop_last(), target);
        let l = sched.last();
        if l.timestamp.0 <= target.0 && match prev {
            None => true,
            Some(i) => l.timestamp.0 < sched[i].timestamp.0,
        } {
            Some(sched.len() - 1)
        } else {
            prev
        }
    }
}

pub proof fn lemma_next_due_bounds(sched: Seq<ScheduledView>, target: SimTime)
    ensures
        match next_due(sched, target) {
            Some(i) => 0 <= i < sched.len() && sched[i].timestamp.0 <= target.0,
            None => forall|j: int| 0 <= j < sched.len() ==> (#[trigger] sched[j]).timestamp.0 > target.0,
        },
    decreases sched.len(),
{
    if sched.len() > 0 {
        let p = sched.drop_last();
        lemma_next_due_bounds(p, target);
        assert forall|j: int| 0 <= j < p.len() implies p[j] == sched[j] by {}
    }
}

/// The next due event is the earliest of the due ones.
pub proof fn lemma_next_due_earliest(sched: Seq<ScheduledView>, target: SimTime)
    ensures
        next_due(sched, target) matches Some(i) ==> forall|j: int|
            0 <= j < sched.len() && (#[trigger] sched[j]).timestamp.0 <= target.0 ==> sched[i].timestamp.0
                <= sched[j].timestamp.0,
    decreases sched.len(),
{
    if sched.len() > 0 {
        let p = sched.drop_last();
        lemma_next_due_earliest(p, target);
        lemma_next_due_bounds(p, target);
        lemma_next_due_bounds(sched, target);
        assert forall|j: int| 0 <= j < p.len() implies p[j] == sched[j] by {}
    }
}

/// Scheduled events run in time order: advancing to `target` appends one event
/// per due scheduled event, with nondecreasing timestamps between the current
/// time and the target, and leaves only later events scheduled.
pub proof fn lemma_run_due_in_time_order(s: SimulationView, target: SimTime)
    requires
        s.world.time.0 <= target.0,
        forall|j: int| 0 <= j < s.scheduled.len() ==> (#[trigger] s.scheduled[j]).timestamp.0 >= s.world.time.0,
        s.world.next_event_id + s.scheduled.len() <= u64::MAX,
        trace_len(s.run) + s.scheduled.len() <= u64::MAX,
    ensures
        ({
            let r = run_due(s, target);
            let n = s.run.events.len() as int;
            &&& r.run.events.len() + r.scheduled.len() == s.run.events.len() + s.scheduled.len()
            &&& n <= r.run.events.len()
            &&& r.run.events.take(n) == s.run.events
            &&& s.world.time.0 <= r.world.time.0 <= target.0
            &&& forall|i: int, j: int|
                n <= i <= j < r.run.events.len() ==> (#[trigger] r.run.events[i]).timestamp.0
                    <= (#[trigger] r.run.events[j]).timestamp.0
            &&& forall|i: int|
                n <= i < r.run.events.len() ==> s.world.time.0 <= (#[trigger] r.run.events[i]).timestamp.0
                    <= r.world.time.0
            &&& forall|j: int| 0 <= j < r.scheduled.len() ==> (#[trigger] r.scheduled[j]).timestamp.0 > target.0
        }),
    decreases s.scheduled.len(),
{
    lemma_next_due_bounds(s.scheduled, target);
    lemma_next_due_earliest(s.scheduled, target);
    match next_due(s.scheduled, target) {
        None => {
            assert(s.run.events.take(s.run.events.len() as int) =~= s.run.events);
        },
        Some(i) => {
            let ev = s.scheduled[i];
            let s1 = SimulationView {
                scheduled: s.scheduled.remove(i),
                world: WorldView { time: ev.timestamp, ..s.world },
                ..s
            };
            assert forall|j: int| 0 <= j < s1.scheduled.len() implies (#[trigger] s1.scheduled[j]).timestamp.0
                >= s1.world.time.0 by {
                if j < i {
                    assert(s1.scheduled[j] == s.scheduled[j]);
                } else {
                    assert(s1.scheduled[j] == s.scheduled[j + 1]);
                }
            }
            let parents = latest_event_parent(s1.world);
            lemma_recorded_counts(s1, ev.kind, ev.effects, ev.visibility, parents);
            let s2 = recorded(s1, ev.kind, ev.effects, ev.visibility, parents);
            crate::world::lemma_effects_keep_history(s1.world, ev.effects);
            lemma_run_due_in_time_order(s2, target);
            let r = run_due(s2, target);
            let n = s.run.events.len() as int;
            assert(s2.run.events == s.run.events.push(s2.run.events[n]));
            assert(s2.run.events.len() == n + 1);
            assert(r.run.events.take(n + 1) == s2.run.events);
            assert(r.run.events.len() >= n + 1);
            assert(r.run.events[n] == s2.run.events[n]);
            assert(r.run.events.take(n) =~= s.run.events) by {
                assert(r.run.events.take(n) =~= r.run.events.take(n + 1).take(n));
                assert(s2.run.events.take(n) =~= s.run.events);
            }
            assert forall|i: int, j: int|
                n <= i <= j < r.run.events.len() implies (#[trigger] r.run.events[i]).timestamp.0
                    <= (#[trigger] r.run.events[j]).timestamp.0 by {
                if i == n {
                    assert(r.run.events[n].timestamp == ev.timestamp);
                }
            }
        },
    }
}

/// The simulation after executing every scheduled event due at or before
/// `target`, earliest first (in scheduling order among equal times): each one
/// is removed from the schedule, the clock moves to its time, and it is recorded.
pub open spec fn run_due(s: SimulationView, target: SimTime) -> SimulationView
    decreases s.scheduled.len(),
{
    match next_due(s.scheduled, target) {
        None => s,
        Some(i) => if 0 <= i < s.scheduled.len() {
            let ev = s.scheduled[i];
            let s1 = SimulationView {
                scheduled: s.scheduled.remove(i),
                world: WorldView { time: ev.timestamp, ..s.world },
                ..s
            };
            run_due(recorded(s1, ev.kind, ev.effects, ev.visibility, latest_event_parent(s1.world)), target)
        } else {
            s
        },
    }
}

/// The simulation after advancing by `d`: the due scheduled events run, then
/// the clock is set to the target time.
pub open spec fn advanced(s: SimulationView, d: Duration) -> SimulationView {
    let target = SimTime((s.world.time.0 + d.0) as u64);
    let r = run_due(s, target);
    SimulationView { world: WorldView { time: target, ..r.world }, ..r }
}

/// `s` with its clock set to `t`.
pub open spec fn with_clock(s: SimulationView, t: SimTime) -> SimulationView {
    SimulationView { world: WorldView { time: t, ..s.world }, ..s }
}

/// The next event due by `t1` is also the next one due by any later `t2`.
proof fn lemma_next_due_later(sched: Seq<ScheduledView>, t1: SimTime, t2: SimTime)
    requires
        t1.0 <= t2.0,
        next_due(sched, t1) is Some,
    ensures
        next_due(sched, t2) == next_due(sched, t1),
    decreases sched.len(),
{
    let d = sched.drop_last();
    lemma_next_due_bounds(d, t1);
    lemma_next_due_bounds(d, t2);
    assert forall|j: int| 0 <= j < d.len() implies d[j] == sched[j] by {}
    if next_due(d, t1) is Some {
        lemma_next_due_later(d, t1, t2);
    }
}

/// Running due events does not depend on the clock it starts from, once the
/// clock is set afterwards.
proof fn lemma_run_due_ignores_clock(s: SimulationView, t0: SimTime, t: SimTime, after: SimTime)
    ensures
        with_clock(run_due(with_clock(s, t0), t), after) == with_clock(run_due(s, t), after),
{
    lemma_next_due_bounds(s.scheduled, t);
    match next_due(s.scheduled, t) {
        None => {
            assert(with_clock(with_clock(s, t0), after) =~= with_clock(s, after));
        },
        Some(i) => {},
    }
}

/// Running the events due by `t1` and then those due by `t2` runs those due by `t2`.
proof fn lemma_run_due_split(s: SimulationView, t1: SimTime, t2: SimTime, t0: SimTime, after: SimTime)
    requires
        t1.0 <= t2.0,
    ensures
        with_clock(run_due(with_clock(run_due(s, t1), t0), t2), after) == with_clock(run_due(s, t2), after),
    decreases s.scheduled.len(),
{
    lemma_next_due_bounds(s.scheduled, t1);
    match next_due(s.scheduled, t1) {
        None => {
            lemma_run_due_ignores_clock(s, t0, t2, after);
        },
        Some(i) => {
            lemma_next_due_later(s.scheduled, t1, t2);
            let ev = s.scheduled[i];
            let s1 = SimulationView {
                scheduled: s.scheduled.remove(i),
                world: WorldView { time: ev.timestamp, ..s.world },
                ..s
            };
            let s2 = recorded(s1, ev.kind, ev.effects, ev.visibility, latest_event_parent(s1.world));
            lemma_run_due_split(s2, t1, t2, t0, after);
        },
    }
}

/// Splitting an advance changes nothing: advancing by `a` and then by `b` is
/// advancing by `a + b`.
pub proof fn lemma_advance_split(s: SimulationView, a: Duration, b: Duration)
    requires
        s.world.time.0 + a.0 + b.0 <= u64::MAX,
    ensures
        advanced(advanced(s, a), b) == advanced(s, Duration((a.0 + b.0) as u64)),
{
    let t1 = SimTime((s.world.time.0 + a.0) as u64);
    let t2 = SimTime((s.world.time.0 + a.0 + b.0) as u64);
    lemma_run_due_split(s, t1, t2, t1, t2);
    assert(advanced(s, a) == with_clock(run_due(s, t1), t1));
    assert(advanced(advanced(s, a), b) == with_clock(run_due(with_clock(run_due(s, t1), t1), t2), t2));
    assert(advanced(s, Duration((a.0 + b.0) as u64)) == with_clock(run_due(s, t2), t2));
}

/// Recording moves both counters by one.
pub proof fn lemma_recorded_counts(
    s: SimulationView,
    kind: EventKindView,
    effects: Seq<StateEffectView>,
    visibility: VisibilityView,
    parents: Seq<EventId>,
)
    requires
        can_record(s),
    ensures
        recorded(s, kind, effects, visibility, parents).world.next_event_id == s.world.next_event_id + 1,
        trace_len(recorded(s, kind, effects, visibility, parents).run) == trace_len(s.run) + 1,
        recorded(s, kind, effects, visibility, parents).scheduled == s.scheduled,
{
}

impl Simulation {
    pub fn with_seed(seed: u64) -> (s: Simulation)
        ensures
            s@ == seeded_simulation(seed),
    {
        let world = WorldState::new();
        let mut run = Run::new("main");
        let rng = DeterministicRng::new(seed);
        run.seed = seed;
        run.capture(&world, rng.state());
        let s = Simulation {
            world,
            run,
            seed,
            rng,
            observation_cursors: PersonMap::new(),
            scheduled: Vec::new(),
        };
        assert(views(s.scheduled@) =~= Seq::<ScheduledView>::empty());
        assert(s@ =~= seeded_simulation(seed));
        s
    }

    pub fn new() -> (s: Simulation)
        ensures
            s@ == seeded_simulation(0),
    {
        Simulation::with_seed(0)
    }

    pub fn seed(&self) -> (r: u64)
        ensures
            r == self@.seed,
    {
        self.seed
    }

    pub fn time(&self) -> (t: SimTime)
        ensures
            t == self@.world.time,
    {
        self.world.time_now()
    }

    /// Whether the event counter and the trace have room for one more event
    /// (the condition under which the event-recording operations may be called).
    pub fn can_record_event(&self) -> (r: bool)
        ensures
            r == can_record(self@),
    {
        let n = self.run.events.len() as u128 + self.run.observations.len() as u128
            + self.run.actions.len() as u128;
        self.world.next_event_id() < u64::MAX && n <= u64::MAX as u128
    }

    /// Whether `advance(duration)` may be called: the target time fits, and the
    /// counters have room for every scheduled event.
    pub fn can_advance(&self, duration: Duration) -> (r: bool)
        ensures
            r == (self@.world.time.0 + duration.0 <= u64::MAX && self@.world.next_event_id
                + self@.scheduled.len() <= u64::MAX && trace_len(self@.run) + self@.scheduled.len()
                <= u64::MAX),
    {
        let k = self.scheduled.len() as u128;
        let n = self.run.events.len() as u128 + self.run.observations.len() as u128
            + self.run.actions.len() as u128;
        self.world.time_now().0 as u128 + duration.0 as u128 <= u64::MAX as u128
            && self.world.next_event_id() as u128 + k <= u64::MAX as u128 && n + k <= u64::MAX as u128
    }

    /// Whether `step_agent` may be called: room for one event and three trace records.
    pub fn can_step(&self) -> (r: bool)
        ensures
            r == (self@.world.next_event_id < u64::MAX && trace_len(self@.run) + 2 <= u64::MAX),
    {
        let n = self.run.events.len() as u128 + self.run.observations.len() as u128
            + self.run.actions.len() as u128;
        self.world.next_event_id() < u64::MAX && n + 2 <= u64::MAX as u128
    }

    /// Captures a deterministic checkpoint of both world state and generator
    /// state. Without the latter, replay could diverge after a random choice.
    pub fn checkpoint(&mut self)
        ensures
            final(self)@ == checkpointed(old(self)@),
    {
        let st = self.rng.state();
        self.run.capture(&self.world, st);
    }

    fn record(
        &mut self,
        kind: EventKind,
        effects: Vec<StateEffect>,
        visibility: Visibility,
        parents: Vec<EventId>,
    ) -> (id: EventId)
        requires
            can_record(old(self)@),
        ensures
            id == EventId(old(self)@.world.next_event_id),
            final(self)@ == recorded(old(self)@, kind@, views(effects@), visibility@, parents@),
    {
        let ghost pre = self@;
        let seq = self.run.events.len() as u64 + self.run.observations.len() as u64
            + self.run.actions.len() as u64;
        let id = self.world.emit_with_parents(kind, effects, visibility, parents);
        let last = self.world.event_count() - 1;
        let event = self.world.event_at(last).duplicate();
        self.run.record_event(event);
        self.world.set_latest_trace_sequence(seq);
        assert(self@ =~= recorded(pre, kind@, views(effects@), visibility@, parents@));
        id
    }

    fn emit(&mut self, kind: EventKind, effects: Vec<StateEffect>) -> (id: EventId)
        requires
            can_record(old(self)@),
        ensures
            id == EventId(old(self)@.world.next_event_id),
            final(self)@ == emitted(old(self)@, kind@, views(effects@)),
    {
        let parents = self.world.latest_parent();
        self.record(kind, effects, Visibility::Public, parents)
    }
}

/// Where a person's observations resume: after the events already considered.
pub open spec fn cursor_of(cursors: Seq<(PersonId, usize)>, p: PersonId) -> int {
    match lookup(cursors, p) {
        Some(c) => c as int,
        None => 0,
    }
}

/// The events a person may observe now: those after their cursor that are
/// visible to them.
pub open spec fn newly_visible(w: WorldView, cursor: int, observer: PersonId) -> Seq<EventView> {
    let unseen = if cursor <= w.events.len() {
        w.events.skip(cursor)
    } else {
        Seq::empty()
    };
    unseen.filter(visible_filter(observer))
}

/// Events visible to `observer`.
pub open spec fn visible_filter(observer: PersonId) -> spec_fn(EventView) -> bool {
    |e: EventView| visible(e.visibility, observer)
}

/// `parts` joined with `sep` between consecutive parts.
pub open spec fn joined(parts: Seq<Seq<char>>, sep: Seq<char>) -> Seq<char>
    decreases parts.len(),
{
    if parts.len() == 0 {
        Seq::empty()
    } else if parts.len() == 1 {
        parts[0]
    } else {
        joined(parts.drop_last(), sep) + sep + parts.last()
    }
}

/// The text made of `parts`, one per line, or a note that nothing new is
/// observable when there are none.
pub open spec fn composed_text(parts: Seq<Seq<char>>) -> Seq<char> {
    if parts.len() == 0 {
        "Nothing new is observable."@
    } else {
        joined(parts, "\n"@)
    }
}

/// The text of an observation of `es`: the `Debug` text of each event kind,
/// one per line, or a note that nothing new is observable.
pub open spec fn observation_text(es: Seq<EventView>) -> Seq<char> {
    composed_text(es.map_values(|e: EventView| event_kind_debug(e.kind)))
}

/// Writes the descriptions of observed events one per line, or says that
/// nothing new is observable.
pub fn compose_observation_text(parts: &Vec<String>) -> (s: String)
    ensures
        s@ == composed_text(views(parts@)),
{
    if parts.len() == 0 {
        return String::from_str("Nothing new is observable.");
    }
    let ghost ps = views(parts@);
    let mut text = String::new();
    for i in 0..parts.len()
        invariant
            ps == views(parts@),
            ps.len() == parts.len(),
            text@ == joined(ps.take(i as int), "\n"@),
    {
        let ghost before = text@;
        assert(ps.take(i + 1).drop_last() =~= ps.take(i as int));
        assert(ps.take(i + 1).last() == parts@[i as int]@);
        if i > 0 {
            text = text.concat("\n");
        }
        text = text.concat(parts[i].as_str());
        proof {
            if i == 0 {
                assert(ps.take(1).len() == 1);
                assert(before =~= Seq::<char>::empty());
                assert(text@ =~= ps.take(1)[0]);
            }
        }
    }
    assert(ps.take(parts.len() as int) =~= ps);
    text
}

/// The observation `observer` receives in `s`.
pub open spec fn observation_for(s: SimulationView, observer: PersonId) -> ObservationView {
    let es = newly_visible(s.world, cursor_of(s.cursors, observer), observer);
    ObservationView::Text {
        timestamp: s.world.time,
        observer,
        text: observation_text(es),
        source_events: es.map_values(|e: EventView| e.id),
    }
}

/// Where `observer`'s next observation starts in the world's event list.
pub open spec fn observed_from(s: SimulationView, observer: PersonId) -> int {
    if cursor_of(s.cursors, observer) <= s.world.events.len() {
        cursor_of(s.cursors, observer)
    } else {
        s.world.events.len() as int
    }
}

/// Some event from position `from` on has id `id` and is visible to `observer`.
pub open spec fn visible_event_after(es: Seq<EventView>, from: int, id: EventId, observer: PersonId) -> bool {
    exists|j: int| from <= j < es.len() && es[j].id == id && visible(es[j].visibility, observer)
}

/// An observation exposes exactly the new events its observer may see: every
/// source event is an event after the observer's cursor that is visible to
/// them (latent events never appear), and every such event is a source event.
pub proof fn lemma_observation_shows_only_visible(s: SimulationView, observer: PersonId)
    ensures
        forall|k: int|
            0 <= k < source_events_of(observation_for(s, observer)).len() ==> visible_event_after(
                s.world.events,
                observed_from(s, observer),
                #[trigger] source_events_of(observation_for(s, observer))[k],
                observer,
            ),
        forall|j: int|
            observed_from(s, observer) <= j < s.world.events.len() && visible(
                #[trigger] s.world.events[j].visibility,
                observer,
            ) ==> source_events_of(observation_for(s, observer)).contains(s.world.events[j].id),
{
    let es = s.world.events;
    let cur = cursor_of(s.cursors, observer);
    let c = observed_from(s, observer);
    let unseen = es.skip(c);
    assert(cur <= es.len() || unseen =~= Seq::<EventView>::empty());
    let pred = visible_filter(observer);
    let shown = newly_visible(s.world, cur, observer);
    assert(shown == unseen.filter(pred));
    let src = source_events_of(observation_for(s, observer));
    assert(src == shown.map_values(|e: EventView| e.id));
    assert forall|j: int| c <= j < es.len() && visible(#[trigger] es[j].visibility, observer) implies src.contains(
        es[j].id,
    ) by {
        assert(unseen[j - c] == es[j]);
        unseen.lemma_filter_contains(pred, j - c);
        let m = choose|m: int| 0 <= m < shown.len() && shown[m] == es[j];
        assert(src[m] == es[j].id);
    }
    assert forall|k: int| 0 <= k < src.len() implies visible_event_after(es, c, #[trigger] src[k], observer) by {
        unseen.lemma_filter_pred(pred, k);
        assert(shown.contains(shown[k]));
        unseen.lemma_filter_contains_rev(pred, shown[k]);
        let m = choose|m: int| 0 <= m < unseen.len() && unseen[m] == shown[k];
        assert(es[c + m] == unseen[m]);
        assert(es[c + m].id == src[k]);
        assert(c <= c + m < es.len());
    }
}

/// The simulation after `observer` observed: their cursor moves past every
/// current event, visible or not, so hidden events are not reconsidered.
pub open spec fn after_observing(s: SimulationView, observer: PersonId) -> SimulationView {
    SimulationView {
        cursors: store(s.cursors, observer, s.world.events.len() as usize),
        ..s
    }
}

/// Hidden events are not reconsidered: observing again with no new event
/// shows nothing, whatever was hidden before.
pub proof fn lemma_observing_again_shows_nothing_new(s: SimulationView, observer: PersonId)
    requires
        s.world.events.len() <= usize::MAX,
    ensures
        source_events_of(observation_for(after_observing(s, observer), observer)).len() == 0,
        observation_for(after_observing(s, observer), observer) matches ObservationView::Text { text, .. }
            && text == "Nothing new is observable."@,
{
    let t = after_observing(s, observer);
    crate::person_map::lemma_lookup_store(s.cursors, observer, s.world.events.len() as usize, observer);
    assert(cursor_of(t.cursors, observer) == s.world.events.len());
    let unseen = t.world.events.skip(s.world.events.len() as int);
    assert(unseen =~= Seq::<EventView>::empty());
    assert(unseen.filter(visible_filter(observer)) =~= Seq::<EventView>::empty()) by {
        reveal(Seq::filter);
    }
}

pub open spec fn source_events_of(o: ObservationView) -> Seq<EventId> {
    match o {
        ObservationView::Text { source_events, .. } => source_events,
    }
}

/// One closed-loop agent step for an existing `actor` whose agent answered
/// `action`: the observation is recorded, the action becomes a world event
/// caused by the observed events, and the action itself is recorded.
pub open spec fn stepped(s: SimulationView, actor: PersonId, action: ActionView) -> SimulationView {
    let o = observation_for(s, actor);
    let src = source_events_of(o);
    let s1 = after_observing(s, actor);
    let s2 = SimulationView {
        run: RunView {
            observations: s1.run.observations.push(
                crate::replay::ObservationRecordView {
                    trace_sequence: trace_len(s1.run) as u64,
                    timestamp: s1.world.time,
                    observer: actor,
                    observation: o,
                    source_events: src,
                },
            ),
            ..s1.run
        },
        ..s1
    };
    let name = lookup(s.world.people, actor)->0.name;
    let s3 = recorded(
        s2,
        EventKindView::AgentAction { actor, description: crate::world::action_text(name, action) },
        Seq::empty(),
        VisibilityView::Public,
        src,
    );
    SimulationView {
        run: RunView {
            actions: s3.run.actions.push(
                crate::replay::ActionRecordView {
                    trace_sequence: trace_len(s3.run) as u64,
                    timestamp: s3.world.time,
                    actor,
                    action,
                    source_events: src,
                    resulting_event: Some(EventId(s2.world.next_event_id)),
                },
            ),
            ..s3.run
        },
        ..s3
    }
}

/// Running due events never draws from the generator.
proof fn lemma_run_due_keeps_generator(s: SimulationView, target: SimTime)
    ensures
        run_due(s, target).rng_state == s.rng_state,
        run_due(s, target).seed == s.seed,
    decreases s.scheduled.len(),
{
    match next_due(s.scheduled, target) {
        None => {},
        Some(i) => if 0 <= i < s.scheduled.len() {
            let ev = s.scheduled[i];
            let s1 = SimulationView {
                scheduled: s.scheduled.remove(i),
                world: WorldView { time: ev.timestamp, ..s.world },
                ..s
            };
            lemma_run_due_keeps_generator(
                recorded(s1, ev.kind, ev.effects, ev.visibility, latest_event_parent(s1.world)),
                target,
            );
        },
    }
}

/// Randomness is reproducible: only `random_u64` moves the generator, so the
/// draws of a simulation depend on its seed and on how many draws came before,
/// never on the events, observations, agent steps, checkpoints or time in between.
pub proof fn lemma_only_draws_move_generator(
    s: SimulationView,
    kind: EventKindView,
    effects: Seq<StateEffectView>,
    visibility: VisibilityView,
    parents: Seq<EventId>,
    d: Duration,
    person: PersonId,
    action: ActionView,
)
    ensures
        recorded(s, kind, effects, visibility, parents).rng_state == s.rng_state,
        advanced(s, d).rng_state == s.rng_state,
        after_observing(s, person).rng_state == s.rng_state,
        stepped(s, person, action).rng_state == s.rng_state,
        checkpointed(s).rng_state == s.rng_state,
{
    lemma_run_due_keeps_generator(s, SimTime((s.world.time.0 + d.0) as u64));
}

/// The first of `snaps` taken exactly at event cursor `c`.
pub open spec fn first_at_cursor(snaps: Seq<SnapshotView>, c: int) -> Option<int>
    decreases snaps.len(),
{
    if snaps.len() == 0 {
        None
    } else {
        match first_at_cursor(snaps.drop_last(), c) {
            Some(i) => Some(i),
            None => if snaps.last().event_cursor == c {
                Some(snaps.len() - 1)
            } else {
                None
            },
        }
    }
}

pub proof fn lemma_first_at_cursor(snaps: Seq<SnapshotView>, c: int)
    ensures
        match first_at_cursor(snaps, c) {
            Some(i) => 0 <= i < snaps.len() && snaps[i].event_cursor == c && forall|j: int|
                0 <= j < i ==> snaps[j].event_cursor != c,
            None => forall|j: int| 0 <= j < snaps.len() ==> snaps[j].event_cursor != c,
        },
    decreases snaps.len(),
{
    if snaps.len() > 0 {
        let p = snaps.drop_last();
        lemma_first_at_cursor(p, c);
        assert forall|j: int| 0 <= j < p.len() implies p[j] == snaps[j] by {}
    }
}

pub open spec fn no_replay_base_message() -> Seq<char> {
    "no snapshot exists from which to replay this cursor"@
}

pub open spec fn no_checkpoint_message(c: int) -> Seq<char> {
    "branch cursor "@ + decimal(c as nat)
        + " has no RNG checkpoint; call checkpoint() at the intervention boundary first"@
}

/// The counterfactual simulation forked from `s` at an exact event cursor, or
/// why it cannot be made: its world is reconstructed from history (not copied
/// from the parent's current state), and its generator resumes from the
/// checkpoint taken exactly at the fork cursor.
pub open spec fn branch_of(s: SimulationView, branch_id: Seq<char>, event_cursor: int) -> Result<
    SimulationView,
    Seq<char>,
> {
    let c = fork_cursor(s.run, event_cursor);
    let child = branched(s.run, branch_id, event_cursor);
    match replayed_through(s.run, c) {
        None => Err(no_replay_base_message()),
        Some(w) => match first_at_cursor(child.snapshots, c) {
            None => Err(no_checkpoint_message(c)),
            Some(i) => Ok(
                SimulationView {
                    world: w,
                    run: child,
                    seed: s.seed,
                    rng_state: seeded_state(child.snapshots[i].rng_state),
                    cursors: Seq::empty(),
                    scheduled: Seq::empty(),
                },
            ),
        },
    }
}

impl Simulation {
    /// Generates the current event-based observation for one person.
    ///
    /// The cursor advances through the latent event stream even when events
    /// are hidden, so an invisible event is not reconsidered on every call.
    pub fn observe(&mut self, observer: PersonId) -> (r: Option<Observation>)
        ensures
            match lookup(old(self)@.world.people, observer) {
                None => r is None && final(self)@ == old(self)@,
                Some(_) => r matches Some(o) && o@ == observation_for(old(self)@, observer)
                    && final(self)@ == after_observing(old(self)@, observer),
            },
    {
        if self.world.person(observer).is_none() {
            return None;
        }
        let ghost s0 = self@;
        let ghost es = s0.world.events;
        let cursor: usize = match self.observation_cursors.get(&observer) {
            Some(c) => *c,
            None => 0,
        };
        let n = self.world.event_count();
        let start = if cursor <= n {
            cursor
        } else {
            n
        };
        let ghost unseen = es.skip(start as int);
        let ghost pred = visible_filter(observer);
        let mut ids: Vec<EventId> = Vec::new();
        let mut parts: Vec<String> = Vec::new();
        let ghost mut seen: Seq<EventView> = Seq::empty();
        let mut i = start;
        assert(unseen.take(0) =~= Seq::<EventView>::empty());
        assert(seen == unseen.take(0).filter(pred)) by {
            reveal(Seq::filter);
        }
        while i < n
            invariant
                s0 == self@,
                es == s0.world.events,
                n == es.len(),
                pred == visible_filter(observer),
                start <= i <= n,
                unseen == es.skip(start as int),
                seen == unseen.take(i - start).filter(pred),
                ids@ == seen.map_values(|e: EventView| e.id),
                views(parts@) == seen.map_values(|e: EventView| event_kind_debug(e.kind)),
            decreases n - i,
        {
            let e = self.world.event_at(i);
            proof {
                assert(unseen[i - start] == es[i as int]);
                crate::replay::lemma_filter_take_step(unseen, i - start, pred);
                assert(e@ == unseen[i - start]);
                assert(pred(unseen[i - start]) == visible(e@.visibility, observer));
            }
            if e.visibility.visible_to(observer) {
                let piece = e.kind.debug_text();
                let ghost before = parts@;
                parts.push(piece);
                ids.push(e.id);
                proof {
                    assert(views(parts@) =~= views(before).push(event_kind_debug(e@.kind)));
                    seen = seen.push(e@);
                    assert(ids@ =~= seen.map_values(|e: EventView| e.id));
                    assert(views(parts@) =~= seen.map_values(|e: EventView| event_kind_debug(e.kind)));
                }
            }
            proof {
                assert(seen == unseen.take(i + 1 - start).filter(pred));
            }
            i = i + 1;
        }
        proof {
            assert(unseen.take(n - start) =~= unseen);
            if cursor > n {
                assert(unseen =~= Seq::<EventView>::empty());
            }
        }
        let text = compose_observation_text(&parts);
        self.observation_cursors.insert(observer, n);
        let time = self.world.time_now();
        let o = Observation::Text { timestamp: time, observer, text, source_events: ids };
        assert(self@ =~= after_observing(s0, observer));
        Some(o)
    }

    /// Copies the world's latest event into the run with the next trace
    /// sequence, and gives the world's copy the same sequence.
    fn record_latest_event(&mut self)
        requires
            old(self)@.world.events.len() > 0,
            trace_len(old(self)@.run) <= u64::MAX,
        ensures
            final(self)@ == (SimulationView {
                world: WorldView {
                    events: old(self)@.world.events.update(
                        old(self)@.world.events.len() - 1,
                        EventView {
                            trace_sequence: trace_len(old(self)@.run) as u64,
                            ..old(self)@.world.events.last()
                        },
                    ),
                    ..old(self)@.world
                },
                run: RunView {
                    events: old(self)@.run.events.push(
                        EventView {
                            trace_sequence: trace_len(old(self)@.run) as u64,
                            ..old(self)@.world.events.last()
                        },
                    ),
                    ..old(self)@.run
                },
                ..old(self)@
            }),
    {
        let ghost pre = self@;
        let seq = self.run.events.len() as u64 + self.run.observations.len() as u64
            + self.run.actions.len() as u64;
        let last = self.world.event_count() - 1;
        let event = self.world.event_at(last).duplicate();
        self.run.record_event(event);
        self.world.set_latest_trace_sequence(seq);
        assert(self@ =~= (SimulationView {
            world: WorldView {
                events: pre.world.events.update(
                    pre.world.events.len() - 1,
                    EventView { trace_sequence: trace_len(pre.run) as u64, ..pre.world.events.last() },
                ),
                ..pre.world
            },
            run: RunView {
                events: pre.run.events.push(
                    EventView { trace_sequence: trace_len(pre.run) as u64, ..pre.world.events.last() },
                ),
                ..pre.run
            },
            ..pre
        }));
    }

    /// Runs one closed-loop agent step:
    /// latent world -> observation -> agent -> action -> world event.
    /// The agent is handed only `actor`'s observation and is asked once; its
    /// answer is recorded and returned. For an unknown actor the agent is not asked.
    pub fn step_agent<A: Agent>(&mut self, actor: PersonId, agent: &mut A) -> (r: Result<
        Action,
        WorldError,
    >)
        requires
            old(self)@.world.next_event_id < u64::MAX,
            trace_len(old(self)@.run) + 2 <= u64::MAX,
        ensures
            match r {
                Ok(a) => {
                    &&& lookup(old(self)@.world.people, actor) is Some
                    &&& old(agent).answers(observation_for(old(self)@, actor), a@)
                    &&& final(self)@ == stepped(old(self)@, actor, a@)
                },
                Err(e) => {
                    &&& lookup(old(self)@.world.people, actor) is None
                    &&& e == WorldError::UnknownPerson(actor)
                    &&& final(self)@ == old(self)@
                    &&& *final(agent) == *old(agent)
                },
            },
    {
        let ghost s0 = self@;
        let observation = match self.observe(actor) {
            Some(o) => o,
            None => {
                return Err(WorldError::UnknownPerson(actor));
            },
        };
        let source_events = match &observation {
            Observation::Text { source_events, .. } => copy_vec(source_events),
        };
        let time = self.world.time_now();
        self.run.record_observation(time, actor, observation.clone(), copy_vec(&source_events));
        let ghost s2 = self@;
        let action = agent.observe(observation);
        let event_id = match self.world.apply_agent_action_with_parents(
            actor,
            &action,
            copy_vec(&source_events),
        ) {
            Ok(id) => id,
            Err(e) => {
                return Err(e);
            },
        };
        proof {
            crate::world::lemma_effects_keep_history(s2.world, Seq::empty());
        }
        self.record_latest_event();
        let ghost s3 = self@;
        assert(s3 =~= recorded(
            s2,
            EventKindView::AgentAction {
                actor,
                description: crate::world::action_text(lookup(s0.world.people, actor)->0.name, action@),
            },
            Seq::empty(),
            VisibilityView::Public,
            source_events@,
        ));
        let time = self.world.time_now();
        self.run.record_action(time, actor, action.clone(), source_events, Some(event_id));
        assert(self@ =~= stepped(s0, actor, action@));
        Ok(action)
    }

    /// Creates a counterfactual from an exact event cursor.
    ///
    /// The child world is reconstructed from history rather than copied from
    /// the parent's current state. A checkpoint at the fork cursor is required,
    /// because a deterministic counterfactual is not valid if the random
    /// trajectory between the checkpoint and the fork is unknown.
    pub fn try_branch(&self, branch_id: &str, event_cursor: usize) -> (r: Result<Simulation, String>)
        ensures
            match branch_of(self@, branch_id@, event_cursor as int) {
                Ok(v) => r matches Ok(child) && child@ == v,
                Err(msg) => r matches Err(e) && e@ == msg,
            },
    {
        let n = self.run.events.len();
        let cursor = if event_cursor <= n {
            event_cursor
        } else {
            n
        };
        let child_run = self.run.branch(branch_id, cursor);
        assert(branched(self@.run, branch_id@, cursor as int) == branched(self@.run, branch_id@, event_cursor as int));
        let child_world = match self.run.replay_to_cursor(cursor) {
            Some(w) => w,
            None => {
                return Err(String::from_str("no snapshot exists from which to replay this cursor"));
            },
        };
        let ghost snaps = child_run@.snapshots;
        let m = child_run.snapshots.len();
        let mut found: Option<usize> = None;
        for i in 0..m
            invariant
                snaps == child_run@.snapshots,
                m == snaps.len(),
                found is None ==> forall|j: int| 0 <= j < i ==> (#[trigger] snaps[j]).event_cursor != cursor,
                found matches Some(k) ==> first_at_cursor(snaps, cursor as int) == Some(k as int) && k < m,
        {
            if found.is_none() {
                assert(snaps[i as int] == child_run.snapshots@[i as int]@);
                if child_run.snapshots[i].event_cursor == cursor {
                    proof {
                        lemma_first_at_cursor(snaps, cursor as int);
                        if first_at_cursor(snaps, cursor as int) != Some(i as int) {
                            let k = first_at_cursor(snaps, cursor as int)->0;
                            assert(snaps[k].event_cursor == cursor);
                        }
                    }
                    found = Some(i);
                }
            }
        }
        let k = match found {
            Some(k) => k,
            None => {
                proof {
                    lemma_first_at_cursor(snaps, cursor as int);
                    if first_at_cursor(snaps, cursor as int) is Some {
                        let k = first_at_cursor(snaps, cursor as int)->0;
                        assert(snaps[k].event_cursor == cursor);
                    }
                }
                let msg = String::from_str("branch cursor ").concat(decimal_string(cursor as u64).as_str()).concat(
                    " has no RNG checkpoint; call checkpoint() at the intervention boundary first",
                );
                return Err(msg);
            },
        };
        let mut rng = DeterministicRng::new(self.seed);
        rng.set_state(child_run.snapshots[k].rng_state);
        assert(snaps[k as int] == child_run.snapshots@[k as int]@);
        let child = Simulation {
            world: child_world,
            run: child_run,
            seed: self.seed,
            rng,
            observation_cursors: PersonMap::new(),
            scheduled: Vec::new(),
        };
        assert(views(child.scheduled@) =~= Seq::<ScheduledView>::empty());
        Ok(child)
    }

    /// Creates a counterfactual for callers that know they checkpointed at the fork.
    pub fn branch(&self, branch_id: &str, event_cursor: usize) -> (child: Simulation)
        requires
            branch_of(self@, branch_id@, event_cursor as int) is Ok,
        ensures
            branch_of(self@, branch_id@, event_cursor as int) == Ok::<SimulationView, Seq<char>>(child@),
    {
        match self.try_branch(branch_id, event_cursor) {
            Ok(child) => child,
            Err(_) => {
                proof {
                    assert(false);
                }
                Simulation::new()
            },
        }
    }

    /// Whether the world holds a person with id `id`.
    pub(crate) fn has_person(&self, id: PersonId) -> (r: bool)
        ensures
            r == (lookup(self@.world.people, id) is Some),
    {
        self.world.person(id).is_some()
    }

    /// Sets `from`'s relationship towards `to` as initial condition (no event).
    pub(crate) fn set_relationship(&mut self, from: PersonId, to: PersonId, state: crate::person::RelationshipState) -> (r: bool)
        ensures
            r == (lookup(old(self)@.world.people, from) is Some),
            final(self)@ == (SimulationView {
                world: crate::world::world_with_relationship(old(self)@.world, from, to, state@),
                ..old(self)@
            }),
    {
        self.world.set_relationship(from, to, state)
    }

    fn next_scheduled_index(&self, target: SimTime) -> (r: Option<usize>)
        ensures
            match r {
                Some(i) => next_due(self@.scheduled, target) == Some(i as int),
                None => next_due(self@.scheduled, target) is None,
            },
    {
        let ghost sched = self@.scheduled;
        let n = self.scheduled.len();
        let mut best: Option<usize> = None;
        for i in 0..n
            invariant
                sched == self@.scheduled,
                n == sched.len(),
                match next_due(sched.take(i as int), target) {
                    Some(j) => best == Some(j as usize) && 0 <= j < i,
                    None => best is None,
                },
        {
            let ev = &self.scheduled[i];
            assert(sched[i as int] == ev@);
            assert(sched.take(i + 1).drop_last() =~= sched.take(i as int));
            assert(sched.take(i + 1).last() == ev@);
            match best {
                None => {
                    if ev.timestamp.0 <= target.0 {
                        best = Some(i);
                    }
                },
                Some(b) => {
                    assert(sched.take(i as int)[b as int] == sched[b as int]);
                    assert(sched[b as int] == self.scheduled@[b as int]@);
                    if ev.timestamp.0 <= target.0 && ev.timestamp.0 < self.scheduled[b].timestamp.0 {
                        best = Some(i);
                    }
                },
            }
        }
        assert(sched.take(n as int) =~= sched);
        proof {
            if best is Some {
                assert(next_due(sched, target) is Some);
            }
        }
        best
    }

    /// Advances simulation time and executes every scheduled event at or before
    /// the target. Same-time events preserve insertion order.
    pub fn advance(&mut self, duration: Duration)
        requires
            old(self)@.world.time.0 + duration.0 <= u64::MAX,
            old(self)@.world.next_event_id + old(self)@.scheduled.len() <= u64::MAX,
            trace_len(old(self)@.run) + old(self)@.scheduled.len() <= u64::MAX,
        ensures
            final(self)@ == advanced(old(self)@, duration),
    {
        let ghost s0 = self@;
        let target = self.world.time_now() + duration;
        let mut next = self.next_scheduled_index(target);
        while next.is_some()
            invariant
                run_due(s0, target) == run_due(self@, target),
                self@.world.next_event_id + self@.scheduled.len() <= u64::MAX,
                trace_len(self@.run) + self@.scheduled.len() <= u64::MAX,
                match next {
                    Some(i) => next_due(self@.scheduled, target) == Some(i as int),
                    None => next_due(self@.scheduled, target) is None,
                },
            decreases self@.scheduled.len(),
        {
            let index = next.unwrap();
            let ghost cur = self@;
            proof {
                lemma_next_due_bounds(cur.scheduled, target);
            }
            let ev = self.scheduled.remove(index);
            assert(ev@ == cur.scheduled[index as int]);
            assert(views(self.scheduled@) =~= cur.scheduled.remove(index as int));
            self.world.set_time(ev.timestamp);
            let parents = self.world.latest_parent();
            let ghost s1 = self@;
            assert(s1 == SimulationView {
                scheduled: cur.scheduled.remove(index as int),
                world: WorldView { time: cur.scheduled[index as int].timestamp, ..cur.world },
                ..cur
            });
            self.record(ev.kind, ev.effects, ev.visibility, parents);
            proof {
                lemma_recorded_counts(s1, ev.kind@, views(ev.effects@), ev.visibility@, parents@);
            }
            next = self.next_scheduled_index(target);
        }
        self.world.set_time(target);
    }

    /// Adds a person and checkpoints: person creation is setup state, so
    /// replay begins with the populated world rather than an empty one.
    pub fn add_person(&mut self, person: Person)
        ensures
            final(self)@ == checkpointed(
                SimulationView {
                    world: WorldView {
                        people: store(old(self)@.world.people, person.id, person@),
                        ..old(self)@.world
                    },
                    ..old(self)@
                },
            ),
    {
        self.world.add_person(person);
        self.checkpoint();
    }

    pub fn enter_room(&mut self, person: PersonId, room: &str) -> (id: EventId)
        requires
            can_record(old(self)@),
        ensures
            id == EventId(old(self)@.world.next_event_id),
            final(self)@ == emitted(
                old(self)@,
                EventKindView::PersonEnteredRoom { person, room: room@ },
                seq![StateEffectView::PersonEnteredRoom { person, room: room@ }],
            ),
    {
        let mut effects: Vec<StateEffect> = Vec::new();
        effects.push(StateEffect::PersonEnteredRoom { person, room: room.to_owned() });
        assert(views(effects@) =~= seq![StateEffectView::PersonEnteredRoom { person, room: room@ }]);
        self.emit(EventKind::PersonEnteredRoom { person, room: room.to_owned() }, effects)
    }

    pub fn leave_room(&mut self, person: PersonId, room: &str) -> (id: EventId)
        requires
            can_record(old(self)@),
        ensures
            id == EventId(old(self)@.world.next_event_id),
            final(self)@ == emitted(
                old(self)@,
                EventKindView::PersonLeftRoom { person, room: room@ },
                seq![StateEffectView::PersonLeftRoom { person, room: room@ }],
            ),
    {
        let mut effects: Vec<StateEffect> = Vec::new();
        effects.push(StateEffect::PersonLeftRoom { person, room: room.to_owned() });
        assert(views(effects@) =~= seq![StateEffectView::PersonLeftRoom { person, room: room@ }]);
        self.emit(EventKind::PersonLeftRoom { person, room: room.to_owned() }, effects)
    }

    /// Sets a person's confidence in a proposition (clamped into `[0.0, 1.0]`),
    /// recording the previous confidence (`0.0` if none) in the effect.
    pub fn set_belief(&mut self, person: PersonId, proposition: &str, confidence: Binary32) -> (id: EventId)
        requires
            can_record(old(self)@),
        ensures
            id == EventId(old(self)@.world.next_event_id),
            final(self)@ == emitted(
                old(self)@,
                EventKindView::Custom {
                    description: person_id_debug(person) + " belief changed: "@ + proposition@,
                },
                seq![
                    StateEffectView::BeliefChanged {
                        person,
                        proposition: proposition@,
                        old_confidence: prior_confidence(old(self)@.world, person, proposition@),
                        new_confidence: Binary32 { bits: clamp_unit_bits(confidence.bits) },
                    },
                ],
            ),
    {
        let prop = proposition.to_owned();
        let old_confidence = match self.world.person(person) {
            Some(p) => match confidence_in(p, &prop) {
                Some(c) => c,
                None => Binary32::zero(),
            },
            None => Binary32::zero(),
        };
        let new_confidence = confidence.clamp_unit();
        let description = person_id_debug_string(person).concat(" belief changed: ").concat(proposition);
        let mut effects: Vec<StateEffect> = Vec::new();
        effects.push(
            StateEffect::BeliefChanged { person, proposition: prop, old_confidence, new_confidence },
        );
        assert(views(effects@) =~= seq![
            StateEffectView::BeliefChanged {
                person,
                proposition: proposition@,
                old_confidence: prior_confidence(self@.world, person, proposition@),
                new_confidence: Binary32 { bits: clamp_unit_bits(confidence.bits) },
            },
        ]);
        self.emit(EventKind::Custom { description }, effects)
    }

    /// Sets a person's affect, recording the previous valence and arousal.
    pub fn set_affect(&mut self, person: PersonId, valence: Binary32, arousal: Binary32) -> (id: EventId)
        requires
            can_record(old(self)@),
        ensures
            id == EventId(old(self)@.world.next_event_id),
            final(self)@ == emitted(
                old(self)@,
                EventKindView::AffectChanged { person },
                seq![
                    StateEffectView::AffectChanged {
                        person,
                        old_valence: prior_affect(old(self)@.world, person).0,
                        new_valence: valence,
                        old_arousal: prior_affect(old(self)@.world, person).1,
                        new_arousal: arousal,
                    },
                ],
            ),
    {
        let (old_valence, old_arousal) = match self.world.person(person) {
            Some(p) => (p.affect.valence, p.affect.arousal),
            None => (Binary32::zero(), Binary32::zero()),
        };
        let mut effects: Vec<StateEffect> = Vec::new();
        effects.push(
            StateEffect::AffectChanged {
                person,
                old_valence,
                new_valence: valence,
                old_arousal,
                new_arousal: arousal,
            },
        );
        assert(views(effects@) =~= seq![
            StateEffectView::AffectChanged {
                person,
                old_valence: prior_affect(self@.world, person).0,
                new_valence: valence,
                old_arousal: prior_affect(self@.world, person).1,
                new_arousal: arousal,
            },
        ]);
        self.emit(EventKind::AffectChanged { person }, effects)
    }

    pub fn promise_made(&mut self, from: PersonId, to: PersonId, content: &str) -> (id: EventId)
        requires
            can_record(old(self)@),
        ensures
            id == EventId(old(self)@.world.next_event_id),
            final(self)@ == emitted(
                old(self)@,
                EventKindView::PromiseMade { from, to, content: content@ },
                Seq::empty(),
            ),
    {
        let effects: Vec<StateEffect> = Vec::new();
        assert(views(effects@) =~= Seq::<StateEffectView>::empty());
        self.emit(EventKind::PromiseMade { from, to, content: content.to_owned() }, effects)
    }

    /// The psychological consequences of a broken promise are explicit
    /// effects, so replay does not call this domain method again: the promisee
    /// remembers it (salience `0.8`), and their trust in the promiser drops by
    /// `0.15` while conflict and uncertainty rise by `0.1`.
    pub fn promise_broken(&mut self, from: PersonId, to: PersonId, content: &str) -> (id: EventId)
        requires
            can_record(old(self)@),
        ensures
            id == EventId(old(self)@.world.next_event_id),
            final(self)@ == emitted(
                old(self)@,
                EventKindView::PromiseBroken { from, to, content: content@ },
                broken_promise_effects(from, to, old(self)@.world.time, content@),
            ),
    {
        let description = decimal_string(from.0).concat(" broke a promise: ").concat(content);
        let now = self.world.time_now();
        let mut effects: Vec<StateEffect> = Vec::new();
        effects.push(
            StateEffect::MemoryAdded {
                person: to,
                timestamp: now,
                description,
                salience: Binary32::from_bits(0x3F4C_CCCD),
            },
        );
        effects.push(
            StateEffect::RelationshipChanged {
                observer: to,
                target: from,
                trust_delta: Binary32::from_bits(0xBE19_999A),
                conflict_delta: Binary32::from_bits(0x3DCC_CCCD),
                uncertainty_delta: Binary32::from_bits(0x3DCC_CCCD),
            },
        );
        assert(views(effects@) =~= broken_promise_effects(from, to, self@.world.time, content@));
        self.emit(EventKind::PromiseBroken { from, to, content: content.to_owned() }, effects)
    }

    /// Schedules a semantic event without executing it.
    pub fn schedule_event(
        &mut self,
        timestamp: SimTime,
        kind: EventKind,
        effects: Vec<StateEffect>,
        visibility: Visibility,
    )
        requires
            timestamp.0 >= old(self)@.world.time.0,
        ensures
            final(self)@ == (SimulationView {
                scheduled: old(self)@.scheduled.push(
                    ScheduledView {
                        timestamp,
                        kind: kind@,
                        effects: views(effects@),
                        visibility: visibility@,
                    },
                ),
                ..old(self)@
            }),
    {
        let ghost pre = self@;
        let ev = ScheduledEvent { timestamp, kind, effects, visibility };
        self.scheduled.push(ev);
        assert(views(self.scheduled@) =~= pre.scheduled.push(ev@));
    }

    /// Draws deterministic randomness: the generator's next state.
    pub fn random_u64(&mut self) -> (v: u64)
        ensures
            v == lcg_next(old(self)@.rng_state),
            final(self)@ == (SimulationView { rng_state: v, ..old(self)@ }),
    {
        self.rng.next_u64()
    }
}

impl Default for Simulation {
    fn default() -> (s: Self)
        ensures
            s@ == seeded_simulation(0),
    {
        Simulation::new()
    }
}

} // verus!
