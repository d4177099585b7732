//! Persistent run history, snapshots, replay, and counterfactual branches.
//!
//! A `Simulation` is the thing that evolves. A `Run` is the historical record of
//! that evolution: events, the observations agents received, the actions they
//! took, and snapshots from which state can be reconstructed.

use vstd::prelude::*;
use vstd::string::*;
use crate::agent::{Action, ActionView, Observation, ObservationView};
use crate::duplicate::{copy_vec, views, Duplicate};
use crate::event::{Event, EventView};
use crate::ids::{EventId, PersonId};
use crate::time::SimTime;
use crate::world::{world_after_effects, world_after_replay, WorldState, WorldView};

verus! {

#[derive(Debug, PartialEq)]
pub struct Snapshot {
    pub time: SimTime,
    /// Cursors are more precise than timestamps: two events may happen at the
    /// same simulated second, but they still have a definite order.
    pub event_cursor: usize,
    pub observation_cursor: usize,
    pub action_cursor: usize,
    /// The state of the simulation's random generator when the snapshot was taken.
    pub rng_state: u64,
    pub world: WorldState,
}

#[derive(Debug, PartialEq)]
pub struct BranchInfo {
    pub branch_id: String,
    pub parent_branch_id: Option<String>,
    pub fork_event: Option<EventId>,
    pub fork_time: Option<SimTime>,
}

/// An observation delivered to an agent, as recorded in the run.
#[derive(Debug, PartialEq)]
pub struct ObservationRecord {
    pub trace_sequence: u64,
    pub timestamp: SimTime,
    pub observer: PersonId,
    pub observation: Observation,
    pub source_events: Vec<EventId>,
}

/// An action taken by an agent, as recorded in the run.
#[derive(Debug, PartialEq)]
pub struct ActionRecord {
    pub trace_sequence: u64,
    pub timestamp: SimTime,
    pub actor: PersonId,
    pub action: Action,
    pub source_events: Vec<EventId>,
    pub resulting_event: Option<EventId>,
}

/// One entry of a run's unified timeline.
#[derive(Debug, PartialEq)]
pub enum TraceEntry {
    Event(Event),
    Observation(ObservationRecord),
    Action(ActionRecord),
}

/// A violated run invariant.
#[derive(Debug, PartialEq, Eq)]
pub enum RunError {
    /// The records' trace sequences do not form one gap-free order.
    TraceOutOfOrder,
    /// A snapshot's cursor points past the recorded history.
    SnapshotOutOfRange,
    /// An event names a causal parent that is not recorded before it.
    UnknownCausalParent,
}

#[derive(Debug, PartialEq)]
pub struct Run {
    pub seed: u64,
    pub branch: BranchInfo,
    pub events: Vec<Event>,
    pub observations: Vec<ObservationRecord>,
    pub actions: Vec<ActionRecord>,
    pub snapshots: Vec<Snapshot>,
}

#[verifier::ext_equal]
pub struct SnapshotView {
    pub time: SimTime,
    pub event_cursor: usize,
    pub observation_cursor: usize,
    pub action_cursor: usize,
    pub rng_state: u64,
    pub world: WorldView,
}

pub struct BranchView {
    pub branch_id: Seq<char>,
    pub parent_branch_id: Option<Seq<char>>,
    pub fork_event: Option<EventId>,
    pub fork_time: Option<SimTime>,
}

pub struct ObservationRecordView {
    pub trace_sequence: u64,
    pub timestamp: SimTime,
    pub observer: PersonId,
    pub observation: ObservationView,
    pub source_events: Seq<EventId>,
}

pub struct ActionRecordView {
    pub trace_sequence: u64,
    pub timestamp: SimTime,
    pub actor: PersonId,
    pub action: ActionView,
    pub source_events: Seq<EventId>,
    pub resulting_event: Option<EventId>,
}

pub enum TraceEntryView {
    Event(EventView),
    Observation(ObservationRecordView),
    Action(ActionRecordView),
}

#[verifier::ext_equal]
pub struct RunView {
    pub seed: u64,
    pub branch: BranchView,
    pub events: Seq<EventView>,
    pub observations: Seq<ObservationRecordView>,
    pub actions: Seq<ActionRecordView>,
    pub snapshots: Seq<SnapshotView>,
}

impl View for Snapshot {
    type V = SnapshotView;

    open spec fn view(&self) -> SnapshotView {
        SnapshotView {
            time: self.time,
            event_cursor: self.event_cursor,
            observation_cursor: self.observation_cursor,
            action_cursor: self.action_cursor,
            rng_state: self.rng_state,
            world: self.world@,
        }
    }
}

pub open spec fn opt_text(s: Option<String>) -> Option<Seq<char>> {
    match s {
        Some(t) => Some(t@),
        None => None,
    }
}

impl View for BranchInfo {
    type V = BranchView;

    open spec fn view(&self) -> BranchView {
        BranchView {
            branch_id: self.branch_id@,
            parent_branch_id: opt_text(self.parent_branch_id),
            fork_event: self.fork_event,
            fork_time: self.fork_time,
        }
    }
}

impl View for ObservationRecord {
    type V = ObservationRecordView;

    open spec fn view(&self) -> ObservationRecordView {
        ObservationRecordView {
            trace_sequence: self.trace_sequence,
            timestamp: self.timestamp,
            observer: self.observer,
            observation: self.observation@,
            source_events: self.source_events@,
        }
    }
}

impl View for ActionRecord {
    type V = ActionRecordView;

    open spec fn view(&self) -> ActionRecordView {
        ActionRecordView {
            trace_sequence: self.trace_sequence,
            timestamp: self.timestamp,
            actor: self.actor,
            action: self.action@,
            source_events: self.source_events@,
            resulting_event: self.resulting_event,
        }
    }
}

impl View for TraceEntry {
    type V = TraceEntryView;

    open spec fn view(&self) -> TraceEntryView {
        match *self {
            TraceEntry::Event(e) => TraceEntryView::Event(e@),
            TraceEntry::Observation(o) => TraceEntryView::Observation(o@),
            TraceEntry::Action(a) => TraceEntryView::Action(a@),
        }
    }
}

impl View for Run {
    type V = RunView;

    open spec fn view(&self) -> RunView {
        RunView {
            seed: self.seed,
            branch: self.branch@,
            events: views(self.events@),
            observations: views(self.observations@),
            actions: views(self.actions@),
            snapshots: views(self.snapshots@),
        }
    }
}

impl Duplicate for Snapshot {
    fn duplicate(&self) -> (r: Self) {
        Snapshot {
            time: self.time,
            event_cursor: self.event_cursor,
            observation_cursor: self.observation_cursor,
            action_cursor: self.action_cursor,
            rng_state: self.rng_state,
            world: self.world.duplicate(),
        }
    }
}

impl Duplicate for ObservationRecord {
    fn duplicate(&self) -> (r: Self) {
        ObservationRecord {
            trace_sequence: self.trace_sequence,
            timestamp: self.timestamp,
            observer: self.observer,
            observation: self.observation.clone(),
            source_events: copy_vec(&self.source_events),
        }
    }
}

impl Duplicate for ActionRecord {
    fn duplicate(&self) -> (r: Self) {
        ActionRecord {
            trace_sequence: self.trace_sequence,
            timestamp: self.timestamp,
            actor: self.actor,
            action: self.action.clone(),
            source_events: copy_vec(&self.source_events),
            resulting_event: self.resulting_event,
        }
    }
}

impl Clone for Snapshot {
    fn clone(&self) -> (r: Self)
        ensures
            r@ == self@,
    {
        self.duplicate()
    }
}

impl Clone for ObservationRecord {
    fn clone(&self) -> (r: Self)
        ensures
            r@ == self@,
    {
        self.duplicate()
    }
}

impl Clone for ActionRecord {
    fn clone(&self) -> (r: Self)
        ensures
            r@ == self@,
    {
        self.duplicate()
    }
}

/// The trace sequence of an entry.
pub open spec fn entry_sequence(t: TraceEntryView) -> u64 {
    match t {
        TraceEntryView::Event(e) => e.trace_sequence,
        TraceEntryView::Observation(o) => o.trace_sequence,
        TraceEntryView::Action(a) => a.trace_sequence,
    }
}

/// The simulation time of an entry.
pub open spec fn entry_time(t: TraceEntryView) -> SimTime {
    match t {
        TraceEntryView::Event(e) => e.timestamp,
        TraceEntryView::Observation(o) => o.timestamp,
        TraceEntryView::Action(a) => a.timestamp,
    }
}

impl TraceEntry {
    pub fn timestamp(&self) -> (t: SimTime)
        ensures
            t == entry_time(self@),
    {
        match self {
            TraceEntry::Event(e) => e.timestamp,
            TraceEntry::Observation(o) => o.timestamp,
            TraceEntry::Action(a) => a.timestamp,
        }
    }

    pub fn trace_sequence(&self) -> (s: u64)
        ensures
            s == entry_sequence(self@),
    {
        match self {
            TraceEntry::Event(e) => e.trace_sequence,
            TraceEntry::Observation(o) => o.trace_sequence,
            TraceEntry::Action(a) => a.trace_sequence,
        }
    }
}

/// The number of records in a run; it is also the trace sequence the next
/// record receives.
pub open spec fn trace_len(r: RunView) -> nat {
    r.events.len() + r.observations.len() + r.actions.len()
}

/// A fresh branch with no parent and no fork point.
pub open spec fn root_branch(branch_id: Seq<char>) -> BranchView {
    BranchView { branch_id, parent_branch_id: None, fork_event: None, fork_time: None }
}

impl Run {
    pub fn new(branch_id: &str) -> (r: Run)
        ensures
            r@ == (RunView {
                seed: 0,
                branch: root_branch(branch_id@),
                events: Seq::empty(),
                observations: Seq::empty(),
                actions: Seq::empty(),
                snapshots: Seq::empty(),
            }),
    {
        let r = Run {
            seed: 0,
            branch: BranchInfo {
                branch_id: branch_id.to_owned(),
                parent_branch_id: None,
                fork_event: None,
                fork_time: None,
            },
            events: Vec::new(),
            observations: Vec::new(),
            actions: Vec::new(),
            snapshots: Vec::new(),
        };
        assert(views(r.events@) =~= Seq::<EventView>::empty());
        assert(views(r.observations@) =~= Seq::<ObservationRecordView>::empty());
        assert(views(r.actions@) =~= Seq::<ActionRecordView>::empty());
        assert(views(r.snapshots@) =~= Seq::<SnapshotView>::empty());
        r
    }

    fn next_trace_sequence(&self) -> (s: u64)
        requires
            trace_len(self@) <= u64::MAX,
        ensures
            s == trace_len(self@),
    {
        self.events.len() as u64 + self.observations.len() as u64 + self.actions.len() as u64
    }

    /// Appends an event, giving it the next trace sequence.
    pub fn record_event(&mut self, event: Event)
        requires
            trace_len(old(self)@) <= u64::MAX,
        ensures
            final(self)@ == (RunView {
                events: old(self)@.events.push(
                    EventView { trace_sequence: trace_len(old(self)@) as u64, ..event@ },
                ),
                ..old(self)@
            }),
    {
        let ghost pre = self@;
        let mut event = event;
        event.trace_sequence = self.next_trace_sequence();
        self.events.push(event);
        assert(self@ =~= (RunView {
            events: pre.events.push(EventView { trace_sequence: trace_len(pre) as u64, ..event@ }),
            ..pre
        }));
    }

    /// Appends an observation delivered to `observer`, giving it the next trace sequence.
    pub fn record_observation(
        &mut self,
        timestamp: SimTime,
        observer: PersonId,
        observation: Observation,
        source_events: Vec<EventId>,
    )
        requires
            trace_len(old(self)@) <= u64::MAX,
        ensures
            final(self)@ == (RunView {
                observations: old(self)@.observations.push(
                    ObservationRecordView {
                        trace_sequence: trace_len(old(self)@) as u64,
                        timestamp,
                        observer,
                        observation: observation@,
                        source_events: source_events@,
                    },
                ),
                ..old(self)@
            }),
    {
        let ghost pre = self@;
        let trace_sequence = self.next_trace_sequence();
        self.observations.push(
            ObservationRecord { trace_sequence, timestamp, observer, observation, source_events },
        );
        assert(self@ =~= (RunView {
            observations: pre.observations.push(
                ObservationRecordView {
                    trace_sequence: trace_len(pre) as u64,
                    timestamp,
                    observer,
                    observation: observation@,
                    source_events: source_events@,
                },
            ),
            ..pre
        }));
    }

    /// Appends an action taken by `actor`, giving it the next trace sequence.
    pub fn record_action(
        &mut self,
        timestamp: SimTime,
        actor: PersonId,
        action: Action,
        source_events: Vec<EventId>,
        resulting_event: Option<EventId>,
    )
        requires
            trace_len(old(self)@) <= u64::MAX,
        ensures
            final(self)@ == (RunView {
                actions: old(self)@.actions.push(
                    ActionRecordView {
                        trace_sequence: trace_len(old(self)@) as u64,
                        timestamp,
                        actor,
                        action: action@,
                        source_events: source_events@,
                        resulting_event,
                    },
                ),
                ..old(self)@
            }),
    {
        let ghost pre = self@;
        let trace_sequence = self.next_trace_sequence();
        self.actions.push(
            ActionRecord { trace_sequence, timestamp, actor, action, source_events, resulting_event },
        );
        assert(self@ =~= (RunView {
            actions: pre.actions.push(
                ActionRecordView {
                    trace_sequence: trace_len(pre) as u64,
                    timestamp,
                    actor,
                    action: action@,
                    source_events: source_events@,
                    resulting_event,
                },
            ),
            ..pre
        }));
    }

    /// Records a snapshot of `world` at the current cursors.
    pub fn capture(&mut self, world: &WorldState, rng_state: u64)
        ensures
            final(self)@ == (RunView {
                snapshots: old(self)@.snapshots.push(
                    SnapshotView {
                        time: world@.time,
                        event_cursor: old(self)@.events.len() as usize,
                        observation_cursor: old(self)@.observations.len() as usize,
                        action_cursor: old(self)@.actions.len() as usize,
                        rng_state,
                        world: world@,
                    },
                ),
                ..old(self)@
            }),
    {
        let ghost pre = self@;
        let s = Snapshot {
            time: world.time_now(),
            event_cursor: self.events.len(),
            observation_cursor: self.observations.len(),
            action_cursor: self.actions.len(),
            rng_state,
            world: world.duplicate(),
        };
        self.snapshots.push(s);
        assert(self@ =~= (RunView {
            snapshots: pre.snapshots.push(
                SnapshotView {
                    time: world@.time,
                    event_cursor: pre.events.len() as usize,
                    observation_cursor: pre.observations.len() as usize,
                    action_cursor: pre.actions.len() as usize,
                    rng_state,
                    world: world@,
                },
            ),
            ..pre
        }));
    }
}

/// Among the snapshots satisfying `eligible`, the position of one with the
/// greatest event cursor; the latest such snapshot when several tie.
pub open spec fn base_snapshot(snaps: Seq<SnapshotView>, eligible: spec_fn(SnapshotView) -> bool) -> Option<int>
    decreases snaps.len(),
{
    if snaps.len() == 0 {
        None
    } else {
        let prev = base_snapshot(snaps.drop_last(), eligible);
        let last = snaps.last();
        if eligible(last) && match prev {
            None => true,
            Some(i) => last.event_cursor >= snaps[i].event_cursor,
        } {
            Some(snaps.len() - 1)
        } else {
            prev
        }
    }
}

/// Snapshots taken at or before time `t`.
pub open spec fn taken_by(t: SimTime) -> spec_fn(SnapshotView) -> bool {
    |s: SnapshotView| s.time.0 <= t.0
}

/// Snapshots whose event cursor is at or before `cursor`.
pub open spec fn taken_before_cursor(cursor: int) -> spec_fn(SnapshotView) -> bool {
    |s: SnapshotView| s.event_cursor <= cursor
}

/// The snapshots a reconstruction may start from: by time, or by cursor.
pub open spec fn eligibility(by_time: bool, t: SimTime, cursor: int) -> spec_fn(SnapshotView) -> bool {
    if by_time {
        taken_by(t)
    } else {
        taken_before_cursor(cursor)
    }
}

/// Applies the recorded effects of `es` in order to `w`, stopping at the first
/// event later than `t`. Only the effects are applied: the world's event list,
/// id counter and clock stay as they were.
pub open spec fn replay_until(w: WorldView, es: Seq<EventView>, t: SimTime) -> WorldView
    decreases es.len(),
{
    if es.len() == 0 || es[0].timestamp.0 > t.0 {
        w
    } else {
        replay_until(world_after_effects(w, es[0].effects), es.drop_first(), t)
    }
}

/// Replays all of `es` in order on `w`.
pub open spec fn replay_all(w: WorldView, es: Seq<EventView>) -> WorldView
    decreases es.len(),
{
    if es.len() == 0 {
        w
    } else {
        replay_all(world_after_replay(w, es[0]), es.drop_first())
    }
}

/// The world at time `t` as reconstructed from the run: the snapshot's world of
/// the latest suitable snapshot taken at or before `t`, with the effects of the
/// recorded events after its cursor applied up to the first event later than
/// `t`, and the clock set to `t`.
pub open spec fn replayed_at(r: RunView, t: SimTime) -> Option<WorldView> {
    match base_snapshot(r.snapshots, taken_by(t)) {
        None => None,
        Some(i) => {
            let s = r.snapshots[i];
            let start = if s.event_cursor <= r.events.len() { s.event_cursor as int } else { r.events.len() as int };
            Some(WorldView { time: t, ..replay_until(s.world, r.events.skip(start), t) })
        },
    }
}

/// The world right after the first `cursor` events (at most all of them), as
/// reconstructed from the latest snapshot at or before that cursor.
pub open spec fn replayed_through(r: RunView, cursor: int) -> Option<WorldView> {
    let c = if cursor <= r.events.len() { cursor } else { r.events.len() as int };
    match base_snapshot(r.snapshots, taken_before_cursor(c)) {
        None => None,
        Some(i) => {
            let s = r.snapshots[i];
            Some(replay_all(s.world, r.events.subrange(s.event_cursor as int, c)))
        },
    }
}

pub proof fn lemma_base_snapshot_bounds(snaps: Seq<SnapshotView>, eligible: spec_fn(SnapshotView) -> bool)
    ensures
        match base_snapshot(snaps, eligible) {
            Some(i) => 0 <= i < snaps.len() && eligible(snaps[i]),
            None => forall|j: int| 0 <= j < snaps.len() ==> !eligible(#[trigger] snaps[j]),
        },
    decreases snaps.len(),
{
    if snaps.len() > 0 {
        let p = snaps.drop_last();
        lemma_base_snapshot_bounds(p, eligible);
        assert forall|j: int| 0 <= j < p.len() implies p[j] == snaps[j] by {}
    }
}

/// The position of the first event with id `id`.
pub open spec fn event_index(es: Seq<EventView>, id: EventId) -> Option<int>
    decreases es.len(),
{
    if es.len() == 0 {
        None
    } else {
        match event_index(es.drop_last(), id) {
            Some(i) => Some(i),
            None => if es.last().id == id {
                Some(es.len() - 1)
            } else {
                None
            },
        }
    }
}

pub proof fn lemma_event_index(es: Seq<EventView>, id: EventId)
    ensures
        match event_index(es, id) {
            Some(i) => 0 <= i < es.len() && es[i].id == id && forall|j: int|
                0 <= j < i ==> es[j].id != id,
            None => forall|j: int| 0 <= j < es.len() ==> es[j].id != id,
        },
    decreases es.len(),
{
    if es.len() > 0 {
        let p = es.drop_last();
        lemma_event_index(p, id);
        assert forall|j: int| 0 <= j < p.len() implies p[j] == es[j] by {}
    }
}

proof fn lemma_event_index_unique(es: Seq<EventView>, id: EventId, i: int)
    requires
        0 <= i < es.len(),
        es[i].id == id,
        forall|j: int| 0 <= j < i ==> es[j].id != id,
    ensures
        event_index(es, id) == Some(i),
{
    lemma_event_index(es, id);
}

/// Following first causal parents from the event with id `id` reaches, within
/// `fuel` steps, an event without parents or an id that is not recorded.
pub open spec fn walk_ends(es: Seq<EventView>, id: EventId, fuel: nat) -> bool
    decreases fuel,
{
    match event_index(es, id) {
        None => true,
        Some(i) => fuel > 0 && (es[i].causal_parents.len() == 0 || walk_ends(
            es,
            es[i].causal_parents[0],
            (fuel - 1) as nat,
        )),
    }
}

/// The events met following first causal parents from the event with id `id`
/// (taking at most `fuel` of them), oldest first, ending with that event.
pub open spec fn walk(es: Seq<EventView>, id: EventId, fuel: nat) -> Seq<EventView>
    decreases fuel,
{
    if fuel == 0 {
        Seq::empty()
    } else {
        match event_index(es, id) {
            None => Seq::empty(),
            Some(i) => if es[i].causal_parents.len() > 0 {
                walk(es, es[i].causal_parents[0], (fuel - 1) as nat).push(es[i])
            } else {
                seq![es[i]]
            },
        }
    }
}

/// Following first parents from `id` ends: no cycle is met on the way. (A walk
/// that ends meets each event at most once, so it ends within as many steps as
/// there are events.)
pub open spec fn chain_ends(es: Seq<EventView>, id: EventId) -> bool {
    walk_ends(es, id, es.len())
}

/// The causal chain of the event with id `id`: its ancestry along first
/// parents, oldest first, ending with it; empty when there is no such event.
pub open spec fn causal_chain_of(es: Seq<EventView>, id: EventId) -> Seq<EventView> {
    walk(es, id, es.len())
}

proof fn lemma_walk(es: Seq<EventView>, id: EventId, fuel: nat)
    requires
        walk_ends(es, id, fuel),
    ensures
        (walk(es, id, fuel).len() > 0) == (event_index(es, id) is Some),
        walk(es, id, fuel).len() > 0 ==> walk(es, id, fuel).last().id == id,
        forall|k: int|
            1 <= k < walk(es, id, fuel).len() ==> (#[trigger] walk(es, id, fuel)[k]).causal_parents.len() > 0
                && walk(es, id, fuel)[k].causal_parents[0] == walk(es, id, fuel)[k - 1].id,
        forall|k: int| 0 <= k < walk(es, id, fuel).len() ==> es.contains(#[trigger] walk(es, id, fuel)[k]),
        walk(es, id, fuel).len() > 0 ==> walk(es, id, fuel)[0].causal_parents.len() == 0 || event_index(
            es,
            walk(es, id, fuel)[0].causal_parents[0],
        ) is None,
    decreases fuel,
{
    lemma_event_index(es, id);
    match event_index(es, id) {
        None => {},
        Some(i) => {
            if es[i].causal_parents.len() > 0 {
                let p = es[i].causal_parents[0];
                let fuel1 = (fuel - 1) as nat;
                lemma_walk(es, p, fuel1);
                let c = walk(es, p, fuel1);
                let d = c.push(es[i]);
                assert(walk(es, id, fuel) == d);
                lemma_event_index(es, p);
                assert forall|k: int| 1 <= k < d.len() implies (#[trigger] d[k]).causal_parents.len() > 0
                    && d[k].causal_parents[0] == d[k - 1].id by {
                    if k < c.len() {
                        assert(d[k] == c[k]);
                        assert(d[k - 1] == c[k - 1]);
                    } else {
                        assert(d[k - 1] == c.last());
                    }
                }
                assert forall|k: int| 0 <= k < d.len() implies es.contains(#[trigger] d[k]) by {
                    if k < c.len() {
                        assert(d[k] == c[k]);
                    } else {
                        assert(es[i] == d[k]);
                    }
                }
                if c.len() > 0 {
                    assert(d[0] == c[0]);
                }
            } else {
                assert(es.contains(es[i])) by {
                    assert(es[i] == es[i]);
                }
            }
        },
    }
}

/// The causal chain of an event runs along first parents and ends with the
/// event itself: each event's first causal parent is the event before it, the
/// first event's parent (if any) is not recorded, and every link is a recorded
/// event; it is empty exactly when no event has that id.
pub proof fn lemma_causal_chain_shape(es: Seq<EventView>, id: EventId)
    requires
        chain_ends(es, id),
    ensures
        (causal_chain_of(es, id).len() > 0) == (event_index(es, id) is Some),
        causal_chain_of(es, id).len() > 0 ==> causal_chain_of(es, id).last().id == id,
        forall|k: int|
            1 <= k < causal_chain_of(es, id).len() ==> (#[trigger] causal_chain_of(es, id)[k]).causal_parents.len()
                > 0 && causal_chain_of(es, id)[k].causal_parents[0] == causal_chain_of(es, id)[k - 1].id,
        forall|k: int| 0 <= k < causal_chain_of(es, id).len() ==> es.contains(#[trigger] causal_chain_of(es, id)[k]),
        causal_chain_of(es, id).len() > 0 ==> causal_chain_of(es, id)[0].causal_parents.len() == 0
            || event_index(es, causal_chain_of(es, id)[0].causal_parents[0]) is None,
{
    lemma_walk(es, id, es.len());
}

proof fn lemma_recorded_parents_walk_ends(es: Seq<EventView>, id: EventId, fuel: nat)
    requires
        parents_recorded(es),
        event_index(es, id) matches Some(i) ==> i < fuel,
    ensures
        walk_ends(es, id, fuel),
    decreases fuel,
{
    lemma_event_index(es, id);
    match event_index(es, id) {
        None => {},
        Some(i) => {
            if es[i].causal_parents.len() > 0 {
                let p = es[i].causal_parents[0];
                assert(match event_index(es, es[i].causal_parents[0]) {
                    Some(j) => j < i,
                    None => false,
                });
                lemma_recorded_parents_walk_ends(es, p, (fuel - 1) as nat);
            }
        },
    }
}

/// In a run whose causal parents are all recorded before their events (as
/// `validate` checks), following first parents always ends.
pub proof fn lemma_valid_chains_end(es: Seq<EventView>, id: EventId)
    requires
        parents_recorded(es),
    ensures
        chain_ends(es, id),
{
    lemma_event_index(es, id);
    lemma_recorded_parents_walk_ends(es, id, es.len());
}

/// The event cursor a branch forks at: `event_cursor`, at most the number of events.
pub open spec fn fork_cursor(r: RunView, event_cursor: int) -> int {
    if event_cursor <= r.events.len() {
        event_cursor
    } else {
        r.events.len() as int
    }
}

/// The trace sequence at which a branch forked at cursor `c` leaves its parent:
/// that of the first event it does not keep; none when it keeps every event.
pub open spec fn fork_boundary(r: RunView, c: int) -> Option<u64> {
    if c < r.events.len() {
        Some(r.events[c].trace_sequence)
    } else {
        None
    }
}

pub open spec fn before_boundary(b: Option<u64>, seq: u64) -> bool {
    match b {
        Some(x) => seq < x,
        None => true,
    }
}

pub open spec fn observed_before(b: Option<u64>) -> spec_fn(ObservationRecordView) -> bool {
    |o: ObservationRecordView| before_boundary(b, o.trace_sequence)
}

pub open spec fn acted_before(b: Option<u64>) -> spec_fn(ActionRecordView) -> bool {
    |a: ActionRecordView| before_boundary(b, a.trace_sequence)
}

pub open spec fn captured_by(c: int) -> spec_fn(SnapshotView) -> bool {
    |s: SnapshotView| s.event_cursor <= c
}

/// The history of a counterfactual branch named `branch_id` that forks from
/// `r` at an exact event cursor: the events before the cursor, the
/// observations and actions recorded before the first dropped event, and the
/// snapshots taken at or before the cursor.
pub open spec fn branched(r: RunView, branch_id: Seq<char>, event_cursor: int) -> RunView {
    let c = fork_cursor(r, event_cursor);
    let b = fork_boundary(r, c);
    RunView {
        seed: r.seed,
        branch: BranchView {
            branch_id,
            parent_branch_id: Some(r.branch.branch_id),
            fork_event: if c > 0 {
                Some(r.events[c - 1].id)
            } else {
                None
            },
            fork_time: if c > 0 {
                Some(r.events[c - 1].timestamp)
            } else {
                None
            },
        },
        events: r.events.take(c),
        observations: r.observations.filter(observed_before(b)),
        actions: r.actions.filter(acted_before(b)),
        snapshots: r.snapshots.filter(captured_by(c)),
    }
}

/// Filtering one more element of a prefix.
pub proof fn lemma_filter_take_step<A>(s: Seq<A>, i: int, p: spec_fn(A) -> bool)
    requires
        0 <= i < s.len(),
    ensures
        s.take(i + 1).filter(p) == if p(s[i]) {
            s.take(i).filter(p).push(s[i])
        } else {
            s.take(i).filter(p)
        },
{
    reveal(Seq::filter);
    assert(s.take(i + 1).drop_last() =~= s.take(i));
    assert(s.take(i + 1).last() == s[i]);
}

/// Events, observations and actions merged into one list ordered by trace
/// sequence; on equal sequences an event comes first, then an observation.
pub open spec fn merged(
    es: Seq<EventView>,
    os: Seq<ObservationRecordView>,
    acts: Seq<ActionRecordView>,
) -> Seq<TraceEntryView>
    decreases es.len() + os.len() + acts.len(),
{
    if es.len() > 0 && (os.len() == 0 || es[0].trace_sequence <= os[0].trace_sequence) && (
    acts.len() == 0 || es[0].trace_sequence <= acts[0].trace_sequence) {
        seq![TraceEntryView::Event(es[0])] + merged(es.drop_first(), os, acts)
    } else if os.len() > 0 && (acts.len() == 0 || os[0].trace_sequence <= acts[0].trace_sequence) {
        seq![TraceEntryView::Observation(os[0])] + merged(es, os.drop_first(), acts)
    } else if acts.len() > 0 {
        seq![TraceEntryView::Action(acts[0])] + merged(es, os, acts.drop_first())
    } else {
        Seq::empty()
    }
}

/// Every entry of the timeline carries its own position as trace sequence:
/// the records form one gap-free order.
pub open spec fn well_sequenced(r: RunView) -> bool {
    forall|k: int|
        0 <= k < timeline_of(r).len() ==> entry_sequence(#[trigger] timeline_of(r)[k]) == k
}

/// Every snapshot's cursors point into the recorded history.
pub open spec fn snapshots_within(r: RunView) -> bool {
    forall|i: int|
        0 <= i < r.snapshots.len() ==> {
            &&& (#[trigger] r.snapshots[i]).event_cursor <= r.events.len()
            &&& r.snapshots[i].observation_cursor <= r.observations.len()
            &&& r.snapshots[i].action_cursor <= r.actions.len()
        }
}

/// Every causal parent of an event names an event recorded before it.
pub open spec fn parents_recorded(es: Seq<EventView>) -> bool {
    forall|i: int, q: int|
        0 <= i < es.len() && 0 <= q < es[i].causal_parents.len() ==> match event_index(
            es,
            #[trigger] es[i].causal_parents[q],
        ) {
            Some(j) => j < i,
            None => false,
        }
}

/// The invariants a durable run must satisfy before export.
pub open spec fn valid_run(r: RunView) -> bool {
    &&& well_sequenced(r)
    &&& snapshots_within(r)
    &&& parents_recorded(r.events)
}

/// The run's unified timeline.
pub open spec fn timeline_of(r: RunView) -> Seq<TraceEntryView> {
    merged(r.events, r.observations, r.actions)
}

fn keeps(b: Option<u64>, seq: u64) -> (r: bool)
    ensures
        r == before_boundary(b, seq),
{
    match b {
        Some(x) => seq < x,
        None => true,
    }
}

impl Run {
    /// Checks the run invariants: the trace is one gap-free order, snapshot
    /// cursors point into the history, and causal parents precede their events.
    pub fn validate(&self) -> (res: Result<(), RunError>)
        ensures
            res is Ok <==> valid_run(self@),
            res == Err::<(), RunError>(RunError::TraceOutOfOrder) <==> !well_sequenced(self@),
            res == Err::<(), RunError>(RunError::SnapshotOutOfRange) <==> well_sequenced(self@)
                && !snapshots_within(self@),
            res == Err::<(), RunError>(RunError::UnknownCausalParent) <==> well_sequenced(self@)
                && snapshots_within(self@) && !parents_recorded(self@.events),
    {
        let ghost r = self@;
        let t = self.timeline();
        let m = t.len();
        for k in 0..m
            invariant
                r == self@,
                m == timeline_of(r).len(),
                views(t@) == timeline_of(r),
                forall|q: int| 0 <= q < k ==> entry_sequence(#[trigger] timeline_of(r)[q]) == q,
        {
            assert(t@[k as int]@ == timeline_of(r)[k as int]);
            if t[k].trace_sequence() != k as u64 {
                assert(entry_sequence(timeline_of(r)[k as int]) != k);
                return Err(RunError::TraceOutOfOrder);
            }
        }
        let ne = self.events.len();
        let no = self.observations.len();
        let na = self.actions.len();
        for i in 0..self.snapshots.len()
            invariant
                r == self@,
                well_sequenced(r),
                ne == r.events.len() && no == r.observations.len() && na == r.actions.len(),
                forall|q: int|
                    0 <= q < i ==> {
                        &&& (#[trigger] r.snapshots[q]).event_cursor <= r.events.len()
                        &&& r.snapshots[q].observation_cursor <= r.observations.len()
                        &&& r.snapshots[q].action_cursor <= r.actions.len()
                    },
        {
            let s = &self.snapshots[i];
            assert(r.snapshots[i as int] == s@);
            if s.event_cursor > ne || s.observation_cursor > no || s.action_cursor > na {
                return Err(RunError::SnapshotOutOfRange);
            }
        }
        for i in 0..ne
            invariant
                r == self@,
                ne == r.events.len(),
                well_sequenced(r),
                snapshots_within(r),
                forall|a: int, q: int|
                    0 <= a < i && 0 <= q < r.events[a].causal_parents.len() ==> match event_index(
                        r.events,
                        #[trigger] r.events[a].causal_parents[q],
                    ) {
                        Some(j) => j < a,
                        None => false,
                    },
        {
            let e = &self.events[i];
            assert(r.events[i as int] == e@);
            let np = e.causal_parents.len();
            for q in 0..np
                invariant
                    r == self@,
                    ne == r.events.len(),
                    i < ne,
                    well_sequenced(r),
                    snapshots_within(r),
                    e@ == r.events[i as int],
                    np == e@.causal_parents.len(),
                    forall|a: int, q2: int|
                        0 <= a < i && 0 <= q2 < r.events[a].causal_parents.len() ==> match event_index(
                            r.events,
                            #[trigger] r.events[a].causal_parents[q2],
                        ) {
                            Some(j) => j < a,
                            None => false,
                        },
                    forall|q2: int|
                        0 <= q2 < q ==> match event_index(r.events, #[trigger] e@.causal_parents[q2]) {
                            Some(j) => j < i,
                            None => false,
                        },
            {
                let ok = match self.event_position(e.causal_parents[q]) {
                    Some(j) => j < i,
                    None => false,
                };
                if !ok {
                    assert(!parents_recorded(r.events)) by {
                        assert(e@.causal_parents[q as int] == r.events[i as int].causal_parents[q as int]);
                    }
                    return Err(RunError::UnknownCausalParent);
                }
            }
        }
        Ok(())
    }

    /// Events, observations and actions in one chronological list, ordered by
    /// trace sequence.
    pub fn timeline(&self) -> (t: Vec<TraceEntry>)
        ensures
            views(t@) == timeline_of(self@),
    {
        let ghost r = self@;
        let ne = self.events.len();
        let no = self.observations.len();
        let na = self.actions.len();
        let mut t: Vec<TraceEntry> = Vec::new();
        let mut i: usize = 0;
        let mut j: usize = 0;
        let mut k: usize = 0;
        assert(r.events.skip(0) =~= r.events);
        assert(r.observations.skip(0) =~= r.observations);
        assert(r.actions.skip(0) =~= r.actions);
        while i < ne || j < no || k < na
            invariant
                r == self@,
                ne == r.events.len(),
                no == r.observations.len(),
                na == r.actions.len(),
                i <= ne,
                j <= no,
                k <= na,
                timeline_of(r) == views(t@) + merged(
                    r.events.skip(i as int),
                    r.observations.skip(j as int),
                    r.actions.skip(k as int),
                ),
            decreases (ne - i) + (no - j) + (na - k),
        {
            let ghost es = r.events.skip(i as int);
            let ghost os = r.observations.skip(j as int);
            let ghost acts = r.actions.skip(k as int);
            let take_event = i < ne && (j >= no || self.events[i].trace_sequence
                <= self.observations[j].trace_sequence) && (k >= na
                || self.events[i].trace_sequence <= self.actions[k].trace_sequence);
            let ghost before = t@;
            if take_event {
                let entry = TraceEntry::Event(self.events[i].duplicate());
                assert(es[0] == r.events[i as int]);
                assert(es.drop_first() =~= r.events.skip(i + 1));
                t.push(entry);
                assert(views(t@) =~= views(before).push(entry@));
                assert(views(t@) + merged(es.drop_first(), os, acts) =~= views(before) + (seq![
                    entry@,
                ] + merged(es.drop_first(), os, acts)));
                i = i + 1;
            } else if j < no && (k >= na || self.observations[j].trace_sequence
                <= self.actions[k].trace_sequence) {
                let entry = TraceEntry::Observation(self.observations[j].duplicate());
                assert(os[0] == r.observations[j as int]);
                assert(os.drop_first() =~= r.observations.skip(j + 1));
                t.push(entry);
                assert(views(t@) =~= views(before).push(entry@));
                assert(views(t@) + merged(es, os.drop_first(), acts) =~= views(before) + (seq![
                    entry@,
                ] + merged(es, os.drop_first(), acts)));
                j = j + 1;
            } else {
                let entry = TraceEntry::Action(self.actions[k].duplicate());
                assert(acts[0] == r.actions[k as int]);
                assert(acts.drop_first() =~= r.actions.skip(k + 1));
                t.push(entry);
                assert(views(t@) =~= views(before).push(entry@));
                assert(views(t@) + merged(es, os, acts.drop_first()) =~= views(before) + (seq![
                    entry@,
                ] + merged(es, os, acts.drop_first())));
                k = k + 1;
            }
        }
        assert(merged(
            r.events.skip(i as int),
            r.observations.skip(j as int),
            r.actions.skip(k as int),
        ) =~= Seq::<TraceEntryView>::empty());
        assert(views(t@) + Seq::<TraceEntryView>::empty() =~= views(t@));
        t
    }

    /// Forks a counterfactual branch at an exact event position, not merely a timestamp.
    pub fn branch(&self, branch_id: &str, event_cursor: usize) -> (child: Run)
        ensures
            child@ == branched(self@, branch_id@, event_cursor as int),
    {
        let ghost r = self@;
        let n = self.events.len();
        let cursor = if event_cursor <= n {
            event_cursor
        } else {
            n
        };
        let (fork_event, fork_time) = if cursor > 0 {
            (Some(self.events[cursor - 1].id), Some(self.events[cursor - 1].timestamp))
        } else {
            (None, None)
        };
        let boundary: Option<u64> = if cursor < n {
            Some(self.events[cursor].trace_sequence)
        } else {
            None
        };
        assert(boundary == fork_boundary(r, cursor as int));
        let mut events: Vec<Event> = Vec::new();
        for i in 0..cursor
            invariant
                cursor <= n == r.events.len(),
                r == self@,
                views(events@) == r.events.take(i as int),
        {
            let e = self.events[i].duplicate();
            let ghost before = events@;
            events.push(e);
            assert(views(events@) =~= views(before).push(e@));
            assert(r.events.take(i + 1) =~= r.events.take(i as int).push(r.events[i as int]));
        }
        let ghost bnd = boundary;
        let mut observations: Vec<ObservationRecord> = Vec::new();
        for i in 0..self.observations.len()
            invariant
                r == self@,
                bnd == boundary,
                views(observations@) == r.observations.take(i as int).filter(observed_before(bnd)),
        {
            let o = &self.observations[i];
            proof {
                lemma_filter_take_step(r.observations, i as int, observed_before(bnd));
            }
            assert(r.observations.take(i + 1).last() == o@);
            if keeps(boundary, o.trace_sequence) {
                let c = o.duplicate();
                let ghost before = observations@;
                observations.push(c);
                assert(views(observations@) =~= views(before).push(c@));
            }
        }
        assert(r.observations.take(r.observations.len() as int) =~= r.observations);
        let mut actions: Vec<ActionRecord> = Vec::new();
        for i in 0..self.actions.len()
            invariant
                r == self@,
                bnd == boundary,
                views(actions@) == r.actions.take(i as int).filter(acted_before(bnd)),
        {
            let a = &self.actions[i];
            proof {
                lemma_filter_take_step(r.actions, i as int, acted_before(bnd));
            }
            assert(r.actions.take(i + 1).last() == a@);
            if keeps(boundary, a.trace_sequence) {
                let c = a.duplicate();
                let ghost before = actions@;
                actions.push(c);
                assert(views(actions@) =~= views(before).push(c@));
            }
        }
        assert(r.actions.take(r.actions.len() as int) =~= r.actions);
        let mut snapshots: Vec<Snapshot> = Vec::new();
        for i in 0..self.snapshots.len()
            invariant
                r == self@,
                cursor <= n == r.events.len(),
                views(snapshots@) == r.snapshots.take(i as int).filter(captured_by(cursor as int)),
        {
            let s = &self.snapshots[i];
            proof {
                lemma_filter_take_step(r.snapshots, i as int, captured_by(cursor as int));
            }
            assert(r.snapshots.take(i + 1).last() == s@);
            if s.event_cursor <= cursor {
                let c = s.duplicate();
                let ghost before = snapshots@;
                snapshots.push(c);
                assert(views(snapshots@) =~= views(before).push(c@));
            }
        }
        assert(r.snapshots.take(r.snapshots.len() as int) =~= r.snapshots);
        let child = Run {
            seed: self.seed,
            branch: BranchInfo {
                branch_id: branch_id.to_owned(),
                parent_branch_id: Some(self.branch.branch_id.clone()),
                fork_event,
                fork_time,
            },
            events,
            observations,
            actions,
            snapshots,
        };
        assert(child@ =~= branched(r, branch_id@, event_cursor as int));
        child
    }

    fn event_position(&self, id: EventId) -> (r: Option<usize>)
        ensures
            match r {
                Some(i) => event_index(self@.events, id) == Some(i as int) && i < self@.events.len(),
                None => event_index(self@.events, id) is None,
            },
    {
        let n = self.events.len();
        let ghost es = self@.events;
        for i in 0..n
            invariant
                n == es.len(),
                es == self@.events,
                forall|j: int| 0 <= j < i ==> (#[trigger] es[j]).id != id,
        {
            assert(es[i as int] == self.events@[i as int]@);
            if self.events[i].id == id {
                proof {
                    lemma_event_index_unique(es, id, i as int);
                }
                return Some(i);
            }
        }
        proof {
            lemma_event_index(es, id);
            if event_index(es, id) is Some {
                let i = event_index(es, id)->0;
                assert(es[i].id == id);
            }
        }
        None
    }

    /// The first recorded event with id `id`.
    pub fn event(&self, id: EventId) -> (r: Option<&Event>)
        ensures
            match event_index(self@.events, id) {
                Some(i) => r matches Some(e) && e@ == self@.events[i],
                None => r is None,
            },
    {
        match self.event_position(id) {
            Some(i) => Some(&self.events[i]),
            None => None,
        }
    }

    /// The causal ancestry from the oldest parent to the selected event,
    /// following first parents until an event has none or names an
    /// unrecorded one. Defined when that walk ends (no cycle on the way).
    pub fn causal_chain(&self, id: EventId) -> (r: Vec<&Event>)
        requires
            chain_ends(self@.events, id),
        ensures
            views(r@) == causal_chain_of(self@.events, id),
    {
        let ghost es = self@.events;
        let mut newest_first: Vec<&Event> = Vec::new();
        let mut current = id;
        let mut fuel = self.events.len();
        loop
            invariant_except_break
                fuel <= es.len(),
                walk_ends(es, current, fuel as nat),
                causal_chain_of(es, id) == walk(es, current, fuel as nat) + views(newest_first@).reverse(),
            invariant
                es == self@.events,
            ensures
                causal_chain_of(es, id) == views(newest_first@).reverse(),
            decreases fuel,
        {
            let c = match self.event_position(current) {
                Some(c) => c,
                None => {
                    assert(walk(es, current, fuel as nat) =~= Seq::<EventView>::empty());
                    assert(causal_chain_of(es, id) =~= views(newest_first@).reverse());
                    break;
                },
            };
            let e = &self.events[c];
            assert(e@ == es[c as int]);
            let ghost old_rev = views(newest_first@).reverse();
            newest_first.push(e);
            proof {
                assert(views(newest_first@).reverse() =~= seq![es[c as int]] + old_rev);
            }
            if e.causal_parents.len() == 0 {
                assert(walk(es, current, fuel as nat) == seq![es[c as int]]);
                assert(causal_chain_of(es, id) =~= views(newest_first@).reverse());
                break;
            }
            let next = e.causal_parents[0];
            assert(walk(es, current, fuel as nat) == walk(es, next, (fuel - 1) as nat).push(es[c as int]));
            assert(walk(es, next, (fuel - 1) as nat).push(es[c as int]) + old_rev
                =~= walk(es, next, (fuel - 1) as nat) + views(newest_first@).reverse());
            current = next;
            fuel = fuel - 1;
        }
        let ghost chain = views(newest_first@).reverse();
        assert(causal_chain_of(es, id) =~= chain);
        let mut r: Vec<&Event> = Vec::new();
        let m = newest_first.len();
        for k in 0..m
            invariant
                m == newest_first@.len(),
                chain == views(newest_first@).reverse(),
                views(r@) == chain.take(k as int),
        {
            let e = newest_first[m - 1 - k];
            assert(chain[k as int] == views(newest_first@)[m - 1 - k]);
            assert(chain[k as int] == e@);
            let ghost before = r@;
            r.push(e);
            assert(r@ == before.push(e));
            assert(views(r@) =~= views(before).push(e@));
            assert(chain.take(k + 1) =~= chain.take(k as int).push(chain[k as int]));
            assert(views(r@) =~= chain.take(k + 1));
        }
        assert(chain.take(m as int) =~= chain);
        r
    }

    fn base_index(&self, by_time: bool, t: SimTime, cursor: usize) -> (r: Option<usize>)
        ensures
            match r {
                Some(b) => base_snapshot(self@.snapshots, eligibility(by_time, t, cursor as int))
                    == Some(b as int) && b < self.snapshots@.len(),
                None => base_snapshot(self@.snapshots, eligibility(by_time, t, cursor as int)) is None,
            },
    {
        let ghost eligible = eligibility(by_time, t, cursor as int);
        let n = self.snapshots.len();
        let mut best: Option<usize> = None;
        for i in 0..n
            invariant
                n == self.snapshots@.len(),
                eligible == eligibility(by_time, t, cursor as int),
                match base_snapshot(self@.snapshots.take(i as int), eligible) {
                    Some(j) => best == Some(j as usize) && 0 <= j < i,
                    None => best is None,
                },
        {
            let s = &self.snapshots[i];
            let ok = if by_time {
                s.time.0 <= t.0
            } else {
                s.event_cursor <= cursor
            };
            let ghost pre = self@.snapshots.take(i as int);
            assert(self@.snapshots.take(i + 1).drop_last() =~= pre);
            assert(self@.snapshots.take(i + 1).last() == s@);
            assert(ok == eligible(s@));
            match best {
                None => {
                    if ok {
                        best = Some(i);
                    }
                },
                Some(b) => {
                    assert(self@.snapshots.take(i as int)[b as int] == self@.snapshots[b as int]);
                    if ok && s.event_cursor >= self.snapshots[b].event_cursor {
                        best = Some(i);
                    }
                },
            }
        }
        assert(self@.snapshots.take(n as int) =~= self@.snapshots);
        proof {
            if best is Some {
                assert(base_snapshot(self@.snapshots, eligible) is Some);
            }
        }
        best
    }

    /// Reconstructs the world at simulation time `time`: start from the latest
    /// checkpoint at or before `time` and apply the recorded effects of the
    /// events after it, up to the first event later than `time`. The snapshot's
    /// event list and id counter are kept; only the clock is moved to `time`.
    pub fn replay_to(&self, time: SimTime) -> (r: Option<WorldState>)
        ensures
            match replayed_at(self@, time) {
                Some(w) => r matches Some(x) && x@ == w,
                None => r is None,
            },
    {
        let b = match self.base_index(true, time, 0) {
            Some(b) => b,
            None => {
                return None;
            },
        };
        let ghost es = self@.events;
        let snap = &self.snapshots[b];
        assert(self@.snapshots[b as int] == snap@);
        let mut world = snap.world.duplicate();
        let n = self.events.len();
        assert(es.len() == n);
        let start = if snap.event_cursor <= n {
            snap.event_cursor
        } else {
            n
        };
        let ghost w0 = snap.world@;
        let mut i = start;
        while i < n && self.events[i].timestamp.0 <= time.0
            invariant
                n == es.len(),
                es == self@.events,
                start <= i <= n,
                replay_until(w0, es.skip(start as int), time) == replay_until(world@, es.skip(i as int), time),
            decreases n - i,
        {
            assert(es.skip(i as int).drop_first() =~= es.skip(i + 1));
            assert(es.skip(i as int)[0] == self.events@[i as int]@);
            world.apply_effects(&self.events[i].effects);
            i = i + 1;
        }
        proof {
            if i < n {
                assert(es.skip(i as int)[0] == es[i as int]);
            } else {
                assert(es.skip(i as int).len() == 0);
            }
            assert(replay_until(world@, es.skip(i as int), time) == world@);
        }
        world.set_time(time);
        assert(eligibility(true, time, 0) == taken_by(time));

        assert(world@ == WorldView { time: time, ..replay_until(w0, es.skip(start as int), time) });
        Some(world)
    }

    /// Reconstructs the world at simulation time `time` (the same as `replay_to`).
    pub fn at(&self, time: SimTime) -> (r: Option<WorldState>)
        ensures
            match replayed_at(self@, time) {
                Some(w) => r matches Some(x) && x@ == w,
                None => r is None,
            },
    {
        self.replay_to(time)
    }

    /// Reconstructs the world right after the first `event_cursor` events (at
    /// most all recorded events), from the latest checkpoint at or before that
    /// cursor.
    pub fn replay_to_cursor(&self, event_cursor: usize) -> (r: Option<WorldState>)
        ensures
            match replayed_through(self@, event_cursor as int) {
                Some(w) => r matches Some(x) && x@ == w,
                None => r is None,
            },
    {
        let n = self.events.len();
        let c = if event_cursor <= n {
            event_cursor
        } else {
            n
        };
        let b = match self.base_index(false, SimTime(0), c) {
            Some(b) => b,
            None => {
                return None;
            },
        };
        let ghost es = self@.events;
        let snap = &self.snapshots[b];
        assert(self@.snapshots[b as int] == snap@);
        assert(es.len() == n);
        proof {
            lemma_base_snapshot_bounds(self@.snapshots, eligibility(false, SimTime(0), c as int));
            assert(eligibility(false, SimTime(0), c as int)(self@.snapshots[b as int]));
            assert(snap@.event_cursor <= c);
        }
        let mut world = snap.world.duplicate();
        let start = snap.event_cursor;
        let ghost w0 = snap.world@;
        let mut i = start;
        while i < c
            invariant
                n == es.len(),
                es == self@.events,
                start <= i <= c <= n,
                replay_all(w0, es.subrange(start as int, c as int)) == replay_all(world@, es.subrange(i as int, c as int)),
            decreases c - i,
        {
            assert(es.subrange(i as int, c as int).drop_first() =~= es.subrange(i + 1, c as int));
            assert(es.subrange(i as int, c as int)[0] == self.events@[i as int]@);
            world.replay_event(&self.events[i]);
            i = i + 1;
        }
        assert(es.subrange(c as int, c as int) =~= Seq::<EventView>::empty());
        assert(eligibility(false, SimTime(0), c as int) == taken_before_cursor(c as int));
        Some(world)
    }
}

} // verus!
