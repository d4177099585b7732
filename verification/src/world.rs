//! Authoritative world state and the single replayable mutation boundary.

use vstd::prelude::*;
use std::collections::HashMap;
use crate::agent::{Action, ActionView};
use crate::binary32::{binary32_sum, clamp_unit_bits, Binary32};
use crate::duplicate::{duplicate_vec, views, Duplicate};
use crate::effect::{StateEffect, StateEffectView};
use crate::event::{
    person_id_debug, person_id_debug_string, Event, EventKind, EventKindView, EventView, Visibility,
    VisibilityView,
};
use crate::ids::{EventId, PersonId};
use crate::person::{
    Belief, BeliefView, MemoryView, Person, PersonView, RelationshipState, RelationshipView,
};
use crate::person_map::{lookup, store, PersonMap};
use crate::time::SimTime;

verus! {

#[derive(Debug, PartialEq)]
pub struct Location {
    pub name: String,
}

impl Clone for Location {
    fn clone(&self) -> (r: Self)
        ensures
            r == *self,
    {
        Location { name: self.name.clone() }
    }
}

#[derive(Debug, PartialEq)]
pub struct WorldState {
    pub time: SimTime,
    pub people: PersonMap<Person>,
    pub locations: HashMap<String, Location>,
    pub events: Vec<Event>,
    next_event_id: u64,
}

#[derive(Debug, PartialEq, Eq)]
pub enum WorldError {
    UnknownPerson(PersonId),
}

/// The mathematical value of a `WorldState`.
#[verifier::ext_equal]
pub struct WorldView {
    pub time: SimTime,
    pub people: Seq<(PersonId, PersonView)>,
    pub locations: Map<String, Location>,
    pub events: Seq<EventView>,
    pub next_event_id: u64,
}

impl WorldState {
    /// The id the next emitted event receives.
    pub closed spec fn next_id(&self) -> u64 {
        self.next_event_id
    }
}

impl View for WorldState {
    type V = WorldView;

    closed spec fn view(&self) -> WorldView {
        WorldView {
            time: self.time,
            people: self.people@,
            locations: self.locations@,
            events: views(self.events@),
            next_event_id: self.next_id(),
        }
    }
}


impl WorldError {
    /// The error's message: `person PersonId(<n>) does not exist`.
    pub fn message(&self) -> (s: String)
        ensures
            match self {
                WorldError::UnknownPerson(id) => s@ == "person "@ + person_id_debug(*id)
                    + " does not exist"@,
            },
    {
        match self {
            WorldError::UnknownPerson(id) => String::from_str("person ").concat(
                person_id_debug_string(*id).as_str(),
            ).concat(" does not exist"),
        }
    }
}

/// The person an effect changes.
pub open spec fn effect_subject(e: StateEffectView) -> PersonId {
    match e {
        StateEffectView::PersonEnteredRoom { person, .. } => person,
        StateEffectView::PersonLeftRoom { person, .. } => person,
        StateEffectView::MemoryAdded { person, .. } => person,
        StateEffectView::BeliefChanged { person, .. } => person,
        StateEffectView::AffectChanged { person, .. } => person,
        StateEffectView::RelationshipChanged { observer, .. } => observer,
    }
}

/// The position of the first belief about `prop`.
pub open spec fn belief_index(bs: Seq<BeliefView>, prop: Seq<char>) -> Option<int>
    decreases bs.len(),
{
    if bs.len() == 0 {
        None
    } else {
        match belief_index(bs.drop_last(), prop) {
            Some(i) => Some(i),
            None => if bs.last().proposition == prop {
                Some(bs.len() - 1)
            } else {
                None
            },
        }
    }
}

pub proof fn lemma_belief_index(bs: Seq<BeliefView>, prop: Seq<char>)
    ensures
        match belief_index(bs, prop) {
            Some(i) => 0 <= i < bs.len() && bs[i].proposition == prop && forall|j: int|
                0 <= j < i ==> bs[j].proposition != prop,
            None => forall|j: int| 0 <= j < bs.len() ==> bs[j].proposition != prop,
        },
    decreases bs.len(),
{
    if bs.len() > 0 {
        let p = bs.drop_last();
        lemma_belief_index(p, prop);
        assert forall|j: int| 0 <= j < p.len() implies p[j] == bs[j] by {}
    }
}

proof fn lemma_belief_index_unique(bs: Seq<BeliefView>, prop: Seq<char>, i: int)
    requires
        0 <= i < bs.len(),
        bs[i].proposition == prop,
        forall|j: int| 0 <= j < i ==> bs[j].proposition != prop,
    ensures
        belief_index(bs, prop) == Some(i),
{
    lemma_belief_index(bs, prop);
}

/// The beliefs after setting the confidence in `prop`: the first belief about
/// `prop` is updated, or a new belief is appended.
pub open spec fn with_belief(bs: Seq<BeliefView>, prop: Seq<char>, confidence: Binary32) -> Seq<
    BeliefView,
> {
    match belief_index(bs, prop) {
        Some(i) => bs.update(i, BeliefView { proposition: bs[i].proposition, confidence }),
        None => bs.push(BeliefView { proposition: prop, confidence }),
    }
}

/// A relationship after a change: each delta is added to its dimension, then
/// every dimension is clamped into `[0.0, 1.0]`.
pub open spec fn changed_relationship(
    r: RelationshipView,
    trust_delta: Binary32,
    conflict_delta: Binary32,
    uncertainty_delta: Binary32,
) -> RelationshipView {
    RelationshipView {
        trust: Binary32 { bits: clamp_unit_bits(binary32_sum(r.trust.bits, trust_delta.bits)) },
        familiarity: Binary32 { bits: clamp_unit_bits(r.familiarity.bits) },
        attachment: Binary32 { bits: clamp_unit_bits(r.attachment.bits) },
        perceived_reciprocity: Binary32 { bits: clamp_unit_bits(r.perceived_reciprocity.bits) },
        conflict: Binary32 {
            bits: clamp_unit_bits(binary32_sum(r.conflict.bits, conflict_delta.bits)),
        },
        uncertainty: Binary32 {
            bits: clamp_unit_bits(binary32_sum(r.uncertainty.bits, uncertainty_delta.bits)),
        },
        shared_history: r.shared_history,
    }
}

/// What an effect does to the person it concerns.
pub open spec fn person_after_effect(p: PersonView, e: StateEffectView) -> PersonView {
    match e {
        StateEffectView::PersonEnteredRoom { room, .. } => PersonView { location: Some(room), ..p },
        StateEffectView::PersonLeftRoom { room, .. } => if p.location == Some(room) {
            PersonView { location: None, ..p }
        } else {
            p
        },
        StateEffectView::MemoryAdded { timestamp, description, salience, .. } => PersonView {
            memories: p.memories.push(
                MemoryView {
                    timestamp,
                    description,
                    salience: Binary32 { bits: clamp_unit_bits(salience.bits) },
                },
            ),
            ..p
        },
        StateEffectView::BeliefChanged { proposition, new_confidence, .. } => PersonView {
            beliefs: with_belief(p.beliefs, proposition, new_confidence),
            ..p
        },
        StateEffectView::AffectChanged { new_valence, new_arousal, .. } => PersonView {
            affect: crate::person::AffectiveState { valence: new_valence, arousal: new_arousal },
            ..p
        },
        StateEffectView::RelationshipChanged {
            target,
            trust_delta,
            conflict_delta,
            uncertainty_delta,
            ..
        } => match lookup(p.relationships, target) {
            Some(r) => PersonView {
                relationships: store(
                    p.relationships,
                    target,
                    changed_relationship(r, trust_delta, conflict_delta, uncertainty_delta),
                ),
                ..p
            },
            None => p,
        },
    }
}

/// What an effect does to the world: it changes the person it concerns, and
/// nothing when that person does not exist.
pub open spec fn world_after_effect(w: WorldView, e: StateEffectView) -> WorldView {
    let k = effect_subject(e);
    match lookup(w.people, k) {
        Some(p) => WorldView { people: store(w.people, k, person_after_effect(p, e)), ..w },
        None => w,
    }
}

/// The world after applying `es` in order.
pub open spec fn world_after_effects(w: WorldView, es: Seq<StateEffectView>) -> WorldView
    decreases es.len(),
{
    if es.len() == 0 {
        w
    } else {
        world_after_effect(world_after_effects(w, es.drop_last()), es.last())
    }
}

/// The default causal parents of the next event: the latest event, if any.
pub open spec fn latest_event_parent(w: WorldView) -> Seq<EventId> {
    if w.events.len() > 0 {
        seq![w.events.last().id]
    } else {
        Seq::empty()
    }
}

/// The event a world records next.
pub open spec fn next_event(
    w: WorldView,
    kind: EventKindView,
    effects: Seq<StateEffectView>,
    visibility: VisibilityView,
    parents: Seq<EventId>,
) -> EventView {
    EventView {
        id: EventId(w.next_event_id),
        timestamp: w.time,
        trace_sequence: 0,
        causal_parents: parents,
        kind,
        visibility,
        effects,
    }
}

/// The world after emitting an event: its effects are applied, the event is
/// appended with the next id and the current time, and the id counter advances.
pub open spec fn world_after_emit(
    w: WorldView,
    kind: EventKindView,
    effects: Seq<StateEffectView>,
    visibility: VisibilityView,
    parents: Seq<EventId>,
) -> WorldView {
    let applied = world_after_effects(w, effects);
    WorldView {
        events: applied.events.push(next_event(w, kind, effects, visibility, parents)),
        next_event_id: (w.next_event_id + 1) as u64,
        ..applied
    }
}

/// The id counter after an event with id `id` has been replayed.
pub open spec fn id_after(id: EventId) -> u64 {
    if id.0 < u64::MAX {
        (id.0 + 1) as u64
    } else {
        u64::MAX
    }
}

/// The world after replaying a recorded event: its effects are applied, the
/// event is appended, the clock is set to its timestamp and the id counter
/// continues after its id.
pub open spec fn world_after_replay(w: WorldView, e: EventView) -> WorldView {
    let applied = world_after_effects(w, e.effects);
    WorldView {
        time: e.timestamp,
        events: applied.events.push(e),
        next_event_id: id_after(e.id),
        ..applied
    }
}

/// Effects never change the clock, the event list or the id counter.
pub proof fn lemma_effects_keep_history(w: WorldView, es: Seq<StateEffectView>)
    ensures
        world_after_effects(w, es).time == w.time,
        world_after_effects(w, es).events == w.events,
        world_after_effects(w, es).next_event_id == w.next_event_id,
        world_after_effects(w, es).locations == w.locations,
    decreases es.len(),
{
    if es.len() > 0 {
        lemma_effects_keep_history(w, es.drop_last());
    }
}

fn set_belief_confidence(beliefs: &mut Vec<Belief>, proposition: &String, confidence: Binary32)
    ensures
        views(final(beliefs)@) == with_belief(views(old(beliefs)@), proposition@, confidence),
{
    let ghost pre = views(beliefs@);
    let n = beliefs.len();
    for i in 0..n
        invariant
            n == beliefs@.len(),
            beliefs@ == old(beliefs)@,
            pre == views(beliefs@),
            forall|j: int| 0 <= j < i ==> (#[trigger] pre[j]).proposition != proposition@,
    {
        if beliefs[i].proposition == *proposition {
            proof {
                assert(pre[i as int].proposition == proposition@);
                lemma_belief_index_unique(pre, proposition@, i as int);
            }
            let b = Belief { proposition: beliefs[i].proposition.clone(), confidence };
            beliefs.set(i, b);
            assert(views(beliefs@) =~= with_belief(pre, proposition@, confidence));
            return ;
        }
        assert(pre[i as int].proposition != proposition@);
    }
    proof {
        lemma_belief_index(pre, proposition@);
        if belief_index(pre, proposition@) is Some {
            let i = belief_index(pre, proposition@)->0;
            assert(pre[i].proposition == proposition@);
        }
    }
    beliefs.push(Belief { proposition: proposition.clone(), confidence });
    assert(views(beliefs@) =~= with_belief(pre, proposition@, confidence));
}

fn change_person(p: &mut Person, effect: &StateEffect)
    ensures
        final(p)@ == person_after_effect(old(p)@, effect@),
{
    match effect {
        StateEffect::PersonEnteredRoom { room, .. } => {
            p.location = Some(room.clone());
        },
        StateEffect::PersonLeftRoom { room, .. } => {
            let here = match &p.location {
                Some(current) => *current == *room,
                None => false,
            };
            if here {
                p.location = None;
            }
        },
        StateEffect::MemoryAdded { timestamp, description, salience, .. } => {
            p.remember(*timestamp, description.clone(), *salience);
        },
        StateEffect::BeliefChanged { proposition, new_confidence, .. } => {
            set_belief_confidence(&mut p.beliefs.beliefs, proposition, *new_confidence);
        },
        StateEffect::AffectChanged { new_valence, new_arousal, .. } => {
            p.affect.valence = *new_valence;
            p.affect.arousal = *new_arousal;
        },
        StateEffect::RelationshipChanged {
            target,
            trust_delta,
            conflict_delta,
            uncertainty_delta,
            ..
        } => {
            proof {
                crate::person_map::lemma_key_index(p.relationships@, *target);
            }
            match p.relationships.index_of(*target) {
                Some(j) => {
                    let ghost before = p.relationships@;
                    let r = p.relationships.value_at_mut(j);
                    r.trust = r.trust.add(*trust_delta);
                    r.conflict = r.conflict.add(*conflict_delta);
                    r.uncertainty = r.uncertainty.add(*uncertainty_delta);
                    r.clamp();
                    assert(p.relationships@ =~= store(
                        before,
                        *target,
                        changed_relationship(
                            before[j as int].1,
                            *trust_delta,
                            *conflict_delta,
                            *uncertainty_delta,
                        ),
                    ));
                },
                None => {},
            }
        },
    }
}

/// The person an effect concerns.
fn subject_of(effect: &StateEffect) -> (k: PersonId)
    ensures
        k == effect_subject(effect@),
{
    match effect {
        StateEffect::PersonEnteredRoom { person, .. } => *person,
        StateEffect::PersonLeftRoom { person, .. } => *person,
        StateEffect::MemoryAdded { person, .. } => *person,
        StateEffect::BeliefChanged { person, .. } => *person,
        StateEffect::AffectChanged { person, .. } => *person,
        StateEffect::RelationshipChanged { observer, .. } => *observer,
    }
}

impl WorldState {
    pub fn new() -> (w: WorldState)
        ensures
            w@ == (WorldView {
                time: SimTime(0),
                people: Seq::empty(),
                locations: Map::empty(),
                events: Seq::empty(),
                next_event_id: 0,
            }),
    {
        let w = WorldState {
            time: SimTime(0),
            people: PersonMap::new(),
            locations: HashMap::new(),
            events: Vec::new(),
            next_event_id: 0,
        };
        assert(views(w.events@) =~= Seq::<EventView>::empty());
        w
    }

    /// Adds a person, replacing any person with the same id.
    pub fn add_person(&mut self, person: Person)
        ensures
            final(self)@ == (WorldView { people: store(old(self)@.people, person.id, person@), ..old(self)@ }),
    {
        let id = person.id;
        self.people.insert(id, person);
    }

    /// The person with id `id`.
    pub fn person(&self, id: PersonId) -> (r: Option<&Person>)
        ensures
            match lookup(self@.people, id) {
                Some(p) => r matches Some(q) && q@ == p,
                None => r is None,
            },
    {
        self.people.get(&id)
    }

    /// Apply a recorded effect. This is the single replayable mutation boundary.
    pub fn apply_effect(&mut self, effect: &StateEffect)
        ensures
            final(self)@ == world_after_effect(old(self)@, effect@),
    {
        let k = subject_of(effect);
        proof {
            crate::person_map::lemma_key_index(self.people@, k);
        }
        match self.people.index_of(k) {
            Some(i) => {
                let ghost before = self.people@;
                let p = self.people.value_at_mut(i);
                change_person(p, effect);
                assert(self.people@ =~= store(before, k, person_after_effect(before[i as int].1, effect@)));
            },
            None => {},
        }
    }

    /// Applies `effects` in order.
    pub fn apply_effects(&mut self, effects: &Vec<StateEffect>)
        ensures
            final(self)@ == world_after_effects(old(self)@, views(effects@)),
    {
        for i in 0..effects.len()
            invariant
                self@ == world_after_effects(old(self)@, views(effects@).take(i as int)),
        {
            assert(views(effects@).take(i + 1).drop_last() =~= views(effects@).take(i as int));
            self.apply_effect(&effects[i]);
        }
        assert(views(effects@).take(effects@.len() as int) =~= views(effects@));
    }
}

impl Duplicate for WorldState {
    fn duplicate(&self) -> (r: Self) {
        let r = WorldState {
            time: self.time,
            people: self.people.duplicate(),
            locations: self.locations.clone(),
            events: duplicate_vec(&self.events),
            next_event_id: self.next_event_id,
        };
        r
    }
}

impl Clone for WorldState {
    fn clone(&self) -> (r: Self)
        ensures
            r@ == self@,
    {
        self.duplicate()
    }
}

/// A person's confidence in `prop`: that of their first belief about it.
pub fn confidence_in(p: &Person, prop: &String) -> (r: Option<Binary32>)
    ensures
        match belief_index(p@.beliefs, prop@) {
            Some(i) => r == Some(p@.beliefs[i].confidence),
            None => r is None,
        },
{
    let ghost bs = p@.beliefs;
    let n = p.beliefs.beliefs.len();
    for i in 0..n
        invariant
            bs == p@.beliefs,
            n == bs.len(),
            forall|j: int| 0 <= j < i ==> (#[trigger] bs[j]).proposition != prop@,
    {
        assert(bs[i as int] == p.beliefs.beliefs@[i as int]@);
        if p.beliefs.beliefs[i].proposition == *prop {
            proof {
                lemma_belief_index_unique(bs, prop@, i as int);
            }
            return Some(p.beliefs.beliefs[i].confidence);
        }
    }
    proof {
        lemma_belief_index(bs, prop@);
        if belief_index(bs, prop@) is Some {
            let i = belief_index(bs, prop@)->0;
            assert(bs[i].proposition == prop@);
        }
    }
    None
}

impl Default for WorldState {
    fn default() -> (w: Self)
        ensures
            w@ == (WorldView {
                time: SimTime(0),
                people: Seq::empty(),
                locations: Map::empty(),
                events: Seq::empty(),
                next_event_id: 0,
            }),
    {
        WorldState::new()
    }
}

/// The world after `from` takes `state` as their relationship towards `to`;
/// unchanged when `from` does not exist.
pub open spec fn world_with_relationship(
    w: WorldView,
    from: PersonId,
    to: PersonId,
    state: RelationshipView,
) -> WorldView {
    match lookup(w.people, from) {
        Some(p) => WorldView {
            people: store(
                w.people,
                from,
                PersonView { relationships: store(p.relationships, to, state), ..p },
            ),
            ..w
        },
        None => w,
    }
}

impl WorldState {
    /// Sets `from`'s relationship towards `to`. Returns whether `from` exists.
    pub fn set_relationship(&mut self, from: PersonId, to: PersonId, state: RelationshipState) -> (r: bool)
        ensures
            r == (lookup(old(self)@.people, from) is Some),
            final(self)@ == world_with_relationship(old(self)@, from, to, state@),
    {
        proof {
            crate::person_map::lemma_key_index(self.people@, from);
        }
        match self.people.index_of(from) {
            Some(i) => {
                let ghost before = self.people@;
                let p = self.people.value_at_mut(i);
                p.relationships.insert(to, state);
                assert(self.people@ =~= store(
                    before,
                    from,
                    PersonView {
                        relationships: store(before[i as int].1.relationships, to, state@),
                        ..before[i as int].1
                    },
                ));
                true
            },
            None => false,
        }
    }
}

/// The description of an agent action by a person called `name`.
pub open spec fn action_text(name: Seq<char>, action: ActionView) -> Seq<char> {
    match action {
        ActionView::Say(text) => name + " said: "@ + text,
        ActionView::DoNothing => name + " did nothing"@,
    }
}

impl WorldState {
    /// The people of the world (the public `people` field).
    pub fn people(&self) -> (r: &PersonMap<Person>)
        ensures
            r@ == self@.people,
    {
        &self.people
    }

    /// The recorded events of the world (the public `events` field).
    pub fn events(&self) -> (r: &Vec<Event>)
        ensures
            views(r@) == self@.events,
    {
        &self.events
    }

    /// The id the next emitted event receives.
    pub fn next_event_id(&self) -> (r: u64)
        ensures
            r == self@.next_event_id,
    {
        self.next_event_id
    }

    /// The world's current time.
    pub fn time_now(&self) -> (t: SimTime)
        ensures
            t == self@.time,
    {
        self.time
    }

    /// Sets the clock.
    pub fn set_time(&mut self, t: SimTime)
        ensures
            final(self)@ == (WorldView { time: t, ..old(self)@ }),
    {
        self.time = t;
    }

    pub fn event_count(&self) -> (n: usize)
        ensures
            n == self@.events.len(),
    {
        self.events.len()
    }

    pub fn event_at(&self, i: usize) -> (e: &Event)
        requires
            i < self@.events.len(),
        ensures
            e@ == self@.events[i as int],
    {
        &self.events[i]
    }

    /// The default causal parents of the next event: the latest event, if any.
    pub fn latest_parent(&self) -> (r: Vec<EventId>)
        ensures
            r@ == latest_event_parent(self@),
    {
        let mut r: Vec<EventId> = Vec::new();
        let n = self.events.len();
        if n > 0 {
            r.push(self.events[n - 1].id);
            assert(r@ =~= latest_event_parent(self@));
        } else {
            assert(r@ =~= latest_event_parent(self@));
        }
        r
    }

    /// Records an event with explicit causal parents: its effects are applied,
    /// then it is appended with the next id and the current time.
    pub fn emit_with_parents(
        &mut self,
        kind: EventKind,
        effects: Vec<StateEffect>,
        visibility: Visibility,
        parents: Vec<EventId>,
    ) -> (id: EventId)
        requires
            old(self)@.next_event_id < u64::MAX,
        ensures
            id == EventId(old(self)@.next_event_id),
            final(self)@ == world_after_emit(old(self)@, kind@, views(effects@), visibility@, parents@),
    {
        let ghost pre = self@;
        let id = EventId(self.next_event_id);
        self.apply_effects(&effects);
        proof {
            lemma_effects_keep_history(pre, views(effects@));
        }
        self.next_event_id = self.next_event_id + 1;
        let ev = Event {
            id,
            timestamp: self.time,
            trace_sequence: 0,
            causal_parents: parents,
            kind,
            visibility,
            effects,
        };
        self.events.push(ev);
        assert(self@ =~= world_after_emit(pre, kind@, views(effects@), visibility@, parents@));
        id
    }

    /// Records an event whose causal parent is the latest event.
    pub fn emit_with_visibility(
        &mut self,
        kind: EventKind,
        effects: Vec<StateEffect>,
        visibility: Visibility,
    ) -> (id: EventId)
        requires
            old(self)@.next_event_id < u64::MAX,
        ensures
            id == EventId(old(self)@.next_event_id),
            final(self)@ == world_after_emit(
                old(self)@,
                kind@,
                views(effects@),
                visibility@,
                latest_event_parent(old(self)@),
            ),
    {
        let parents = self.latest_parent();
        self.emit_with_parents(kind, effects, visibility, parents)
    }

    /// Records a public event whose causal parent is the latest event.
    pub fn emit(&mut self, kind: EventKind, effects: Vec<StateEffect>) -> (id: EventId)
        requires
            old(self)@.next_event_id < u64::MAX,
        ensures
            id == EventId(old(self)@.next_event_id),
            final(self)@ == world_after_emit(
                old(self)@,
                kind@,
                views(effects@),
                VisibilityView::Public,
                latest_event_parent(old(self)@),
            ),
    {
        self.emit_with_visibility(kind, effects, Visibility::Public)
    }

    /// Re-applies a recorded event: its effects, its place in the event list,
    /// its time, and the id counter after it.
    pub fn replay_event(&mut self, e: &Event)
        ensures
            final(self)@ == world_after_replay(old(self)@, e@),
    {
        let ghost pre = self@;
        self.apply_effects(&e.effects);
        proof {
            lemma_effects_keep_history(pre, views(e.effects@));
        }
        self.events.push(e.clone());
        self.time = e.timestamp;
        self.next_event_id = if e.id.0 < u64::MAX {
            e.id.0 + 1
        } else {
            u64::MAX
        };
        assert(self@ =~= world_after_replay(pre, e@));
    }

    /// Sets the trace sequence of the latest event.
    pub fn set_latest_trace_sequence(&mut self, seq: u64)
        requires
            old(self)@.events.len() > 0,
        ensures
            final(self)@ == (WorldView {
                events: old(self)@.events.update(
                    old(self)@.events.len() - 1,
                    EventView { trace_sequence: seq, ..old(self)@.events.last() },
                ),
                ..old(self)@
            }),
    {
        let ghost pre = self@;
        let n = self.events.len();
        let mut e = self.events[n - 1].clone();
        e.trace_sequence = seq;
        self.events.set(n - 1, e);
        assert(self@ =~= (WorldView {
            events: pre.events.update(
                pre.events.len() - 1,
                EventView { trace_sequence: seq, ..pre.events.last() },
            ),
            ..pre
        }));
    }

    fn action_description(&self, name: &String, action: &Action) -> (s: String)
        ensures
            s@ == action_text(name@, action@),
    {
        match action {
            Action::Say(text) => name.clone().concat(" said: ").concat(text.as_str()),
            Action::DoNothing => name.clone().concat(" did nothing"),
        }
    }

    /// Applies what an agent said as a world event. Doing nothing records no event.
    pub fn apply_agent_action(&mut self, actor: PersonId, action: &Action) -> (r: Result<
        (),
        WorldError,
    >)
        requires
            old(self)@.next_event_id < u64::MAX,
        ensures
            match lookup(old(self)@.people, actor) {
                None => r == Err::<(), WorldError>(WorldError::UnknownPerson(actor)) && final(self)@
                    == old(self)@,
                Some(p) => r is Ok && match action@ {
                    ActionView::Say(text) => final(self)@ == world_after_emit(
                        old(self)@,
                        EventKindView::Custom { description: p.name + " said: "@ + text },
                        Seq::empty(),
                        VisibilityView::Public,
                        latest_event_parent(old(self)@),
                    ),
                    ActionView::DoNothing => final(self)@ == old(self)@,
                },
            },
    {
        let person = match self.people.get(&actor) {
            Some(p) => p,
            None => {
                return Err(WorldError::UnknownPerson(actor));
            },
        };
        match action {
            Action::Say(text) => {
                let name = person.identity.name.clone();
                let description = name.concat(" said: ").concat(text.as_str());
                let no_effects: Vec<StateEffect> = Vec::new();
                assert(views(no_effects@) =~= Seq::<StateEffectView>::empty());
                self.emit(EventKind::Custom { description }, no_effects);
            },
            Action::DoNothing => {},
        }
        Ok(())
    }

    /// Applies an agent's action as a world event caused by `parents` (the
    /// events the agent observed). Every action, doing nothing included, is
    /// recorded as an `AgentAction` event.
    pub fn apply_agent_action_with_parents(
        &mut self,
        actor: PersonId,
        action: &Action,
        parents: Vec<EventId>,
    ) -> (r: Result<EventId, WorldError>)
        requires
            old(self)@.next_event_id < u64::MAX,
        ensures
            match lookup(old(self)@.people, actor) {
                None => r == Err::<EventId, WorldError>(WorldError::UnknownPerson(actor))
                    && final(self)@ == old(self)@,
                Some(p) => r == Ok::<EventId, WorldError>(EventId(old(self)@.next_event_id))
                    && final(self)@ == world_after_emit(
                    old(self)@,
                    EventKindView::AgentAction { actor, description: action_text(p.name, action@) },
                    Seq::empty(),
                    VisibilityView::Public,
                    parents@,
                ),
            },
    {
        let person = match self.people.get(&actor) {
            Some(p) => p,
            None => {
                return Err(WorldError::UnknownPerson(actor));
            },
        };
        let description = self.action_description(&person.identity.name, action);
        let no_effects: Vec<StateEffect> = Vec::new();
        assert(views(no_effects@) =~= Seq::<StateEffectView>::empty());
        let id = self.emit_with_parents(
            EventKind::AgentAction { actor, description },
            no_effects,
            Visibility::Public,
            parents,
        );
        Ok(id)
    }
}

} // verus!
