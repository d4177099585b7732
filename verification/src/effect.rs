//! Explicit state changes produced by simulation events.
//!
//! An `Event` is history. A `StateEffect` is the deterministic state delta
//! needed to reproduce that history. Important state mutations pass through
//! this vocabulary instead of being hidden inside arbitrary methods.

use vstd::prelude::*;
use crate::binary32::Binary32;
use crate::duplicate::Duplicate;
use crate::ids::PersonId;
use crate::time::SimTime;

verus! {

#[derive(Debug, PartialEq)]
pub enum StateEffect {
    PersonEnteredRoom { person: PersonId, room: String },
    PersonLeftRoom { person: PersonId, room: String },
    MemoryAdded { person: PersonId, timestamp: SimTime, description: String, salience: Binary32 },
    BeliefChanged {
        person: PersonId,
        proposition: String,
        old_confidence: Binary32,
        new_confidence: Binary32,
    },
    AffectChanged {
        person: PersonId,
        old_valence: Binary32,
        new_valence: Binary32,
        old_arousal: Binary32,
        new_arousal: Binary32,
    },
    RelationshipChanged {
        observer: PersonId,
        target: PersonId,
        trust_delta: Binary32,
        conflict_delta: Binary32,
        uncertainty_delta: Binary32,
    },
}

impl Clone for StateEffect {
    fn clone(&self) -> (r: Self)
        ensures
            r == *self,
    {
        match self {
            StateEffect::PersonEnteredRoom { person, room } => StateEffect::PersonEnteredRoom {
                person: *person,
                room: room.clone(),
            },
            StateEffect::PersonLeftRoom { person, room } => StateEffect::PersonLeftRoom {
                person: *person,
                room: room.clone(),
            },
            StateEffect::MemoryAdded { person, timestamp, description, salience } =>
                StateEffect::MemoryAdded {
                person: *person,
                timestamp: *timestamp,
                description: description.clone(),
                salience: *salience,
            },
            StateEffect::BeliefChanged { person, proposition, old_confidence, new_confidence } =>
                StateEffect::BeliefChanged {
                person: *person,
                proposition: proposition.clone(),
                old_confidence: *old_confidence,
                new_confidence: *new_confidence,
            },
            StateEffect::AffectChanged {
                person,
                old_valence,
                new_valence,
                old_arousal,
                new_arousal,
            } => StateEffect::AffectChanged {
                person: *person,
                old_valence: *old_valence,
                new_valence: *new_valence,
                old_arousal: *old_arousal,
                new_arousal: *new_arousal,
            },
            StateEffect::RelationshipChanged {
                observer,
                target,
                trust_delta,
                conflict_delta,
                uncertainty_delta,
            } => StateEffect::RelationshipChanged {
                observer: *observer,
                target: *target,
                trust_delta: *trust_delta,
                conflict_delta: *conflict_delta,
                uncertainty_delta: *uncertainty_delta,
            },
        }
    }
}

/// The mathematical value of a `StateEffect`.
pub enum StateEffectView {
    PersonEnteredRoom { person: PersonId, room: Seq<char> },
    PersonLeftRoom { person: PersonId, room: Seq<char> },
    MemoryAdded { person: PersonId, timestamp: SimTime, description: Seq<char>, salience: Binary32 },
    BeliefChanged {
        person: PersonId,
        proposition: Seq<char>,
        old_confidence: Binary32,
        new_confidence: Binary32,
    },
    AffectChanged {
        person: PersonId,
        old_valence: Binary32,
        new_valence: Binary32,
        old_arousal: Binary32,
        new_arousal: Binary32,
    },
    RelationshipChanged {
        observer: PersonId,
        target: PersonId,
        trust_delta: Binary32,
        conflict_delta: Binary32,
        uncertainty_delta: Binary32,
    },
}

impl View for StateEffect {
    type V = StateEffectView;

    open spec fn view(&self) -> StateEffectView {
        match *self {
            StateEffect::PersonEnteredRoom { person, room } => StateEffectView::PersonEnteredRoom {
                person,
                room: room@,
            },
            StateEffect::PersonLeftRoom { person, room } => StateEffectView::PersonLeftRoom {
                person,
                room: room@,
            },
            StateEffect::MemoryAdded { person, timestamp, description, salience } =>
                StateEffectView::MemoryAdded {
                person,
                timestamp,
                description: description@,
                salience,
            },
            StateEffect::BeliefChanged { person, proposition, old_confidence, new_confidence } =>
                StateEffectView::BeliefChanged {
                person,
                proposition: proposition@,
                old_confidence,
                new_confidence,
            },
            StateEffect::AffectChanged {
                person,
                old_valence,
                new_valence,
                old_arousal,
                new_arousal,
            } => StateEffectView::AffectChanged {
                person,
                old_valence,
                new_valence,
                old_arousal,
                new_arousal,
            },
            StateEffect::RelationshipChanged {
                observer,
                target,
                trust_delta,
                conflict_delta,
                uncertainty_delta,
            } => StateEffectView::RelationshipChanged {
                observer,
                target,
                trust_delta,
                conflict_delta,
                uncertainty_delta,
            },
        }
    }
}

impl Duplicate for StateEffect {
    fn duplicate(&self) -> (r: Self) {
        self.clone()
    }
}

} // verus!
