//! Simulated people and their latent psychological state.

use vstd::prelude::*;
use crate::binary32::{clamp_unit_bits, Binary32};
use crate::duplicate::{duplicate_vec, views, Duplicate};
use crate::ids::PersonId;
use crate::person_map::PersonMap;
use crate::time::SimTime;

verus! {

#[derive(Debug, PartialEq)]
pub struct Identity {
    pub name: String,
}

#[derive(Debug, PartialEq)]
pub struct Goal {
    pub description: String,
    pub importance: Binary32,
}

#[derive(Debug, PartialEq)]
pub struct Belief {
    pub proposition: String,
    /// Probability assigned by the simulated person, not objective truth.
    pub confidence: Binary32,
}

#[derive(Debug, Default, PartialEq)]
pub struct BeliefState {
    pub beliefs: Vec<Belief>,
}

#[derive(Debug, PartialEq)]
pub struct Memory {
    pub timestamp: SimTime,
    pub description: String,
    pub salience: Binary32,
}

#[derive(Debug, Default, PartialEq)]
pub struct MemoryStore {
    pub memories: Vec<Memory>,
}

#[derive(Debug, PartialEq)]
pub struct RelationshipState {
    pub trust: Binary32,
    pub familiarity: Binary32,
    pub attachment: Binary32,
    pub perceived_reciprocity: Binary32,
    pub conflict: Binary32,
    pub uncertainty: Binary32,
    pub shared_history: Vec<String>,
}

#[derive(Debug, Default, PartialEq)]
pub struct Expectations {
    pub expectations: Vec<Belief>,
}

#[derive(Debug, Clone, Copy, PartialEq, Eq, Structural)]
pub struct AffectiveState {
    pub valence: Binary32,
    pub arousal: Binary32,
}

#[derive(Debug, Clone, Copy, PartialEq, Eq, Structural)]
pub struct SelfModel {
    pub capability_estimate: Binary32,
    pub uncertainty: Binary32,
}

#[derive(Debug, PartialEq)]
pub struct Person {
    pub id: PersonId,
    pub identity: Identity,
    /// The room the person is in, as set by room entry and exit effects.
    pub location: Option<String>,
    pub goals: Vec<Goal>,
    pub beliefs: BeliefState,
    pub memories: MemoryStore,
    pub expectations: Expectations,
    pub affect: AffectiveState,
    pub relationships: PersonMap<RelationshipState>,
    pub self_model: SelfModel,
}

/// The mathematical value of a `RelationshipState`.
#[verifier::ext_equal]
pub struct RelationshipView {
    pub trust: Binary32,
    pub familiarity: Binary32,
    pub attachment: Binary32,
    pub perceived_reciprocity: Binary32,
    pub conflict: Binary32,
    pub uncertainty: Binary32,
    pub shared_history: Seq<Seq<char>>,
}

/// The mathematical value of a `Person`.
#[verifier::ext_equal]
pub struct PersonView {
    pub id: PersonId,
    pub name: Seq<char>,
    pub location: Option<Seq<char>>,
    pub goals: Seq<GoalView>,
    pub beliefs: Seq<BeliefView>,
    pub memories: Seq<MemoryView>,
    pub expectations: Seq<BeliefView>,
    pub affect: AffectiveState,
    pub relationships: Seq<(PersonId, RelationshipView)>,
    pub self_model: SelfModel,
}

/// The mathematical value of a `Goal`.
pub struct GoalView {
    pub description: Seq<char>,
    pub importance: Binary32,
}

/// The mathematical value of a `Belief`.
pub struct BeliefView {
    pub proposition: Seq<char>,
    pub confidence: Binary32,
}

/// The mathematical value of a `Memory`.
pub struct MemoryView {
    pub timestamp: SimTime,
    pub description: Seq<char>,
    pub salience: Binary32,
}

impl View for Goal {
    type V = GoalView;

    open spec fn view(&self) -> GoalView {
        GoalView { description: self.description@, importance: self.importance }
    }
}

impl View for Belief {
    type V = BeliefView;

    open spec fn view(&self) -> BeliefView {
        BeliefView { proposition: self.proposition@, confidence: self.confidence }
    }
}

impl View for Memory {
    type V = MemoryView;

    open spec fn view(&self) -> MemoryView {
        MemoryView { timestamp: self.timestamp, description: self.description@, salience: self.salience }
    }
}

impl View for RelationshipState {
    type V = RelationshipView;

    open spec fn view(&self) -> RelationshipView {
        RelationshipView {
            trust: self.trust,
            familiarity: self.familiarity,
            attachment: self.attachment,
            perceived_reciprocity: self.perceived_reciprocity,
            conflict: self.conflict,
            uncertainty: self.uncertainty,
            shared_history: views(self.shared_history@),
        }
    }
}

impl View for Person {
    type V = PersonView;

    open spec fn view(&self) -> PersonView {
        PersonView {
            id: self.id,
            name: self.identity.name@,
            location: match self.location {
                Some(room) => Some(room@),
                None => None,
            },
            goals: views(self.goals@),
            beliefs: views(self.beliefs.beliefs@),
            memories: views(self.memories.memories@),
            expectations: views(self.expectations.expectations@),
            affect: self.affect,
            relationships: self.relationships@,
            self_model: self.self_model,
        }
    }
}

impl Duplicate for Goal {
    fn duplicate(&self) -> (r: Self) {
        Goal { description: self.description.clone(), importance: self.importance }
    }
}

impl Duplicate for Belief {
    fn duplicate(&self) -> (r: Self) {
        Belief { proposition: self.proposition.clone(), confidence: self.confidence }
    }
}

impl Duplicate for Memory {
    fn duplicate(&self) -> (r: Self) {
        Memory {
            timestamp: self.timestamp,
            description: self.description.clone(),
            salience: self.salience,
        }
    }
}

impl Duplicate for RelationshipState {
    fn duplicate(&self) -> (r: Self) {
        RelationshipState {
            trust: self.trust,
            familiarity: self.familiarity,
            attachment: self.attachment,
            perceived_reciprocity: self.perceived_reciprocity,
            conflict: self.conflict,
            uncertainty: self.uncertainty,
            shared_history: duplicate_vec(&self.shared_history),
        }
    }
}

impl Duplicate for Person {
    fn duplicate(&self) -> (r: Self) {
        let location = match &self.location {
            Some(room) => Some(room.clone()),
            None => None,
        };
        Person {
            id: self.id,
            identity: Identity { name: self.identity.name.clone() },
            location,
            goals: duplicate_vec(&self.goals),
            beliefs: BeliefState { beliefs: duplicate_vec(&self.beliefs.beliefs) },
            memories: MemoryStore { memories: duplicate_vec(&self.memories.memories) },
            expectations: Expectations {
                expectations: duplicate_vec(&self.expectations.expectations),
            },
            affect: self.affect,
            relationships: self.relationships.duplicate(),
            self_model: self.self_model,
        }
    }
}

impl Clone for RelationshipState {
    fn clone(&self) -> (r: Self)
        ensures
            r@ == self@,
    {
        self.duplicate()
    }
}

impl Clone for Person {
    fn clone(&self) -> (r: Self)
        ensures
            r@ == self@,
    {
        self.duplicate()
    }
}

impl RelationshipState {
    /// Clamps every numeric dimension into `[0.0, 1.0]`.
    pub fn clamp(&mut self)
        ensures
            final(self)@ == (RelationshipView {
                trust: Binary32 { bits: clamp_unit_bits(old(self).trust.bits) },
                familiarity: Binary32 { bits: clamp_unit_bits(old(self).familiarity.bits) },
                attachment: Binary32 { bits: clamp_unit_bits(old(self).attachment.bits) },
                perceived_reciprocity: Binary32 {
                    bits: clamp_unit_bits(old(self).perceived_reciprocity.bits),
                },
                conflict: Binary32 { bits: clamp_unit_bits(old(self).conflict.bits) },
                uncertainty: Binary32 { bits: clamp_unit_bits(old(self).uncertainty.bits) },
                ..old(self)@
            }),
    {
        self.trust = self.trust.clamp_unit();
        self.familiarity = self.familiarity.clamp_unit();
        self.attachment = self.attachment.clamp_unit();
        self.perceived_reciprocity = self.perceived_reciprocity.clamp_unit();
        self.conflict = self.conflict.clamp_unit();
        self.uncertainty = self.uncertainty.clamp_unit();
    }
}

/// `0.5`
pub open spec fn half_bits() -> u32 {
    0x3F00_0000
}

/// A newly created person: no goals, beliefs, memories, expectations or
/// relationships, neutral affect, and a self-model of `0.5` capability and uncertainty.
pub open spec fn new_person(id: PersonId, name: Seq<char>) -> PersonView {
    PersonView {
        id,
        name,
        location: None,
        goals: Seq::empty(),
        beliefs: Seq::empty(),
        memories: Seq::empty(),
        expectations: Seq::empty(),
        affect: AffectiveState { valence: Binary32 { bits: 0 }, arousal: Binary32 { bits: 0 } },
        relationships: Seq::empty(),
        self_model: SelfModel {
            capability_estimate: Binary32 { bits: half_bits() },
            uncertainty: Binary32 { bits: half_bits() },
        },
    }
}

impl Default for AffectiveState {
    /// Neutral affect: valence and arousal `0.0`.
    fn default() -> (r: AffectiveState)
        ensures
            r.valence.bits == 0 && r.arousal.bits == 0,
    {
        AffectiveState { valence: Binary32 { bits: 0 }, arousal: Binary32 { bits: 0 } }
    }
}

impl Default for SelfModel {
    /// The initial self-model: capability estimate and uncertainty `0.5`.
    fn default() -> (r: SelfModel)
        ensures
            r.capability_estimate.bits == half_bits() && r.uncertainty.bits == half_bits(),
    {
        SelfModel {
            capability_estimate: Binary32 { bits: 0x3F00_0000 },
            uncertainty: Binary32 { bits: 0x3F00_0000 },
        }
    }
}

impl Person {
    pub fn new(id: PersonId, name: &str) -> (p: Person)
        ensures
            p@ == new_person(id, name@),
    {
        let p = Person {
            id,
            identity: Identity { name: name.to_owned() },
            location: None,
            goals: Vec::new(),
            beliefs: BeliefState { beliefs: Vec::new() },
            memories: MemoryStore { memories: Vec::new() },
            expectations: Expectations { expectations: Vec::new() },
            affect: AffectiveState::default(),
            relationships: PersonMap::new(),
            self_model: SelfModel::default(),
        };
        assert(views(p.goals@) =~= Seq::<GoalView>::empty());
        assert(views(p.beliefs.beliefs@) =~= Seq::<BeliefView>::empty());
        assert(views(p.memories.memories@) =~= Seq::<MemoryView>::empty());
        assert(views(p.expectations.expectations@) =~= Seq::<BeliefView>::empty());
        assert(p@ =~= new_person(id, name@));
        p
    }

    /// Records a memory; its salience is clamped into `[0.0, 1.0]`.
    pub fn remember(&mut self, timestamp: SimTime, description: String, salience: Binary32)
        ensures
            final(self)@ == (PersonView {
                memories: old(self)@.memories.push(
                    MemoryView {
                        timestamp,
                        description: description@,
                        salience: Binary32 { bits: clamp_unit_bits(salience.bits) },
                    },
                ),
                ..old(self)@
            }),
    {
        let m = Memory { timestamp, description, salience: salience.clamp_unit() };
        self.memories.memories.push(m);
        assert(views(self.memories.memories@) =~= old(self)@.memories.push(m@));
    }
}

} // verus!
