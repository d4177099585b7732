//! Semantic events form Terrarium's durable history.
//!
//! An event answers "what happened?" while its `effects` answer "what changed
//! because it happened?".

use vstd::prelude::*;
use crate::duplicate::{copy_vec, duplicate_vec, views, Duplicate};
use crate::effect::{StateEffect, StateEffectView};
use crate::ids::{EventId, PersonId};
use crate::text::{decimal, decimal_string};
use crate::time::SimTime;
use vstd::string::*;

verus! {

/// Controls which agents may receive an event through the observation layer.
/// The latent world may know much more than any one agent.
#[derive(Debug, PartialEq, Eq)]
pub enum Visibility {
    Public,
    Latent,
    Persons(Vec<PersonId>),
}

/// The mathematical value of a `Visibility`.
pub enum VisibilityView {
    Public,
    Latent,
    Persons(Seq<PersonId>),
}

impl View for Visibility {
    type V = VisibilityView;

    open spec fn view(&self) -> VisibilityView {
        match self {
            Visibility::Public => VisibilityView::Public,
            Visibility::Latent => VisibilityView::Latent,
            Visibility::Persons(ids) => VisibilityView::Persons(ids@),
        }
    }
}

/// Whether an event of visibility `v` may be observed by `observer`.
pub open spec fn visible(v: VisibilityView, observer: PersonId) -> bool {
    match v {
        VisibilityView::Public => true,
        VisibilityView::Latent => false,
        VisibilityView::Persons(ids) => ids.contains(observer),
    }
}

impl Visibility {
    pub fn visible_to(&self, observer: PersonId) -> (r: bool)
        ensures
            r == visible(self@, observer),
    {
        match self {
            Visibility::Public => true,
            Visibility::Latent => false,
            Visibility::Persons(ids) => {
                for i in 0..ids.len()
                    invariant
                        self@ == VisibilityView::Persons(ids@),
                        forall|j: int| 0 <= j < i ==> ids@[j] != observer,
                {
                    if ids[i] == observer {
                        assert(ids@[i as int] == observer);
                        assert(ids@.contains(observer));
                        return true;
                    }
                }
                false
            },
        }
    }
}

impl Clone for Visibility {
    fn clone(&self) -> (r: Self)
        ensures
            r@ == self@,
    {
        match self {
            Visibility::Public => Visibility::Public,
            Visibility::Latent => Visibility::Latent,
            Visibility::Persons(ids) => Visibility::Persons(copy_vec(ids)),
        }
    }
}

#[derive(Debug, PartialEq)]
pub enum EventKind {
    PersonEnteredRoom { person: PersonId, room: String },
    PersonLeftRoom { person: PersonId, room: String },
    PromiseMade { from: PersonId, to: PersonId, content: String },
    PromiseBroken { from: PersonId, to: PersonId, content: String },
    MessageSent { from: PersonId, to: PersonId, content: String },
    AgentAction { actor: PersonId, description: String },
    /// A meaningful affective transition. Exact old/new values live in the effect.
    AffectChanged { person: PersonId },
    Custom { description: String },
}

/// The mathematical value of an `EventKind`.
pub enum EventKindView {
    PersonEnteredRoom { person: PersonId, room: Seq<char> },
    PersonLeftRoom { person: PersonId, room: Seq<char> },
    PromiseMade { from: PersonId, to: PersonId, content: Seq<char> },
    PromiseBroken { from: PersonId, to: PersonId, content: Seq<char> },
    MessageSent { from: PersonId, to: PersonId, content: Seq<char> },
    AgentAction { actor: PersonId, description: Seq<char> },
    AffectChanged { person: PersonId },
    Custom { description: Seq<char> },
}

impl View for EventKind {
    type V = EventKindView;

    open spec fn view(&self) -> EventKindView {
        match *self {
            EventKind::PersonEnteredRoom { person, room } => EventKindView::PersonEnteredRoom {
                person,
                room: room@,
            },
            EventKind::PersonLeftRoom { person, room } => EventKindView::PersonLeftRoom {
                person,
                room: room@,
            },
            EventKind::PromiseMade { from, to, content } => EventKindView::PromiseMade {
                from,
                to,
                content: content@,
            },
            EventKind::PromiseBroken { from, to, content } => EventKindView::PromiseBroken {
                from,
                to,
                content: content@,
            },
            EventKind::MessageSent { from, to, content } => EventKindView::MessageSent {
                from,
                to,
                content: content@,
            },
            EventKind::AgentAction { actor, description } => EventKindView::AgentAction {
                actor,
                description: description@,
            },
            EventKind::AffectChanged { person } => EventKindView::AffectChanged { person },
            EventKind::Custom { description } => EventKindView::Custom {
                description: description@,
            },
        }
    }
}

/// `Debug` rendering of a string: quoted, with the characters `Debug` escapes escaped.
pub uninterp spec fn str_debug(s: Seq<char>) -> Seq<char>;

/// std's `Debug` formatting of `str` (`format!("{:?}", s)`): the text in double
/// quotes, with double quotes, backslashes and control and non-printable
/// characters escaped (single quotes are not). Only that the result is a
/// function of the text is stated.
#[verifier::external_body]
fn str_debug_string(s: &str) -> (r: String)
    ensures
        r@ == str_debug(s@),
{
    format!("{:?}", s)
}

/// `Debug` text of a person id: `PersonId(<n>)`.
pub open spec fn person_id_debug(id: PersonId) -> Seq<char> {
    "PersonId("@ + decimal(id.0 as nat) + ")"@
}

pub fn person_id_debug_string(id: PersonId) -> (s: String)
    ensures
        s@ == person_id_debug(id),
{
    String::from_str("PersonId(").concat(decimal_string(id.0).as_str()).concat(")")
}

/// The derived `Debug` text of an event kind, e.g.
/// `PromiseMade { from: PersonId(1), to: PersonId(2), content: "hello" }`.
pub open spec fn event_kind_debug(k: EventKindView) -> Seq<char> {
    match k {
        EventKindView::PersonEnteredRoom { person, room } => "PersonEnteredRoom { person: "@
            + person_id_debug(person) + ", room: "@ + str_debug(room) + " }"@,
        EventKindView::PersonLeftRoom { person, room } => "PersonLeftRoom { person: "@
            + person_id_debug(person) + ", room: "@ + str_debug(room) + " }"@,
        EventKindView::PromiseMade { from, to, content } => "PromiseMade { from: "@
            + person_id_debug(from) + ", to: "@ + person_id_debug(to) + ", content: "@ + str_debug(
            content,
        ) + " }"@,
        EventKindView::PromiseBroken { from, to, content } => "PromiseBroken { from: "@
            + person_id_debug(from) + ", to: "@ + person_id_debug(to) + ", content: "@ + str_debug(
            content,
        ) + " }"@,
        EventKindView::MessageSent { from, to, content } => "MessageSent { from: "@
            + person_id_debug(from) + ", to: "@ + person_id_debug(to) + ", content: "@ + str_debug(
            content,
        ) + " }"@,
        EventKindView::AgentAction { actor, description } => "AgentAction { actor: "@
            + person_id_debug(actor) + ", description: "@ + str_debug(description) + " }"@,
        EventKindView::AffectChanged { person } => "AffectChanged { person: "@ + person_id_debug(
            person,
        ) + " }"@,
        EventKindView::Custom { description } => "Custom { description: "@ + str_debug(
            description,
        ) + " }"@,
    }
}

impl EventKind {
    /// The derived `Debug` text of this kind.
    pub fn debug_text(&self) -> (s: String)
        ensures
            s@ == event_kind_debug(self@),
    {
        match self {
            EventKind::PersonEnteredRoom { person, room } => String::from_str(
                "PersonEnteredRoom { person: ",
            ).concat(person_id_debug_string(*person).as_str()).concat(", room: ").concat(
                str_debug_string(room.as_str()).as_str(),
            ).concat(" }"),
            EventKind::PersonLeftRoom { person, room } => String::from_str(
                "PersonLeftRoom { person: ",
            ).concat(person_id_debug_string(*person).as_str()).concat(", room: ").concat(
                str_debug_string(room.as_str()).as_str(),
            ).concat(" }"),
            EventKind::PromiseMade { from, to, content } => String::from_str(
                "PromiseMade { from: ",
            ).concat(person_id_debug_string(*from).as_str()).concat(", to: ").concat(
                person_id_debug_string(*to).as_str(),
            ).concat(", content: ").concat(str_debug_string(content.as_str()).as_str()).concat(
                " }",
            ),
            EventKind::PromiseBroken { from, to, content } => String::from_str(
                "PromiseBroken { from: ",
            ).concat(person_id_debug_string(*from).as_str()).concat(", to: ").concat(
                person_id_debug_string(*to).as_str(),
            ).concat(", content: ").concat(str_debug_string(content.as_str()).as_str()).concat(
                " }",
            ),
            EventKind::MessageSent { from, to, content } => String::from_str(
                "MessageSent { from: ",
            ).concat(person_id_debug_string(*from).as_str()).concat(", to: ").concat(
                person_id_debug_string(*to).as_str(),
            ).concat(", content: ").concat(str_debug_string(content.as_str()).as_str()).concat(
                " }",
            ),
            EventKind::AgentAction { actor, description } => String::from_str(
                "AgentAction { actor: ",
            ).concat(person_id_debug_string(*actor).as_str()).concat(", description: ").concat(
                str_debug_string(description.as_str()).as_str(),
            ).concat(" }"),
            EventKind::AffectChanged { person } => String::from_str(
                "AffectChanged { person: ",
            ).concat(person_id_debug_string(*person).as_str()).concat(" }"),
            EventKind::Custom { description } => String::from_str("Custom { description: ").concat(
                str_debug_string(description.as_str()).as_str(),
            ).concat(" }"),
        }
    }
}

impl Clone for EventKind {
    fn clone(&self) -> (r: Self)
        ensures
            r == *self,
    {
        match self {
            EventKind::PersonEnteredRoom { person, room } => EventKind::PersonEnteredRoom {
                person: *person,
                room: room.clone(),
            },
            EventKind::PersonLeftRoom { person, room } => EventKind::PersonLeftRoom {
                person: *person,
                room: room.clone(),
            },
            EventKind::PromiseMade { from, to, content } => EventKind::PromiseMade {
                from: *from,
                to: *to,
                content: content.clone(),
            },
            EventKind::PromiseBroken { from, to, content } => EventKind::PromiseBroken {
                from: *from,
                to: *to,
                content: content.clone(),
            },
            EventKind::MessageSent { from, to, content } => EventKind::MessageSent {
                from: *from,
                to: *to,
                content: content.clone(),
            },
            EventKind::AgentAction { actor, description } => EventKind::AgentAction {
                actor: *actor,
                description: description.clone(),
            },
            EventKind::AffectChanged { person } => EventKind::AffectChanged { person: *person },
            EventKind::Custom { description } => EventKind::Custom {
                description: description.clone(),
            },
        }
    }
}

#[derive(Debug, PartialEq)]
pub struct Event {
    pub id: EventId,
    pub timestamp: SimTime,
    /// Position in the durable run's single order of events, observations and
    /// actions. `WorldState` assigns event ids; `Run` assigns this sequence.
    pub trace_sequence: u64,
    /// The events this one is a consequence of.
    pub causal_parents: Vec<EventId>,
    pub kind: EventKind,
    /// Visibility belongs to the event, so the same latent event can produce
    /// different observations for different agents.
    pub visibility: Visibility,
    pub effects: Vec<StateEffect>,
}

/// The mathematical value of an `Event`.
#[verifier::ext_equal]
pub struct EventView {
    pub id: EventId,
    pub timestamp: SimTime,
    pub trace_sequence: u64,
    pub causal_parents: Seq<EventId>,
    pub kind: EventKindView,
    pub visibility: VisibilityView,
    pub effects: Seq<StateEffectView>,
}

impl View for Event {
    type V = EventView;

    open spec fn view(&self) -> EventView {
        EventView {
            id: self.id,
            timestamp: self.timestamp,
            trace_sequence: self.trace_sequence,
            causal_parents: self.causal_parents@,
            kind: self.kind@,
            visibility: self.visibility@,
            effects: views(self.effects@),
        }
    }
}

impl Clone for Event {
    fn clone(&self) -> (r: Self)
        ensures
            r@ == self@,
    {
        Event {
            id: self.id,
            timestamp: self.timestamp,
            trace_sequence: self.trace_sequence,
            causal_parents: copy_vec(&self.causal_parents),
            kind: self.kind.clone(),
            visibility: self.visibility.clone(),
            effects: duplicate_vec(&self.effects),
        }
    }
}

impl Duplicate for Event {
    fn duplicate(&self) -> (r: Self) {
        self.clone()
    }
}

} // verus!
