//! The boundary between latent world truth and an agent.

use vstd::prelude::*;
use crate::ids::{EventId, PersonId};
use crate::duplicate::copy_vec;
use crate::time::SimTime;

verus! {

/// Observations are the deliberately lossy boundary between latent world
/// truth and an agent.
#[derive(Debug, PartialEq)]
pub enum Observation {
    Text { timestamp: SimTime, observer: PersonId, text: String, source_events: Vec<EventId> },
}

/// The mathematical value of an `Observation`.
pub enum ObservationView {
    Text { timestamp: SimTime, observer: PersonId, text: Seq<char>, source_events: Seq<EventId> },
}

impl View for Observation {
    type V = ObservationView;

    open spec fn view(&self) -> ObservationView {
        match *self {
            Observation::Text { timestamp, observer, text, source_events } => ObservationView::Text {
                timestamp,
                observer,
                text: text@,
                source_events: source_events@,
            },
        }
    }
}

impl Clone for Observation {
    fn clone(&self) -> (r: Self)
        ensures
            r@ == self@,
    {
        match self {
            Observation::Text { timestamp, observer, text, source_events } => Observation::Text {
                timestamp: *timestamp,
                observer: *observer,
                text: text.clone(),
                source_events: copy_vec(source_events),
            },
        }
    }
}

/// Something that inhabits the world: it receives observations and answers
/// with actions.
/// A decision-maker the simulation consults. It is handed only an
/// observation, never the latent world, and answers with an action.
pub trait Agent {
    /// Whether `action` is an answer this agent, in its current state, gives
    /// to `observation`.
    spec fn answers(&self, observation: ObservationView, action: ActionView) -> bool;

    fn observe(&mut self, observation: Observation) -> (action: Action)
        ensures
            old(self).answers(observation@, action@),
    ;
}

#[derive(Debug, PartialEq)]
pub struct AgentAction {
    pub actor: PersonId,
    pub action: Action,
}

#[derive(Debug, PartialEq)]
pub enum Action {
    Say(String),
    DoNothing,
}

/// The mathematical value of an `Action`.
pub enum ActionView {
    Say(Seq<char>),
    DoNothing,
}

impl View for Action {
    type V = ActionView;

    open spec fn view(&self) -> ActionView {
        match *self {
            Action::Say(text) => ActionView::Say(text@),
            Action::DoNothing => ActionView::DoNothing,
        }
    }
}

impl Clone for Action {
    fn clone(&self) -> (r: Self)
        ensures
            r == *self,
    {
        match self {
            Action::Say(text) => Action::Say(text.clone()),
            Action::DoNothing => Action::DoNothing,
        }
    }
}

} // verus!
