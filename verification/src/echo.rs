//! A minimal deterministic agent that proves the closed loop.

use vstd::prelude::*;
use crate::agent::{Action, ActionView, Agent, Observation, ObservationView};
use vstd::string::*;

verus! {

/// Answers every observation by saying what it observed.
pub struct EchoAgent;

/// What the echo agent says about an observation with text `text`.
pub open spec fn echo_reply(text: Seq<char>) -> Seq<char> {
    "I observed: "@ + text
}

impl Agent for EchoAgent {
    /// The echo agent's only answer is to say what it observed.
    open spec fn answers(&self, observation: ObservationView, action: ActionView) -> bool {
        match observation {
            ObservationView::Text { text, .. } => action == ActionView::Say(echo_reply(text)),
        }
    }

    fn observe(&mut self, observation: Observation) -> (a: Action) {
        match observation {
            Observation::Text { text, .. } => Action::Say(String::from_str("I observed: ").concat(text.as_str())),
        }
    }
}

} // verus!
