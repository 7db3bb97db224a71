//! The agent state machine.
//!
//! Output-driven signals move an agent along
//! `Idle -> Thinking -> Executing -> AwaitingInput -> Executing -> Idle`;
//! pausing is allowed from any non-terminal state and resuming restores the
//! state that was paused; termination and process exits are allowed from any
//! non-terminal state. `Terminated` is absorbing.

use vstd::prelude::*;
use vstd::string::*;

use crate::models::AgentState;

verus! {

/// The states an agent can be resumed into: every non-terminal state except
/// `Paused` itself.
pub open spec fn resumable(s: AgentState) -> bool {
    ||| s == AgentState::Idle
    ||| s == AgentState::Thinking
    ||| s == AgentState::Executing
    ||| s == AgentState::AwaitingInput
}

/// The edges driven by classifying the agent's own output stream.
pub open spec fn signal_edge(from: AgentState, to: AgentState) -> bool {
    ||| (from == AgentState::Idle && to == AgentState::Thinking)
    ||| (from == AgentState::Thinking && to == AgentState::Executing)
    ||| (from == AgentState::Executing && to == AgentState::AwaitingInput)
    ||| (from == AgentState::AwaitingInput && to == AgentState::Executing)
    ||| (from == AgentState::Executing && to == AgentState::Idle)
}

/// One observable step of the state machine: an output-driven signal, a
/// pause, a resume, a termination (operator request or crash), or a clean
/// process exit, which lands the agent in `Idle`. No step leaves
/// `Terminated`.
pub open spec fn valid_transition(from: AgentState, to: AgentState) -> bool {
    &&& from != AgentState::Terminated
    &&& {
        ||| to == AgentState::Terminated
        ||| to == AgentState::Idle
        ||| signal_edge(from, to)
        ||| (from != AgentState::Paused && to == AgentState::Paused)
        ||| (from == AgentState::Paused && resumable(to))
    }
}

/// A valid walk of the state machine: it starts in `Idle`, the state every
/// agent is created in, and every consecutive pair of states is a valid
/// transition.
pub open spec fn valid_walk(h: Seq<AgentState>) -> bool {
    &&& h.len() >= 1
    &&& h[0] == AgentState::Idle
    &&& forall|i: int| 0 <= i < h.len() - 1 ==> valid_transition(#[trigger] h[i], h[i + 1])
}

/// `Terminated` never has a successor: in a valid walk it can only be the
/// last observed state.
pub proof fn lemma_terminated_is_last(h: Seq<AgentState>, i: int)
    requires
        valid_walk(h),
        0 <= i < h.len(),
        h[i] == AgentState::Terminated,
    ensures
        i == h.len() - 1,
{
    if i < h.len() - 1 {
        assert(valid_transition(h[i], h[i + 1]));
        assert(false);
    }
}

/// Decides [`signal_edge`] at run time.
pub fn is_signal_edge(from: AgentState, to: AgentState) -> (r: bool)
    ensures
        r == signal_edge(from, to),
{
    match (from, to) {
        (AgentState::Idle, AgentState::Thinking) => true,
        (AgentState::Thinking, AgentState::Executing) => true,
        (AgentState::Executing, AgentState::AwaitingInput) => true,
        (AgentState::AwaitingInput, AgentState::Executing) => true,
        (AgentState::Executing, AgentState::Idle) => true,
        _ => false,
    }
}

/// A printable label for a state, used in error messages.
pub fn state_label(s: AgentState) -> String {
    match s {
        AgentState::Idle => String::from_str("Idle"),
        AgentState::Thinking => String::from_str("Thinking"),
        AgentState::Executing => String::from_str("Executing"),
        AgentState::AwaitingInput => String::from_str("AwaitingInput"),
        AgentState::Paused => String::from_str("Paused"),
        AgentState::Terminated => String::from_str("Terminated"),
    }
}

} // verus!
