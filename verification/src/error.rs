//! The error kinds of the engine.
//!
//! Lookup failures and user-actionable failures propagate to the caller
//! unchanged; `Internal` marks invariant violations such as a double release
//! of a worktree reservation and must never be silently swallowed.

use vstd::prelude::*;
use vstd::string::*;

verus! {

#[derive(Debug, PartialEq, Eq)]
pub enum ServerError {
    /// No worktree with the given id is registered.
    WorktreeNotFound(u64),
    /// No agent with the given id is registered.
    AgentNotFound(u64),
    /// A repository operation was refused (missing branch, path collision,
    /// empty commit, rejected push, busy worktree).
    GitError(String),
    /// Spawning, signalling or writing to a process failed.
    ProcessError(String),
    /// A filesystem failure unrelated to git.
    IoError(String),
    /// An invariant violation: state machine corruption or a double release.
    Internal(String),
}

impl ServerError {
    /// A short human-readable label for the error kind.
    pub fn describe(&self) -> String {
        match self {
            ServerError::WorktreeNotFound(_) => String::from_str("worktree not found"),
            ServerError::AgentNotFound(_) => String::from_str("agent not found"),
            ServerError::GitError(_) => String::from_str("git operation failed"),
            ServerError::ProcessError(_) => String::from_str("process error"),
            ServerError::IoError(_) => String::from_str("io error"),
            ServerError::Internal(_) => String::from_str("internal error"),
        }
    }
}

} // verus!
