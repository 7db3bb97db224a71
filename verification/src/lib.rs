//! An agent orchestration and worktree isolation engine.
//!
//! The crate coordinates three coupled lifecycles: the logical state machine
//! of a coding agent, the underlying OS process attached to a pseudo-terminal,
//! and exclusive access to the git worktree the agent mutates. The registries
//! here are the single authority for each entity; the surrounding shell feeds
//! them the outside events (process exits, output chunks, repository facts)
//! as plain values.

pub mod agent;
pub mod error;
pub mod git;
pub mod models;
pub mod pty;
pub mod state;
pub mod worktree;

pub use agent::AgentService;
pub use error::ServerError;
pub use git::GitService;
pub use pty::PtyService;
pub use worktree::WorktreeService;
pub use models::{Agent, AgentConfig, AgentState, GitStatus, Worktree};
