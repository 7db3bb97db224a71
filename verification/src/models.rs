//! The value shapes exposed to callers: worktrees, agents, their
//! configuration, and point-in-time git status snapshots.

use vstd::prelude::*;

verus! {

/// The lifecycle states an agent can occupy. `Terminated` is absorbing:
/// the state machine in [`crate::state`] gives it no outgoing edge.
#[derive(Clone, Copy, Debug, PartialEq, Eq, Structural)]
pub enum AgentState {
    Idle,
    Thinking,
    Executing,
    AwaitingInput,
    Paused,
    Terminated,
}

/// An isolated checkout of the repository at a branch.
///
/// Identity is `id`, generated by the registry at creation. Among live
/// worktrees, `path` is unique; a worktree is either free or reserved by
/// exactly one agent at a time.
#[derive(Debug)]
pub struct Worktree {
    pub id: u64,
    pub path: String,
    pub branch: String,
    pub is_bare: bool,
}

impl Clone for Worktree {
    fn clone(&self) -> (res: Self)
        ensures
            res == *self,
    {
        Worktree {
            id: self.id,
            path: self.path.clone(),
            branch: self.branch.clone(),
            is_bare: self.is_bare,
        }
    }
}

/// Immutable input to spawning an agent: which kind of agent to run and the
/// environment handed to the child process. A value, not an entity.
#[derive(Debug)]
pub struct AgentConfig {
    pub agent_type: String,
    pub environment: Vec<(String, String)>,
}

/// An agent instance. Identity is `id`; the agent is bound to exactly one
/// worktree for its whole lifetime. `pid` is set only while a process is
/// live and is cleared when the process exits or is killed.
#[derive(Clone, Copy, Debug)]
pub struct Agent {
    pub id: u64,
    pub worktree_id: u64,
    pub state: AgentState,
    pub pid: Option<u32>,
}

/// A point-in-time snapshot of a worktree's repository state; recomputed on
/// each query, never stored by callers.
#[derive(Debug)]
pub struct GitStatus {
    pub branch: String,
    pub staged: Vec<String>,
    pub unstaged: Vec<String>,
    pub untracked: Vec<String>,
    pub ahead: u32,
    pub behind: u32,
}

/// Two status snapshots carry the same observable facts.
pub open spec fn same_status(a: GitStatus, b: GitStatus) -> bool {
    &&& a.branch == b.branch
    &&& a.staged@ == b.staged@
    &&& a.unstaged@ == b.unstaged@
    &&& a.untracked@ == b.untracked@
    &&& a.ahead == b.ahead
    &&& a.behind == b.behind
}

impl Clone for GitStatus {
    fn clone(&self) -> (res: Self)
        ensures
            same_status(res, *self),
    {
        let res = GitStatus {
            branch: self.branch.clone(),
            staged: clone_strings(&self.staged),
            unstaged: clone_strings(&self.unstaged),
            untracked: clone_strings(&self.untracked),
            ahead: self.ahead,
            behind: self.behind,
        };
        proof {
            assert(res.staged@ =~= self.staged@);
            assert(res.unstaged@ =~= self.unstaged@);
            assert(res.untracked@ =~= self.untracked@);
        }
        res
    }
}

/// Copies a list of strings, keeping every element equal.
pub fn clone_strings(v: &Vec<String>) -> (r: Vec<String>)
    ensures
        r@.len() == v@.len(),
        forall|i: int| 0 <= i < v@.len() ==> r@[i] == v@[i],
{
    let mut r: Vec<String> = Vec::new();
    let mut i: usize = 0;
    while i < v.len()
        invariant
            i <= v@.len(),
            r@.len() == i,
            forall|j: int| 0 <= j < i ==> r@[j] == v@[j],
        decreases v@.len() - i,
    {
        r.push(v[i].clone());
        i = i + 1;
    }
    r
}

} // verus!
