//! The agent orchestrator: the agent registry, the lifecycle state machine,
//! and the composition of worktree reservations, process control and input
//! gating.
//!
//! Each agent is bound to exactly one worktree for its whole lifetime and to
//! at most one live process. Lifecycle commands are validated against the
//! state machine in [`crate::state`]; terminating an agent kills its
//! process, releases its worktree reservation and discards queued input in
//! one step, so the three lifecycles can never drift apart.

use vstd::prelude::*;
use vstd::string::*;

use crate::error::ServerError;
use crate::models::{Agent, AgentConfig, AgentState};
use crate::pty::{PtyEvent, PtyService, killed_frame};
use crate::state::{resumable, signal_edge, valid_walk, valid_transition, is_signal_edge, state_label};
use crate::worktree::{WorktreeService, holder_update_frame};

verus! {

/// One registered agent: its public record, the state a pause will resume
/// into, the input queued while paused, and the history of observed states.
pub struct AgentRecord {
    pub agent: Agent,
    pub resume_state: AgentState,
    pub queued_input: Vec<String>,
    pub history: Ghost<Seq<AgentState>>,
}

/// Every agent record obeys the state machine: its history is a valid walk
/// ending in its current state, input is queued only while paused, and a
/// terminated agent has no process.
pub open spec fn wf_record(r: AgentRecord) -> bool {
    &&& valid_walk(r.history@)
    &&& r.history@.last() == r.agent.state
    &&& resumable(r.resume_state)
    &&& r.agent.state != AgentState::Paused ==> r.queued_input@.len() == 0
    &&& r.agent.state == AgentState::Terminated ==> r.agent.pid is None
}

/// Owns the agent registry and serializes lifecycle commands per agent.
pub struct AgentService {
    pub records: Vec<AgentRecord>,
    pub next_agent_id: u64,
}

impl AgentService {
    /// Well-formedness: unique agent ids below the id counter, and every
    /// record obeying the state machine.
    pub open spec fn wf(self) -> bool {
        &&& forall|i: int, j: int|
            0 <= i < j < self.records@.len() ==> #[trigger] self.records@[i].agent.id
                != #[trigger] self.records@[j].agent.id
        &&& forall|i: int|
            0 <= i < self.records@.len() ==> #[trigger] self.records@[i].agent.id
                < self.next_agent_id
        &&& forall|i: int| 0 <= i < self.records@.len() ==> wf_record(#[trigger] self.records@[i])
    }

    /// An agent with this id is registered (live or terminated).
    pub open spec fn contains_agent(self, agent_id: u64) -> bool {
        exists|i: int| 0 <= i < self.records@.len() && #[trigger] self.records@[i].agent.id == agent_id
    }

    /// The index of this agent's record.
    pub open spec fn agent_idx(self, agent_id: u64) -> int {
        choose|i: int| 0 <= i < self.records@.len() && #[trigger] self.records@[i].agent.id == agent_id
    }

    /// This agent's record.
    pub open spec fn record_of(self, agent_id: u64) -> AgentRecord {
        self.records@[self.agent_idx(agent_id)]
    }

    /// This agent's public value.
    pub open spec fn agent_of(self, agent_id: u64) -> Agent {
        self.record_of(agent_id).agent
    }

    /// The states this agent has been observed in, in order.
    pub open spec fn history_of(self, agent_id: u64) -> Seq<AgentState> {
        self.record_of(agent_id).history@
    }

    /// The input queued for this agent while it is paused.
    pub open spec fn queued_of(self, agent_id: u64) -> Seq<String> {
        self.record_of(agent_id).queued_input@
    }

    /// With unique ids, the record found at an index is the one `agent_idx`
    /// picks for its agent.
    pub proof fn lemma_agent_idx(self, i: int)
        requires
            self.wf(),
            0 <= i < self.records@.len(),
        ensures
            self.contains_agent(self.records@[i].agent.id),
            self.agent_idx(self.records@[i].agent.id) == i,
    {
        let a = self.records@[i].agent.id;
        assert(self.contains_agent(a));
        let j = self.agent_idx(a);
        if j < i {
            assert(self.records@[j].agent.id != self.records@[i].agent.id);
        } else if i < j {
            assert(self.records@[i].agent.id != self.records@[j].agent.id);
        }
    }

    /// An empty registry.
    pub fn new() -> (s: Self)
        ensures
            s.wf(),
            s.records@.len() == 0,
            s.next_agent_id == 0,
    {
        AgentService { records: Vec::new(), next_agent_id: 0 }
    }

    /// Finds the index of this agent's record.
    fn find_record(&self, agent_id: u64) -> (r: Option<usize>)
        requires
            self.wf(),
        ensures
            match r {
                Some(i) => {
                    &&& i < self.records@.len()
                    &&& self.records@[i as int].agent.id == agent_id
                    &&& self.contains_agent(agent_id)
                    &&& self.agent_idx(agent_id) == i
                },
                None => !self.contains_agent(agent_id),
            },
    {
        let mut i: usize = 0;
        while i < self.records.len()
            invariant
                self.wf(),
                i <= self.records@.len(),
                forall|j: int| 0 <= j < i ==> #[trigger] self.records@[j].agent.id != agent_id,
            decreases self.records@.len() - i,
        {
            if self.records[i].agent.id == agent_id {
                proof {
                    self.lemma_agent_idx(i as int);
                }
                return Some(i);
            }
            i = i + 1;
        }
        None
    }

    /// Returns this agent's current public record.
    pub fn get_agent(&self, agent_id: u64) -> (r: Result<Agent, ServerError>)
        requires
            self.wf(),
        ensures
            (r matches Ok(_)) <==> self.contains_agent(agent_id),
            !self.contains_agent(agent_id) ==> r == Err::<Agent, ServerError>(
                ServerError::AgentNotFound(agent_id),
            ),
            r matches Ok(a) ==> a == self.agent_of(agent_id),
    {
        match self.find_record(agent_id) {
            None => Err(ServerError::AgentNotFound(agent_id)),
            Some(i) => Ok(self.records[i].agent),
        }
    }

    /// Applies one output-driven transition that the external classifier
    /// reports. Only the signal edges of the state machine are accepted;
    /// anything else is rejected as an invalid transition, naming the
    /// current state and the requested one.
    pub fn apply_transition(&mut self, agent_id: u64, target: AgentState) -> (r: Result<
        (),
        ServerError,
    >)
        requires
            old(self).wf(),
        ensures
            final(self).wf(),
            (r matches Ok(_)) <==> (old(self).contains_agent(agent_id) && signal_edge(
                old(self).agent_of(agent_id).state,
                target,
            )),
            !old(self).contains_agent(agent_id) ==> r == Err::<(), ServerError>(
                ServerError::AgentNotFound(agent_id),
            ),
            old(self).contains_agent(agent_id) && !signal_edge(
                old(self).agent_of(agent_id).state,
                target,
            ) ==> (r matches Err(e) && e matches ServerError::Internal(_)),
            r is Err ==> *final(self) == *old(self),
            r matches Ok(_) ==> record_step_frame(*old(self), *final(self), agent_id, target),
            r matches Ok(_) ==> final(self).queued_of(agent_id) == old(self).queued_of(agent_id),
            same_link_shape(*old(self), *final(self)),
    {
        let i = match self.find_record(agent_id) {
            None => {
                return Err(ServerError::AgentNotFound(agent_id));
            },
            Some(i) => i,
        };
        let from = self.records[i].agent.state;
        if !is_signal_edge(from, target) {
            return Err(self.invalid_transition(from, target));
        }
        let ghost pre = *self;
        self.records[i].agent.state = target;
        self.records[i].history = Ghost(self.records@[i as int].history@.push(target));
        proof {
            assert(wf_record(self.records@[i as int]));
            lemma_record_update_frame(pre, *self, i as int);
        }
        Ok(())
    }

    /// Builds the "invalid transition" error, naming the current state and
    /// the requested one.
    fn invalid_transition(&self, from: AgentState, to: AgentState) -> (e: ServerError)
        ensures
            e matches ServerError::Internal(_),
    {
        let mut m = String::from_str("invalid transition from ");
        m.append(state_label(from).as_str());
        m.append(" to ");
        m.append(state_label(to).as_str());
        ServerError::Internal(m)
    }

    /// Suspends input delivery to the agent. The process is not killed,
    /// only gated: input sent while paused is queued, never dropped.
    /// Pausing an already paused agent is a no-op, not an error.
    pub fn pause_agent(&mut self, agent_id: u64) -> (r: Result<(), ServerError>)
        requires
            old(self).wf(),
        ensures
            final(self).wf(),
            (r matches Ok(_)) <==> (old(self).contains_agent(agent_id) && old(self).agent_of(agent_id).state != AgentState::Terminated),
            !old(self).contains_agent(agent_id) ==> r == Err::<(), ServerError>(
                ServerError::AgentNotFound(agent_id),
            ),
            old(self).contains_agent(agent_id) && old(self).agent_of(agent_id).state
                == AgentState::Terminated ==> (r matches Err(e) && e matches ServerError::Internal(_)),
            r is Err ==> *final(self) == *old(self),
            r matches Ok(_) && old(self).agent_of(agent_id).state == AgentState::Paused ==> *final(self) == *old(self),
            r matches Ok(_) && old(self).agent_of(agent_id).state != AgentState::Paused ==> {
                &&& record_step_frame(*old(self), *final(self), agent_id, AgentState::Paused)
                &&& final(self).record_of(agent_id).resume_state == old(self).agent_of(agent_id).state
                &&& final(self).queued_of(agent_id) == old(self).queued_of(agent_id)
            },
            same_link_shape(*old(self), *final(self)),
    {
        let i = match self.find_record(agent_id) {
            None => {
                return Err(ServerError::AgentNotFound(agent_id));
            },
            Some(i) => i,
        };
        let from = self.records[i].agent.state;
        if matches!(from, AgentState::Terminated) {
            return Err(self.invalid_transition(from, AgentState::Paused));
        }
        if matches!(from, AgentState::Paused) {
            return Ok(());
        }
        let ghost pre = *self;
        self.records[i].agent.state = AgentState::Paused;
        self.records[i].resume_state = from;
        self.records[i].history = Ghost(self.records@[i as int].history@.push(AgentState::Paused));
        proof {
            assert(wf_record(self.records@[i as int]));
            lemma_record_update_frame(pre, *self, i as int);
        }
        Ok(())
    }

    /// Resumes a paused agent into the state it was paused from and flushes
    /// the queued input to the process, in order. If the process has
    /// meanwhile exited, the queued input has nowhere to go and is
    /// discarded, the benign no-op the exit race calls for.
    pub fn resume_agent(&mut self, pty: &mut PtyService, agent_id: u64) -> (r: Result<
        (),
        ServerError,
    >)
        requires
            old(self).wf(),
            old(pty).wf(),
        ensures
            final(self).wf(),
            final(pty).wf(),
            (r matches Ok(_)) <==> (old(self).contains_agent(agent_id) && old(self).agent_of(agent_id).state == AgentState::Paused),
            !old(self).contains_agent(agent_id) ==> r == Err::<(), ServerError>(
                ServerError::AgentNotFound(agent_id),
            ),
            old(self).contains_agent(agent_id) && old(self).agent_of(agent_id).state
                != AgentState::Paused ==> (r matches Err(e) && e matches ServerError::Internal(_)),
            r is Err ==> *final(self) == *old(self) && *final(pty) == *old(pty),
            r matches Ok(_) ==> record_step_frame(
                *old(self),
                *final(self),
                agent_id,
                old(self).record_of(agent_id).resume_state,
            ),
            r matches Ok(_) ==> final(self).queued_of(agent_id).len() == 0,
            r matches Ok(_) && old(pty).agent_alive(agent_id) ==> ({
                &&& final(pty).input_of(agent_id) == old(pty).input_of(agent_id) + old(self).queued_of(agent_id)
                &&& final(pty).output_of(agent_id) == old(pty).output_of(agent_id)
                &&& pty_input_frame(*old(pty), *final(pty), agent_id)
            }),
            r matches Ok(_) && !old(pty).agent_alive(agent_id) ==> *final(pty) == *old(pty),
            same_link_shape(*old(self), *final(self)),
    {
        let i = match self.find_record(agent_id) {
            None => {
                return Err(ServerError::AgentNotFound(agent_id));
            },
            Some(i) => i,
        };
        let from = self.records[i].agent.state;
        let to = self.records[i].resume_state;
        if !matches!(from, AgentState::Paused) {
            return Err(self.invalid_transition(from, to));
        }
        if pty.is_agent_alive(agent_id) {
            let qlen = self.records[i].queued_input.len();
            let mut k: usize = 0;
            while k < qlen
                invariant
                    *self == *old(self),
                    self.wf(),
                    pty.wf(),
                    i < self.records@.len(),
                    qlen == self.records@[i as int].queued_input@.len(),
                    k <= qlen,
                    pty.agent_alive(agent_id),
                    pty.input_of(agent_id) == old(pty).input_of(agent_id) + self.records@[
                        i as int
                    ].queued_input@.subrange(0, k as int),
                    pty.output_of(agent_id) == old(pty).output_of(agent_id),
                    pty_input_frame(*old(pty), *pty, agent_id),
                decreases qlen - k,
            {
                let ghost mid = *pty;
                let chunk = self.records[i].queued_input[k].clone();
                let sent = pty.send_pty_input(agent_id, chunk);
                proof {
                    assert(sent is Ok);
                    lemma_send_frame(mid, *pty, agent_id);
                    assert(pty.input_of(agent_id) == old(pty).input_of(agent_id) + self.records@[
                        i as int
                    ].queued_input@.subrange(0, k as int).push(
                        self.records@[i as int].queued_input@[k as int],
                    ));
                    assert(self.records@[i as int].queued_input@.subrange(0, k as int).push(
                        self.records@[i as int].queued_input@[k as int],
                    ) =~= self.records@[i as int].queued_input@.subrange(0, k as int + 1));
                    lemma_pty_input_frame_trans(*old(pty), mid, *pty, agent_id);
                }
                k = k + 1;
            }
            proof {
                assert(self.records@[i as int].queued_input@.subrange(0, qlen as int)
                    =~= self.records@[i as int].queued_input@);
            }
        }
        let ghost pre = *self;
        self.records[i].agent.state = to;
        self.records[i].queued_input.clear();
        self.records[i].history = Ghost(self.records@[i as int].history@.push(to));
        proof {
            assert(valid_transition(AgentState::Paused, to));
            assert(wf_record(self.records@[i as int]));
            lemma_record_update_frame(pre, *self, i as int);
        }
        Ok(())
    }

    /// Delivers input to the agent. While the agent is paused the input is
    /// queued; otherwise it is written straight to the process's pty. Input
    /// for a terminated agent has no process to go to.
    pub fn send_input(&mut self, pty: &mut PtyService, agent_id: u64, input: String) -> (r: Result<
        (),
        ServerError,
    >)
        requires
            old(self).wf(),
            old(pty).wf(),
        ensures
            final(self).wf(),
            final(pty).wf(),
            (r matches Ok(_)) <==> (old(self).contains_agent(agent_id) && ({
                let st = old(self).agent_of(agent_id).state;
                ||| st == AgentState::Paused
                ||| (st != AgentState::Terminated && old(pty).agent_alive(agent_id))
            })),
            !old(self).contains_agent(agent_id) ==> (r == Err::<(), ServerError>(
                ServerError::AgentNotFound(agent_id),
            ) && *final(pty) == *old(pty)),
            old(self).contains_agent(agent_id) && old(self).agent_of(agent_id).state
                == AgentState::Terminated ==> (r matches Err(e) && e matches
                ServerError::ProcessError(_) && *final(pty) == *old(pty)),
            r is Err ==> *final(self) == *old(self),
            old(self).contains_agent(agent_id) && old(self).agent_of(agent_id).state
                == AgentState::Paused ==> {
                &&& r matches Ok(_)
                &&& *final(pty) == *old(pty)
                &&& queued_push_frame(*old(self), *final(self), agent_id, input)
            },
            old(self).contains_agent(agent_id) && old(self).agent_of(agent_id).state
                != AgentState::Paused && old(self).agent_of(agent_id).state
                != AgentState::Terminated ==> {
                &&& *final(self) == *old(self)
                &&& (r matches Ok(_) ==> final(pty).input_of(agent_id) == old(pty).input_of(agent_id).push(input) && pty_input_frame(*old(pty), *final(pty), agent_id) && final(pty).output_of(agent_id) == old(pty).output_of(agent_id))
                &&& (r is Err ==> *final(pty) == *old(pty))
            },
            same_link_shape(*old(self), *final(self)),
    {
        let i = match self.find_record(agent_id) {
            None => {
                return Err(ServerError::AgentNotFound(agent_id));
            },
            Some(i) => i,
        };
        let st = self.records[i].agent.state;
        if matches!(st, AgentState::Terminated) {
            return Err(ServerError::ProcessError(String::from_str("process not running")));
        }
        if matches!(st, AgentState::Paused) {
            let ghost pre = *self;
            self.records[i].queued_input.push(input);
            proof {
                assert(wf_record(self.records@[i as int]));
                lemma_record_update_frame(pre, *self, i as int);
            }
            return Ok(());
        }
        let sent = pty.send_pty_input(agent_id, input);
        proof {
            if sent is Ok {
                lemma_send_frame(*old(pty), *pty, agent_id);
            }
        }
        sent
    }
    /// Spawns a new agent bound to a free worktree: reserves the worktree,
    /// launches the process, and registers the agent in `Idle`. A worktree
    /// already associated with a live agent is refused as busy.
    pub fn spawn_agent(
        &mut self,
        worktrees: &mut WorktreeService,
        pty: &mut PtyService,
        worktree_id: u64,
        config: AgentConfig,
    ) -> (r: Result<Agent, ServerError>)
        requires
            wf_system(*old(self), *old(worktrees), *old(pty)),
        ensures
            wf_system(*final(self), *final(worktrees), *final(pty)),
            (r matches Ok(_)) <==> (old(worktrees).contains_id(worktree_id) && old(worktrees).holder_of(worktree_id) is None && config.agent_type@.len() > 0 && old(self).next_agent_id < u64::MAX && old(pty).next_pid < u32::MAX),
            !old(worktrees).contains_id(worktree_id) ==> r == Err::<Agent, ServerError>(
                ServerError::WorktreeNotFound(worktree_id),
            ),
            old(worktrees).contains_id(worktree_id) && old(worktrees).holder_of(
                worktree_id,
            ) is Some ==> (r matches Err(e) && e matches ServerError::GitError(_)),
            old(worktrees).contains_id(worktree_id) && old(worktrees).holder_of(
                worktree_id,
            ) is None && config.agent_type@.len() == 0 ==> (r matches Err(e) && e matches
                ServerError::ProcessError(_)),
            r is Err ==> *final(self) == *old(self) && *final(worktrees) == *old(worktrees)
                && *final(pty) == *old(pty),
            r matches Ok(a) ==> {
                &&& a.id == old(self).next_agent_id
                &&& a.worktree_id == worktree_id
                &&& a.state == AgentState::Idle
                &&& a.pid == Some(old(pty).next_pid)
                &&& final(self).contains_agent(a.id)
                &&& final(self).agent_of(a.id) == a
                &&& final(self).history_of(a.id) == seq![AgentState::Idle]
                &&& final(self).queued_of(a.id).len() == 0
                &&& final(self).next_agent_id == old(self).next_agent_id + 1
                &&& final(self).records@.len() == old(self).records@.len() + 1
                &&& forall|x: u64|
                    x != a.id ==> #[trigger] final(self).contains_agent(x) == old(self).contains_agent(x)
                &&& forall|x: u64|
                    x != a.id && #[trigger] old(self).contains_agent(x) ==> final(self).record_of(x)
                        == old(self).record_of(x)
                &&& holder_update_frame(*old(worktrees), *final(worktrees), worktree_id, Some(a.id))
                &&& final(pty).agent_alive(a.id)
                &&& final(pty).pid_of(a.id) == old(pty).next_pid
                &&& final(pty).output_of(a.id).len() == 0
                &&& final(pty).input_of(a.id).len() == 0
                &&& forall|x: u64|
                    x != a.id ==> #[trigger] final(pty).has_proc(x) == old(pty).has_proc(x)
                &&& forall|x: u64|
                    x != a.id && #[trigger] old(pty).has_proc(x) ==> final(pty).proc_of(x) == old(pty).proc_of(x)
                &&& final(pty).subs@ == old(pty).subs@
                &&& final(pty).events@ == old(pty).events@
            },
    {
        let wi = match worktrees.find_entry(worktree_id) {
            None => {
                return Err(ServerError::WorktreeNotFound(worktree_id));
            },
            Some(wi) => wi,
        };
        if worktrees.entries[wi].holder.is_some() {
            return Err(ServerError::GitError(String::from_str("worktree is busy")));
        }
        if config.agent_type.as_str().is_empty() {
            return Err(ServerError::ProcessError(String::from_str("executable not found")));
        }
        if self.next_agent_id == u64::MAX {
            return Err(ServerError::Internal(String::from_str("agent id space exhausted")));
        }
        if pty.next_pid == u32::MAX {
            return Err(ServerError::Internal(String::from_str("pid space exhausted")));
        }
        let aid = self.next_agent_id;
        proof {
            if pty.has_proc(aid) {
                let j = pty.proc_idx(aid);
                assert(pty.procs@[j].agent_id == aid);
                assert(false);
            }
        }
        let pid = match pty.spawn(aid, &config) {
            Ok(p) => p,
            Err(e) => {
                proof {
                    assert(false);
                }
                return Err(e);
            },
        };
        let reserved = worktrees.reserve(worktree_id, aid);
        match reserved {
            Err(e) => {
                proof {
                    assert(false);
                }
                return Err(e);
            },
            Ok(_) => {},
        }
        let agent = Agent { id: aid, worktree_id, state: AgentState::Idle, pid: Some(pid) };
        let ghost pre = *self;
        let ghost h0: Seq<AgentState> = seq![AgentState::Idle];
        self.records.push(
            AgentRecord {
                agent,
                resume_state: AgentState::Idle,
                queued_input: Vec::new(),
                history: Ghost(h0),
            },
        );
        self.next_agent_id = aid + 1;
        proof {
            let n = pre.records@.len() as int;
            assert(wf_record(self.records@[n])) by {
                let h = seq![AgentState::Idle];
                assert(h.len() == 1 && h[0] == AgentState::Idle);
                assert(h.last() == AgentState::Idle);
            }
            lemma_record_push_frame(pre, *self);
            lemma_spawn_links(pre, *self, *old(worktrees), *worktrees, *old(pty), *pty, agent);
        }
        Ok(agent)
    }

    /// Terminates an agent from any state: kills its process, releases its
    /// worktree reservation and discards queued input in one step.
    /// Idempotent: terminating an already terminated agent succeeds
    /// silently and changes nothing.
    pub fn terminate_agent(
        &mut self,
        worktrees: &mut WorktreeService,
        pty: &mut PtyService,
        agent_id: u64,
    ) -> (r: Result<(), ServerError>)
        requires
            wf_system(*old(self), *old(worktrees), *old(pty)),
        ensures
            wf_system(*final(self), *final(worktrees), *final(pty)),
            (r matches Ok(_)) <==> old(self).contains_agent(agent_id),
            !old(self).contains_agent(agent_id) ==> r == Err::<(), ServerError>(
                ServerError::AgentNotFound(agent_id),
            ),
            r is Err ==> *final(self) == *old(self) && *final(worktrees) == *old(worktrees)
                && *final(pty) == *old(pty),
            old(self).contains_agent(agent_id) && old(self).agent_of(agent_id).state
                == AgentState::Terminated ==> *final(self) == *old(self) && *final(worktrees)
                == *old(worktrees) && *final(pty) == *old(pty),
            old(self).contains_agent(agent_id) && old(self).agent_of(agent_id).state
                != AgentState::Terminated ==> {
                &&& terminated_record_frame(*old(self), *final(self), agent_id)
                &&& (old(self).agent_of(agent_id).pid is Some ==> holder_update_frame(
                    *old(worktrees),
                    *final(worktrees),
                    old(self).agent_of(agent_id).worktree_id,
                    None,
                ))
                &&& (old(self).agent_of(agent_id).pid is None ==> *final(worktrees) == *old(worktrees))
                &&& (old(self).agent_of(agent_id).pid is Some && old(pty).agent_alive(agent_id)
                    ==> killed_frame(*old(pty), *final(pty), agent_id) && final(pty).events@ == old(pty).events@.push((PtyEvent { agent_id, clean: false })))
                &&& (old(self).agent_of(agent_id).pid is Some && !old(pty).agent_alive(agent_id)
                    ==> *final(pty) == *old(pty))
                &&& (old(self).agent_of(agent_id).pid is None ==> *final(pty) == *old(pty))
            },
    {
        let i = match self.find_record(agent_id) {
            None => {
                return Err(ServerError::AgentNotFound(agent_id));
            },
            Some(i) => i,
        };
        let a = self.records[i].agent;
        if matches!(a.state, AgentState::Terminated) {
            return Ok(());
        }
        match a.pid {
            None => {},
            Some(p) => {
                proof {
                    assert(pty.has_proc(agent_id) && pty.pid_of(agent_id) == p);
                    let j = pty.proc_idx(agent_id);
                    pty.lemma_pid_idx(j);
                    assert(pty.has_pid(p) && pty.pid_idx(p) == j);
                    assert(pty.procs@[pty.pid_idx(p)].agent_id == agent_id);
                    assert(pty.procs@[pty.pid_idx(p)].alive == pty.agent_alive(agent_id));
                }
                let _killed = pty.kill_process(p);
                let released = worktrees.release(a.worktree_id, agent_id);
                match released {
                    Err(e) => {
                        proof {
                            assert(false);
                        }
                        return Err(e);
                    },
                    Ok(_) => {},
                }
            },
        }
        let ghost pre = *self;
        self.records[i].agent.state = AgentState::Terminated;
        self.records[i].agent.pid = None;
        self.records[i].queued_input.clear();
        self.records[i].history = Ghost(
            self.records@[i as int].history@.push(AgentState::Terminated),
        );
        proof {
            assert(valid_transition(a.state, AgentState::Terminated));
            assert(wf_record(self.records@[i as int]));
            lemma_record_update_frame(pre, *self, i as int);
            lemma_released_links(pre, *self, *old(worktrees), *worktrees, *old(pty), *pty, agent_id);
        }
        Ok(())
    }

    /// Handles a process exit event from the controller: the sole trigger
    /// for clearing `pid`. If termination was requested the agent is
    /// already `Terminated` and nothing changes. Otherwise this is an
    /// unexpected exit: a clean exit frees the worktree and returns the
    /// agent to `Idle`; a crash terminates it.
    pub fn handle_exit(
        &mut self,
        worktrees: &mut WorktreeService,
        pty: &PtyService,
        agent_id: u64,
        clean: bool,
    ) -> (r: Result<(), ServerError>)
        requires
            old(self).wf(),
            old(worktrees).wf(),
            pty.wf(),
            linked_worktrees(*old(self), *old(worktrees)),
            linked_procs(*old(self), *pty),
            !pty.agent_alive(agent_id),
        ensures
            final(self).wf(),
            final(worktrees).wf(),
            linked_worktrees(*final(self), *final(worktrees)),
            linked_procs(*final(self), *pty),
            (r matches Ok(_)) <==> old(self).contains_agent(agent_id),
            !old(self).contains_agent(agent_id) ==> r == Err::<(), ServerError>(
                ServerError::AgentNotFound(agent_id),
            ),
            r is Err ==> *final(self) == *old(self) && *final(worktrees) == *old(worktrees),
            old(self).contains_agent(agent_id) && (old(self).agent_of(agent_id).state
                == AgentState::Terminated || old(self).agent_of(agent_id).pid is None) ==> *final(self) == *old(self) && *final(worktrees) == *old(worktrees),
            old(self).contains_agent(agent_id) && old(self).agent_of(agent_id).state
                != AgentState::Terminated && old(self).agent_of(agent_id).pid is Some ==> {
                &&& final(self).agent_of(agent_id).state == (if clean {
                    AgentState::Idle
                } else {
                    AgentState::Terminated
                })
                &&& final(self).agent_of(agent_id).pid is None
                &&& final(self).agent_of(agent_id).id == agent_id
                &&& final(self).agent_of(agent_id).worktree_id == old(self).agent_of(agent_id).worktree_id
                &&& final(self).history_of(agent_id) == old(self).history_of(agent_id).push(
                    if clean {
                        AgentState::Idle
                    } else {
                        AgentState::Terminated
                    },
                )
                &&& final(self).queued_of(agent_id).len() == 0
                &&& forall|x: u64|
                    #[trigger] final(self).contains_agent(x) == old(self).contains_agent(x)
                &&& forall|x: u64|
                    x != agent_id && #[trigger] old(self).contains_agent(x) ==> final(self).record_of(x) == old(self).record_of(x)
                &&& holder_update_frame(
                    *old(worktrees),
                    *final(worktrees),
                    old(self).agent_of(agent_id).worktree_id,
                    None,
                )
            },
    {
        let i = match self.find_record(agent_id) {
            None => {
                return Err(ServerError::AgentNotFound(agent_id));
            },
            Some(i) => i,
        };
        let a = self.records[i].agent;
        if matches!(a.state, AgentState::Terminated) {
            return Ok(());
        }
        if a.pid.is_none() {
            return Ok(());
        }
        let released = worktrees.release(a.worktree_id, agent_id);
        match released {
            Err(e) => {
                proof {
                    assert(false);
                }
                return Err(e);
            },
            Ok(_) => {},
        }
        let to = if clean {
            AgentState::Idle
        } else {
            AgentState::Terminated
        };
        let ghost pre = *self;
        self.records[i].agent.state = to;
        self.records[i].agent.pid = None;
        self.records[i].queued_input.clear();
        self.records[i].history = Ghost(self.records@[i as int].history@.push(to));
        proof {
            assert(valid_transition(a.state, to));
            assert(wf_record(self.records@[i as int]));
            lemma_record_update_frame(pre, *self, i as int);
            lemma_released_links(pre, *self, *old(worktrees), *worktrees, *pty, *pty, agent_id);
        }
        Ok(())
    }
}


/// What one accepted lifecycle step changes in the registry: the agent
/// moves to `target`, its history is extended by exactly that state, its
/// identity, worktree and process are untouched, and every other record is
/// untouched.
pub open spec fn record_step_frame(
    pre: AgentService,
    post: AgentService,
    agent_id: u64,
    target: AgentState,
) -> bool {
    &&& pre.contains_agent(agent_id)
    &&& post.contains_agent(agent_id)
    &&& post.agent_of(agent_id).state == target
    &&& post.agent_of(agent_id).id == pre.agent_of(agent_id).id
    &&& post.agent_of(agent_id).worktree_id == pre.agent_of(agent_id).worktree_id
    &&& post.agent_of(agent_id).pid == pre.agent_of(agent_id).pid
    &&& post.history_of(agent_id) == pre.history_of(agent_id).push(target)
    &&& forall|x: u64| #[trigger] post.contains_agent(x) == pre.contains_agent(x)
    &&& forall|x: u64|
        x != agent_id && #[trigger] pre.contains_agent(x) ==> post.record_of(x) == pre.record_of(x)
    &&& post.records@.len() == pre.records@.len()
    &&& post.next_agent_id == pre.next_agent_id
}

/// What queueing one input chunk changes in the registry: only that
/// agent's queue grows, by exactly that chunk, at the end.
pub open spec fn queued_push_frame(
    pre: AgentService,
    post: AgentService,
    agent_id: u64,
    input: String,
) -> bool {
    &&& post.queued_of(agent_id) == pre.queued_of(agent_id).push(input)
    &&& post.agent_of(agent_id) == pre.agent_of(agent_id)
    &&& post.record_of(agent_id).resume_state == pre.record_of(agent_id).resume_state
    &&& post.history_of(agent_id) == pre.history_of(agent_id)
    &&& forall|x: u64| #[trigger] post.contains_agent(x) == pre.contains_agent(x)
    &&& forall|x: u64|
        x != agent_id && #[trigger] pre.contains_agent(x) ==> post.record_of(x) == pre.record_of(x)
    &&& post.records@.len() == pre.records@.len()
    &&& post.next_agent_id == pre.next_agent_id
}

/// What writing to one agent's pty leaves untouched in the controller:
/// every process's registration, liveness and pid, every other process's
/// input, and all subscriptions, events and counters.
pub open spec fn pty_input_frame(pre: PtyService, post: PtyService, agent_id: u64) -> bool {
    &&& forall|a: u64| #[trigger] post.has_proc(a) == pre.has_proc(a)
    &&& forall|a: u64| #[trigger] post.agent_alive(a) == pre.agent_alive(a)
    &&& forall|a: u64| #[trigger] pre.has_proc(a) ==> post.pid_of(a) == pre.pid_of(a)
    &&& forall|a: u64|
        a != agent_id && #[trigger] pre.has_proc(a) ==> post.proc_of(a) == pre.proc_of(a)
    &&& post.procs@.len() == pre.procs@.len()
    &&& post.subs@ == pre.subs@
    &&& post.events@ == pre.events@
    &&& post.next_pid == pre.next_pid
    &&& post.next_sub_id == pre.next_sub_id
}

/// Assembles [`pty_input_frame`] from the per-process facts a single
/// write to one agent's pty leaves behind.
proof fn lemma_send_frame(pre: PtyService, post: PtyService, agent_id: u64)
    requires
        pre.agent_alive(agent_id),
        post.agent_alive(agent_id),
        post.pid_of(agent_id) == pre.pid_of(agent_id),
        forall|a: u64| #[trigger] post.has_proc(a) == pre.has_proc(a),
        forall|a: u64|
            a != agent_id && #[trigger] pre.has_proc(a) ==> post.proc_of(a) == pre.proc_of(a),
        post.procs@.len() == pre.procs@.len(),
        post.subs@ == pre.subs@,
        post.events@ == pre.events@,
        post.next_pid == pre.next_pid,
        post.next_sub_id == pre.next_sub_id,
    ensures
        pty_input_frame(pre, post, agent_id),
{
    assert forall|a: u64| #[trigger] post.agent_alive(a) == pre.agent_alive(a) by {
        if a != agent_id && pre.has_proc(a) {
            assert(post.proc_of(a) == pre.proc_of(a));
        }
    }
    assert forall|a: u64| #[trigger] pre.has_proc(a) implies post.pid_of(a) == pre.pid_of(a) by {
        if a != agent_id {
            assert(post.proc_of(a) == pre.proc_of(a));
        }
    }
}

/// [`pty_input_frame`] composes across consecutive writes.
proof fn lemma_pty_input_frame_trans(a: PtyService, b: PtyService, c: PtyService, agent_id: u64)
    requires
        pty_input_frame(a, b, agent_id),
        pty_input_frame(b, c, agent_id),
    ensures
        pty_input_frame(a, c, agent_id),
{
    assert forall|x: u64| x != agent_id && #[trigger] a.has_proc(x) implies c.proc_of(x)
        == a.proc_of(x) by {
        assert(b.has_proc(x));
    }
    assert forall|x: u64| #[trigger] a.has_proc(x) implies c.pid_of(x) == a.pid_of(x) by {
        assert(b.has_proc(x));
    }
}

/// Replacing one record, keeping its agent id and record well-formedness,
/// keeps the registry well formed; every other record is untouched.
proof fn lemma_record_update_frame(pre: AgentService, post: AgentService, k: int)
    requires
        pre.wf(),
        0 <= k < pre.records@.len(),
        post.records@.len() == pre.records@.len(),
        forall|i: int| 0 <= i < pre.records@.len() && i != k ==> post.records@[i] == pre.records@[i],
        post.records@[k].agent.id == pre.records@[k].agent.id,
        wf_record(post.records@[k]),
        post.next_agent_id == pre.next_agent_id,
    ensures
        post.wf(),
        post.contains_agent(pre.records@[k].agent.id),
        post.agent_idx(pre.records@[k].agent.id) == k,
        post.record_of(pre.records@[k].agent.id) == post.records@[k],
        forall|x: u64| #[trigger] post.contains_agent(x) == pre.contains_agent(x),
        forall|x: u64|
            x != pre.records@[k].agent.id && #[trigger] pre.contains_agent(x) ==> post.record_of(x)
                == pre.record_of(x) && post.agent_idx(x) == pre.agent_idx(x),
        same_link_shape(pre, post) == (post.records@[k].agent.worktree_id
            == pre.records@[k].agent.worktree_id && post.records@[k].agent.pid
            == pre.records@[k].agent.pid),
{
    let aid = pre.records@[k].agent.id;
    assert forall|i: int| 0 <= i < post.records@.len() implies #[trigger] post.records@[i].agent.id
        == pre.records@[i].agent.id by {
        if i != k {
            assert(post.records@[i] == pre.records@[i]);
        }
    }
    assert(post.wf()) by {
        assert forall|a: int, b: int|
            0 <= a < b < post.records@.len() implies #[trigger] post.records@[a].agent.id
            != #[trigger] post.records@[b].agent.id by {
            assert(pre.records@[a].agent.id != pre.records@[b].agent.id);
        }
        assert forall|a: int| 0 <= a < post.records@.len() implies #[trigger] post.records@[a].agent.id
            < post.next_agent_id by {
            assert(post.records@[a].agent.id == pre.records@[a].agent.id);
        }
        assert forall|a: int| 0 <= a < post.records@.len() implies wf_record(
            #[trigger] post.records@[a],
        ) by {
            if a != k {
                assert(post.records@[a] == pre.records@[a]);
            }
        }
    }
    post.lemma_agent_idx(k);
    assert forall|x: u64| #[trigger] post.contains_agent(x) == pre.contains_agent(x) by {
        if pre.contains_agent(x) {
            let i0 = pre.agent_idx(x);
            assert(post.records@[i0].agent.id == x);
        }
        if post.contains_agent(x) {
            let i1 = post.agent_idx(x);
            assert(pre.records@[i1].agent.id == x);
        }
    }
    assert forall|x: u64| x != aid && #[trigger] pre.contains_agent(x) implies post.record_of(x)
        == pre.record_of(x) && post.agent_idx(x) == pre.agent_idx(x) by {
        let i0 = pre.agent_idx(x);
        pre.lemma_agent_idx(i0);
        assert(i0 != k);
        assert(post.records@[i0] == pre.records@[i0]);
        post.lemma_agent_idx(i0);
    }
    if post.records@[k].agent.worktree_id == pre.records@[k].agent.worktree_id
        && post.records@[k].agent.pid == pre.records@[k].agent.pid {
        assert(same_link_shape(pre, post)) by {
            assert forall|i: int| 0 <= i < pre.records@.len() implies ({
                let r1 = #[trigger] pre.records@[i].agent;
                let r2 = #[trigger] post.records@[i].agent;
                r1.id == r2.id && r1.worktree_id == r2.worktree_id && r1.pid == r2.pid
            }) by {
                if i != k {
                    assert(post.records@[i] == pre.records@[i]);
                }
            }
        }
    } else {
        assert(!same_link_shape(pre, post));
    }
}

/// The registries an agent's links live in agree on every agent's identity,
/// worktree binding and process binding.
pub open spec fn same_link_shape(a1: AgentService, a2: AgentService) -> bool {
    &&& a1.records@.len() == a2.records@.len()
    &&& a1.next_agent_id == a2.next_agent_id
    &&& forall|i: int|
        0 <= i < a1.records@.len() ==> ({
            let r1 = #[trigger] a1.records@[i].agent;
            let r2 = #[trigger] a2.records@[i].agent;
            r1.id == r2.id && r1.worktree_id == r2.worktree_id && r1.pid == r2.pid
        })
}


/// Lifecycle steps that touch neither an agent's identity, its worktree
/// binding nor its process binding preserve the system linkage.
pub proof fn lemma_links_preserved(
    a1: AgentService,
    a2: AgentService,
    wts: WorktreeService,
    pty: PtyService,
)
    requires
        a1.wf(),
        a2.wf(),
        same_link_shape(a1, a2),
        linked_worktrees(a1, wts),
        linked_procs(a1, pty),
    ensures
        linked_worktrees(a2, wts),
        linked_procs(a2, pty),
{
    assert forall|i: int| 0 <= i < a2.records@.len() implies ({
        let a = (#[trigger] a2.records@[i]).agent;
        a.pid is Some ==> wts.contains_id(a.worktree_id) && wts.holder_of(a.worktree_id) == Some(
            a.id,
        )
    }) by {
        let b = a1.records@[i].agent;
        assert(b.pid is Some ==> wts.contains_id(b.worktree_id) && wts.holder_of(b.worktree_id)
            == Some(b.id));
    }
    assert forall|j: int| 0 <= j < wts.entries@.len() implies ({
        let e = #[trigger] wts.entries@[j];
        e.holder matches Some(aid) ==> a2.contains_agent(aid) && a2.agent_of(aid).worktree_id
            == e.worktree.id && a2.agent_of(aid).pid is Some
    }) by {
        let e = wts.entries@[j];
        if e.holder is Some {
            let aid = e.holder->0;
            assert(a1.contains_agent(aid));
            let k = a1.agent_idx(aid);
            assert(a2.records@[k].agent.id == aid);
            a2.lemma_agent_idx(k);
        }
    }
    assert forall|i: int| 0 <= i < a2.records@.len() implies ({
        let a = (#[trigger] a2.records@[i]).agent;
        &&& (a.pid matches Some(p) ==> pty.has_proc(a.id) && pty.pid_of(a.id) == p)
        &&& (a.pid is None ==> !pty.agent_alive(a.id))
    }) by {
        let b = a1.records@[i].agent;
        assert(b.pid matches Some(p) ==> pty.has_proc(b.id) && pty.pid_of(b.id) == p);
        assert(b.pid is None ==> !pty.agent_alive(b.id));
    }
}


/// Process-controller changes that keep every process's registration,
/// liveness and pid (output, input and subscription traffic) preserve the
/// process linkage.
pub proof fn lemma_linked_procs_stable(agents: AgentService, p1: PtyService, p2: PtyService)
    requires
        linked_procs(agents, p1),
        forall|a: u64| #[trigger] p2.has_proc(a) == p1.has_proc(a),
        forall|a: u64| #[trigger] p2.agent_alive(a) ==> p1.agent_alive(a),
        forall|a: u64| #[trigger] p1.has_proc(a) ==> p2.pid_of(a) == p1.pid_of(a),
    ensures
        linked_procs(agents, p2),
{
    assert forall|j: int| 0 <= j < p2.procs@.len() implies (#[trigger] p2.procs@[j].agent_id)
        < agents.next_agent_id by {
        let a = p2.procs@[j].agent_id;
        assert(p2.has_proc(a));
        assert(p1.has_proc(a));
        let k = p1.proc_idx(a);
        assert(p1.procs@[k].agent_id < agents.next_agent_id);
    }
}


/// Creating a worktree (a new, unreserved entry) preserves the worktree
/// linkage: no reservation appears or moves.
pub proof fn lemma_linked_after_create(
    agents: AgentService,
    pre: WorktreeService,
    post: WorktreeService,
)
    requires
        linked_worktrees(agents, pre),
        pre.wf(),
        post.wf(),
        post.entries@.len() == pre.entries@.len() + 1,
        forall|i: int| 0 <= i < pre.entries@.len() ==> post.entries@[i] == #[trigger] pre.entries@[i],
        post.entries@[pre.entries@.len() as int].holder is None,
        forall|x: u64|
            #[trigger] pre.contains_id(x) ==> post.contains_id(x) && post.holder_of(x)
                == pre.holder_of(x),
    ensures
        linked_worktrees(agents, post),
{
    let n = pre.entries@.len() as int;
    assert forall|i: int| 0 <= i < agents.records@.len() implies ({
        let a = (#[trigger] agents.records@[i]).agent;
        a.pid is Some ==> post.contains_id(a.worktree_id) && post.holder_of(a.worktree_id)
            == Some(a.id)
    }) by {
        let a = agents.records@[i].agent;
        if a.pid is Some {
            assert(pre.contains_id(a.worktree_id));
        }
    }
    assert forall|j: int| 0 <= j < post.entries@.len() implies ({
        let e = #[trigger] post.entries@[j];
        e.holder matches Some(aid) ==> agents.contains_agent(aid) && agents.agent_of(
            aid,
        ).worktree_id == e.worktree.id && agents.agent_of(aid).pid is Some
    }) by {
        if j < n {
            assert(post.entries@[j] == pre.entries@[j]);
        }
    }
}

/// Deleting a free worktree preserves the worktree linkage: no agent held
/// it, so every reservation survives untouched.
pub proof fn lemma_linked_after_delete(
    agents: AgentService,
    pre: WorktreeService,
    post: WorktreeService,
    id: u64,
)
    requires
        linked_worktrees(agents, pre),
        pre.wf(),
        post.wf(),
        pre.contains_id(id),
        pre.holder_of(id) is None,
        post.entries@ == pre.entries@.remove(pre.idx_of(id)),
        forall|x: u64| x != id ==> #[trigger] post.contains_id(x) == pre.contains_id(x),
        forall|x: u64|
            x != id && #[trigger] pre.contains_id(x) ==> post.holder_of(x) == pre.holder_of(x),
    ensures
        linked_worktrees(agents, post),
{
    let k = pre.idx_of(id);
    pre.lemma_idx_of(k);
    pre.entries@.remove_ensures(k);
    assert forall|i: int| 0 <= i < agents.records@.len() implies ({
        let a = (#[trigger] agents.records@[i]).agent;
        a.pid is Some ==> post.contains_id(a.worktree_id) && post.holder_of(a.worktree_id)
            == Some(a.id)
    }) by {
        let a = agents.records@[i].agent;
        if a.pid is Some {
            assert(pre.contains_id(a.worktree_id) && pre.holder_of(a.worktree_id) == Some(a.id));
            assert(a.worktree_id != id);
        }
    }
    assert forall|j: int| 0 <= j < post.entries@.len() implies ({
        let e = #[trigger] post.entries@[j];
        e.holder matches Some(aid) ==> agents.contains_agent(aid) && agents.agent_of(
            aid,
        ).worktree_id == e.worktree.id && agents.agent_of(aid).pid is Some
    }) by {
        let j0: int = if j < k {
            j
        } else {
            j + 1
        };
        assert(post.entries@[j] == pre.entries@[j0]);
    }
}

/// Every agent with a live process holds its worktree's reservation, and
/// every reservation belongs to a registered agent with a live process on
/// exactly that worktree. This is the worktree-exclusivity invariant.
pub open spec fn linked_worktrees(agents: AgentService, wts: WorktreeService) -> bool {
    &&& forall|i: int|
        0 <= i < agents.records@.len() ==> ({
            let a = (#[trigger] agents.records@[i]).agent;
            a.pid is Some ==> wts.contains_id(a.worktree_id) && wts.holder_of(a.worktree_id)
                == Some(a.id)
        })
    &&& forall|j: int|
        0 <= j < wts.entries@.len() ==> ({
            let e = #[trigger] wts.entries@[j];
            e.holder matches Some(aid) ==> agents.contains_agent(aid) && agents.agent_of(aid).worktree_id == e.worktree.id && agents.agent_of(aid).pid is Some
        })
}

/// Every agent's `pid` field mirrors the process controller: a set pid
/// names that agent's registered process, a cleared pid means no live
/// process, and every registered process belongs to an already-issued
/// agent id.
pub open spec fn linked_procs(agents: AgentService, pty: PtyService) -> bool {
    &&& forall|i: int|
        0 <= i < agents.records@.len() ==> ({
            let a = (#[trigger] agents.records@[i]).agent;
            &&& (a.pid matches Some(p) ==> pty.has_proc(a.id) && pty.pid_of(a.id) == p)
            &&& (a.pid is None ==> !pty.agent_alive(a.id))
        })
    &&& forall|j: int|
        0 <= j < pty.procs@.len() ==> (#[trigger] pty.procs@[j].agent_id) < agents.next_agent_id
}

/// The whole system is consistent: each registry is well formed and the
/// agent registry agrees with the worktree reservations and the process
/// controller.
pub open spec fn wf_system(agents: AgentService, wts: WorktreeService, pty: PtyService) -> bool {
    &&& agents.wf()
    &&& wts.wf()
    &&& pty.wf()
    &&& linked_worktrees(agents, wts)
    &&& linked_procs(agents, pty)
}

/// Fresh registries form a consistent system: no agents, no reservations,
/// no processes.
pub proof fn lemma_empty_system(agents: AgentService, wts: WorktreeService, pty: PtyService)
    requires
        agents.records@.len() == 0,
        forall|j: int| 0 <= j < wts.entries@.len() ==> (#[trigger] wts.entries@[j].holder) is None,
        pty.procs@.len() == 0,
    ensures
        linked_worktrees(agents, wts),
        linked_procs(agents, pty),
{
}

/// The sequence of states every agent has been observed in is a valid walk
/// of the state machine, ending in its current state.
pub proof fn lemma_observed_states_valid(agents: AgentService, i: int)
    requires
        agents.wf(),
        0 <= i < agents.records@.len(),
    ensures
        valid_walk(agents.records@[i].history@),
        agents.records@[i].history@.last() == agents.records@[i].agent.state,
{
}

/// At most one agent holds a worktree at any instant: two distinct agents
/// that both have a live process are bound to distinct worktrees.
pub proof fn lemma_worktree_exclusive(
    agents: AgentService,
    wts: WorktreeService,
    i: int,
    j: int,
)
    requires
        agents.wf(),
        wts.wf(),
        linked_worktrees(agents, wts),
        0 <= i < agents.records@.len(),
        0 <= j < agents.records@.len(),
        i != j,
        agents.records@[i].agent.pid is Some,
        agents.records@[j].agent.pid is Some,
    ensures
        agents.records@[i].agent.worktree_id != agents.records@[j].agent.worktree_id,
{
    let ai = agents.records@[i].agent;
    let aj = agents.records@[j].agent;
    if i < j {
        assert(agents.records@[i].agent.id != agents.records@[j].agent.id);
    } else {
        assert(agents.records@[j].agent.id != agents.records@[i].agent.id);
    }
    if ai.worktree_id == aj.worktree_id {
        assert(wts.holder_of(ai.worktree_id) == Some(ai.id));
        assert(wts.holder_of(aj.worktree_id) == Some(aj.id));
        assert(false);
    }
}


/// What termination leaves in the registry: the agent is `Terminated` with
/// no process and an empty queue, its identity and worktree binding are
/// unchanged, its history records exactly the termination, and every other
/// record is untouched.
pub open spec fn terminated_record_frame(
    pre: AgentService,
    post: AgentService,
    agent_id: u64,
) -> bool {
    &&& pre.contains_agent(agent_id)
    &&& post.contains_agent(agent_id)
    &&& post.agent_of(agent_id).state == AgentState::Terminated
    &&& post.agent_of(agent_id).pid is None
    &&& post.agent_of(agent_id).id == pre.agent_of(agent_id).id
    &&& post.agent_of(agent_id).worktree_id == pre.agent_of(agent_id).worktree_id
    &&& post.history_of(agent_id) == pre.history_of(agent_id).push(AgentState::Terminated)
    &&& post.queued_of(agent_id).len() == 0
    &&& forall|x: u64| #[trigger] post.contains_agent(x) == pre.contains_agent(x)
    &&& forall|x: u64|
        x != agent_id && #[trigger] pre.contains_agent(x) ==> post.record_of(x) == pre.record_of(x)
    &&& post.records@.len() == pre.records@.len()
    &&& post.next_agent_id == pre.next_agent_id
}

/// Appending a fresh, well-formed record keeps the registry well formed;
/// every existing record is untouched.
proof fn lemma_record_push_frame(pre: AgentService, post: AgentService)
    requires
        pre.wf(),
        post.records@.len() == pre.records@.len() + 1,
        forall|i: int| 0 <= i < pre.records@.len() ==> post.records@[i] == #[trigger] pre.records@[i],
        post.records@[pre.records@.len() as int].agent.id == pre.next_agent_id,
        wf_record(post.records@[pre.records@.len() as int]),
        post.next_agent_id == pre.next_agent_id + 1,
    ensures
        post.wf(),
        post.contains_agent(pre.next_agent_id),
        post.agent_idx(pre.next_agent_id) == pre.records@.len(),
        post.record_of(pre.next_agent_id) == post.records@[pre.records@.len() as int],
        forall|x: u64|
            x != pre.next_agent_id ==> #[trigger] post.contains_agent(x) == pre.contains_agent(x),
        forall|x: u64|
            x != pre.next_agent_id && #[trigger] pre.contains_agent(x) ==> post.record_of(x)
                == pre.record_of(x),
{
    let n = pre.records@.len() as int;
    assert(post.wf()) by {
        assert forall|a: int, b: int|
            0 <= a < b < post.records@.len() implies #[trigger] post.records@[a].agent.id
            != #[trigger] post.records@[b].agent.id by {
            if b < n {
                assert(pre.records@[a].agent.id != pre.records@[b].agent.id);
            } else {
                assert(post.records@[a] == pre.records@[a]);
                assert(pre.records@[a].agent.id < pre.next_agent_id);
            }
        }
        assert forall|a: int| 0 <= a < post.records@.len() implies #[trigger] post.records@[
            a
        ].agent.id < post.next_agent_id by {
            if a < n {
                assert(pre.records@[a].agent.id < pre.next_agent_id);
            }
        }
        assert forall|a: int| 0 <= a < post.records@.len() implies wf_record(
            #[trigger] post.records@[a],
        ) by {
            if a < n {
                assert(post.records@[a] == pre.records@[a]);
            }
        }
    }
    post.lemma_agent_idx(n);
    assert forall|x: u64|
        x != pre.next_agent_id implies #[trigger] post.contains_agent(x) == pre.contains_agent(x) by {
        if pre.contains_agent(x) {
            let i0 = pre.agent_idx(x);
            assert(post.records@[i0].agent.id == x);
        }
        if post.contains_agent(x) {
            let i1 = post.agent_idx(x);
            assert(i1 != n);
            assert(pre.records@[i1].agent.id == x);
        }
    }
    assert forall|x: u64|
        x != pre.next_agent_id && #[trigger] pre.contains_agent(x) implies post.record_of(x)
        == pre.record_of(x) by {
        let i0 = pre.agent_idx(x);
        pre.lemma_agent_idx(i0);
        assert(post.records@[i0].agent.id == x);
        post.lemma_agent_idx(i0);
    }
}

/// Registering a fresh agent, reserving its free worktree and spawning its
/// process together preserve the system linkage.
proof fn lemma_spawn_links(
    pre_a: AgentService,
    post_a: AgentService,
    pre_w: WorktreeService,
    post_w: WorktreeService,
    pre_p: PtyService,
    post_p: PtyService,
    agent: Agent,
)
    requires
        pre_a.wf(),
        post_a.wf(),
        pre_w.wf(),
        post_w.wf(),
        pre_p.wf(),
        post_p.wf(),
        linked_worktrees(pre_a, pre_w),
        linked_procs(pre_a, pre_p),
        agent.id == pre_a.next_agent_id,
        agent.pid == Some(post_p.pid_of(agent.id)),
        post_a.records@.len() == pre_a.records@.len() + 1,
        forall|i: int| 0 <= i < pre_a.records@.len() ==> post_a.records@[i] == #[trigger] pre_a.records@[i],
        post_a.records@[pre_a.records@.len() as int].agent == agent,
        post_a.next_agent_id == pre_a.next_agent_id + 1,
        pre_w.contains_id(agent.worktree_id),
        pre_w.holder_of(agent.worktree_id) is None,
        holder_update_frame(pre_w, post_w, agent.worktree_id, Some(agent.id)),
        !pre_p.has_proc(agent.id),
        post_p.procs@.len() == pre_p.procs@.len() + 1,
        forall|i: int| 0 <= i < pre_p.procs@.len() ==> post_p.procs@[i] == #[trigger] pre_p.procs@[i],
        post_p.has_proc(agent.id),
        post_p.agent_alive(agent.id),
        forall|x: u64| x != agent.id ==> #[trigger] post_p.has_proc(x) == pre_p.has_proc(x),
        forall|x: u64|
            x != agent.id && #[trigger] pre_p.has_proc(x) ==> post_p.proc_of(x) == pre_p.proc_of(x),
    ensures
        linked_worktrees(post_a, post_w),
        linked_procs(post_a, post_p),
{
    let n = pre_a.records@.len() as int;
    let wid = agent.worktree_id;
    assert forall|i: int| 0 <= i < post_a.records@.len() implies ({
        let a = (#[trigger] post_a.records@[i]).agent;
        a.pid is Some ==> post_w.contains_id(a.worktree_id) && post_w.holder_of(a.worktree_id)
            == Some(a.id)
    }) by {
        let a = post_a.records@[i].agent;
        if a.pid is Some {
            if i < n {
                assert(post_a.records@[i] == pre_a.records@[i]);
                assert(pre_w.contains_id(a.worktree_id) && pre_w.holder_of(a.worktree_id) == Some(
                    a.id,
                ));
                assert(a.worktree_id != wid);
            }
        }
    }
    assert forall|j: int| 0 <= j < post_w.entries@.len() implies ({
        let e = #[trigger] post_w.entries@[j];
        e.holder matches Some(aid) ==> post_a.contains_agent(aid) && post_a.agent_of(aid).worktree_id == e.worktree.id && post_a.agent_of(aid).pid is Some
    }) by {
        let e = post_w.entries@[j];
        if e.holder is Some {
            let aid = e.holder->0;
            post_w.lemma_idx_of(j);
            assert(post_w.holder_of(e.worktree.id) == e.holder);
            assert(post_w.contains_id(e.worktree.id));
            assert(pre_w.contains_id(e.worktree.id));
            if e.worktree.id == wid {
                assert(aid == agent.id);
                post_a.lemma_agent_idx(n);
                assert(post_w.worktree_of(wid) == pre_w.worktree_of(wid));
            } else {
                assert(post_w.holder_of(e.worktree.id) == pre_w.holder_of(e.worktree.id));
                let j0 = pre_w.idx_of(e.worktree.id);
                pre_w.lemma_idx_of(j0);
                assert(pre_w.entries@[j0].holder == Some(aid));
                assert(pre_w.worktree_of(e.worktree.id) == post_w.worktree_of(e.worktree.id));
                assert(pre_w.entries@[j0].worktree.id == e.worktree.id);
                assert(pre_a.contains_agent(aid) && pre_a.agent_of(aid).worktree_id
                    == e.worktree.id && pre_a.agent_of(aid).pid is Some);
                let k = pre_a.agent_idx(aid);
                pre_a.lemma_agent_idx(k);
                assert(aid < pre_a.next_agent_id);
                assert(aid != agent.id);
                assert(post_a.records@[k] == pre_a.records@[k]);
                post_a.lemma_agent_idx(k);
            }
        }
    }
    assert forall|i: int| 0 <= i < post_a.records@.len() implies ({
        let a = (#[trigger] post_a.records@[i]).agent;
        &&& (a.pid matches Some(p) ==> post_p.has_proc(a.id) && post_p.pid_of(a.id) == p)
        &&& (a.pid is None ==> !post_p.agent_alive(a.id))
    }) by {
        let a = post_a.records@[i].agent;
        if i < n {
            assert(post_a.records@[i] == pre_a.records@[i]);
            assert(a.id < pre_a.next_agent_id);
            assert(a.id != agent.id);
            if a.pid is Some {
                assert(pre_p.has_proc(a.id));
                assert(post_p.proc_of(a.id) == pre_p.proc_of(a.id));
            } else {
                assert(!pre_p.agent_alive(a.id));
                if post_p.agent_alive(a.id) {
                    assert(post_p.proc_of(a.id) == pre_p.proc_of(a.id));
                }
            }
        }
    }
    assert forall|j: int| 0 <= j < post_p.procs@.len() implies (#[trigger] post_p.procs@[
        j
    ].agent_id) < post_a.next_agent_id by {
        if j < pre_p.procs@.len() {
            assert(post_p.procs@[j] == pre_p.procs@[j]);
            assert(pre_p.procs@[j].agent_id < pre_a.next_agent_id);
        } else {
            if post_p.procs@[j].agent_id != agent.id {
                assert(post_p.has_proc(post_p.procs@[j].agent_id));
                assert(pre_p.has_proc(post_p.procs@[j].agent_id));
                let k = pre_p.proc_idx(post_p.procs@[j].agent_id);
                assert(pre_p.procs@[k].agent_id < pre_a.next_agent_id);
            }
        }
    }
}

/// Clearing one agent's process binding and releasing its reservation
/// together preserve the system linkage, whether the clearing came from an
/// operator termination or an observed exit.
proof fn lemma_released_links(
    pre_a: AgentService,
    post_a: AgentService,
    pre_w: WorktreeService,
    post_w: WorktreeService,
    pre_p: PtyService,
    post_p: PtyService,
    agent_id: u64,
)
    requires
        pre_a.wf(),
        post_a.wf(),
        pre_w.wf(),
        post_w.wf(),
        pre_p.wf(),
        post_p.wf(),
        linked_worktrees(pre_a, pre_w),
        linked_procs(pre_a, pre_p),
        pre_a.contains_agent(agent_id),
        post_a.contains_agent(agent_id),
        post_a.records@.len() == pre_a.records@.len(),
        post_a.next_agent_id == pre_a.next_agent_id,
        forall|x: u64| #[trigger] post_a.contains_agent(x) == pre_a.contains_agent(x),
        forall|x: u64|
            x != agent_id && #[trigger] pre_a.contains_agent(x) ==> post_a.record_of(x)
                == pre_a.record_of(x),
        post_a.agent_of(agent_id).id == agent_id,
        post_a.agent_of(agent_id).pid is None,
        pre_a.agent_of(agent_id).pid is Some ==> holder_update_frame(
            pre_w,
            post_w,
            pre_a.agent_of(agent_id).worktree_id,
            None,
        ),
        pre_a.agent_of(agent_id).pid is None ==> post_w == pre_w,
        !post_p.agent_alive(agent_id),
        forall|x: u64| #[trigger] post_p.has_proc(x) == pre_p.has_proc(x),
        forall|x: u64|
            x != agent_id && #[trigger] pre_p.has_proc(x) ==> post_p.proc_of(x) == pre_p.proc_of(x),
    ensures
        linked_worktrees(post_a, post_w),
        linked_procs(post_a, post_p),
{
    let wid = pre_a.agent_of(agent_id).worktree_id;
    let had_pid = pre_a.agent_of(agent_id).pid is Some;
    assert forall|i: int| 0 <= i < post_a.records@.len() implies ({
        let a = (#[trigger] post_a.records@[i]).agent;
        a.pid is Some ==> post_w.contains_id(a.worktree_id) && post_w.holder_of(a.worktree_id)
            == Some(a.id)
    }) by {
        let a = post_a.records@[i].agent;
        if a.pid is Some {
            post_a.lemma_agent_idx(i);
            assert(a.id != agent_id);
            assert(pre_a.contains_agent(a.id));
            let k = pre_a.agent_idx(a.id);
            pre_a.lemma_agent_idx(k);
            assert(post_a.record_of(a.id) == pre_a.record_of(a.id));
            assert(pre_a.records@[k].agent == a);
            assert(pre_w.contains_id(a.worktree_id) && pre_w.holder_of(a.worktree_id) == Some(
                a.id,
            ));
            if had_pid {
                assert(pre_w.holder_of(wid) == Some(agent_id));
                assert(a.worktree_id != wid);
            }
        }
    }
    assert forall|j: int| 0 <= j < post_w.entries@.len() implies ({
        let e = #[trigger] post_w.entries@[j];
        e.holder matches Some(aid) ==> post_a.contains_agent(aid) && post_a.agent_of(aid).worktree_id == e.worktree.id && post_a.agent_of(aid).pid is Some
    }) by {
        let e = post_w.entries@[j];
        if e.holder is Some {
            let aid = e.holder->0;
            post_w.lemma_idx_of(j);
            assert(post_w.holder_of(e.worktree.id) == e.holder);
            if had_pid {
                assert(post_w.contains_id(e.worktree.id));
                assert(pre_w.contains_id(e.worktree.id));
                assert(e.worktree.id != wid);
                assert(post_w.holder_of(e.worktree.id) == pre_w.holder_of(e.worktree.id));
                let j0 = pre_w.idx_of(e.worktree.id);
                pre_w.lemma_idx_of(j0);
                assert(pre_w.entries@[j0].holder == Some(aid));
                assert(pre_w.entries@[j0].worktree.id == e.worktree.id);
                assert(pre_a.contains_agent(aid) && pre_a.agent_of(aid).worktree_id
                    == e.worktree.id && pre_a.agent_of(aid).pid is Some);
                assert(aid != agent_id) by {
                    if aid == agent_id {
                        assert(pre_a.agent_of(agent_id).worktree_id == e.worktree.id);
                        assert(false);
                    }
                }
                assert(post_a.record_of(aid) == pre_a.record_of(aid));
            } else {
                assert(pre_w.entries@[j].holder == Some(aid));
                assert(pre_a.contains_agent(aid) && pre_a.agent_of(aid).worktree_id
                    == e.worktree.id && pre_a.agent_of(aid).pid is Some);
                assert(aid != agent_id);
                assert(post_a.record_of(aid) == pre_a.record_of(aid));
            }
        }
    }
    assert forall|i: int| 0 <= i < post_a.records@.len() implies ({
        let a = (#[trigger] post_a.records@[i]).agent;
        &&& (a.pid matches Some(p) ==> post_p.has_proc(a.id) && post_p.pid_of(a.id) == p)
        &&& (a.pid is None ==> !post_p.agent_alive(a.id))
    }) by {
        let a = post_a.records@[i].agent;
        post_a.lemma_agent_idx(i);
        if a.id == agent_id {
            assert(a == post_a.agent_of(agent_id));
        } else {
            assert(pre_a.contains_agent(a.id));
            let k = pre_a.agent_idx(a.id);
            pre_a.lemma_agent_idx(k);
            assert(pre_a.records@[k].agent == a);
            if a.pid is Some {
                assert(pre_p.has_proc(a.id));
                assert(post_p.proc_of(a.id) == pre_p.proc_of(a.id));
            } else {
                assert(!pre_p.agent_alive(a.id));
                if post_p.agent_alive(a.id) {
                    assert(post_p.proc_of(a.id) == pre_p.proc_of(a.id));
                }
            }
        }
    }
    assert forall|j: int| 0 <= j < post_p.procs@.len() implies (#[trigger] post_p.procs@[
        j
    ].agent_id) < post_a.next_agent_id by {
        let a = post_p.procs@[j].agent_id;
        assert(post_p.has_proc(a));
        assert(pre_p.has_proc(a));
        let k = pre_p.proc_idx(a);
        assert(pre_p.procs@[k].agent_id < pre_a.next_agent_id);
    }
}

} // verus!
