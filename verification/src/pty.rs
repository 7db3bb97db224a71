//! The process controller: a registry of PTY-backed child processes, their
//! output fan-out to subscribers, their input side, and exit events.
//!
//! The surrounding shell performs the actual process I/O and reports it here
//! as plain values: output chunks through [`PtyService::emit_output`] and
//! natural exits through [`PtyService::process_exited`]. Every subscriber
//! receives output from the moment of subscription forward; a subscriber
//! that lags more than [`SUBSCRIBER_BUFFER_LIMIT`] chunks behind loses the
//! oldest pending chunks and is handed an overrun marker instead.

use vstd::prelude::*;
use vstd::string::*;

use crate::error::ServerError;
use crate::models::AgentConfig;

verus! {

/// How many output chunks may sit unread in one subscription before the
/// oldest pending chunks are dropped.
pub const SUBSCRIBER_BUFFER_LIMIT: usize = 64;

/// A terminal event: the process of this agent has exited. `clean` is true
/// only for a natural exit with status zero.
#[derive(Clone, Copy, Debug, PartialEq, Eq, Structural)]
pub struct PtyEvent {
    pub agent_id: u64,
    pub clean: bool,
}

/// One child process: which agent it runs for, its pid, whether it is still
/// live, everything it has written, and everything written to it.
pub struct ProcEntry {
    pub agent_id: u64,
    pub pid: u32,
    pub alive: bool,
    pub output: Vec<String>,
    pub input_writes: Vec<String>,
}

/// One output subscription: the agent observed and the position in that
/// agent's output stream up to which this subscriber has read.
pub struct Subscription {
    pub sub_id: u64,
    pub agent_id: u64,
    pub cursor: usize,
}

/// What one read of a subscription yields: the pending chunks in production
/// order, whether older chunks were dropped (`overrun`), and whether the
/// stream has ended because the process exited or was killed.
pub struct OutputBatch {
    pub chunks: Vec<String>,
    pub overrun: bool,
    pub ended: bool,
}

/// Owns the process registry, the subscriptions, and the exit event queue.
pub struct PtyService {
    pub procs: Vec<ProcEntry>,
    pub subs: Vec<Subscription>,
    pub events: Vec<PtyEvent>,
    pub next_pid: u32,
    pub next_sub_id: u64,
}

impl PtyService {
    /// Well-formedness: one process per agent, unique pids and subscription
    /// ids below their counters, and every subscription pointing into the
    /// output of a registered process.
    pub open spec fn wf(self) -> bool {
        &&& forall|i: int, j: int|
            0 <= i < j < self.procs@.len() ==> #[trigger] self.procs@[i].agent_id
                != #[trigger] self.procs@[j].agent_id
        &&& forall|i: int, j: int|
            0 <= i < j < self.procs@.len() ==> #[trigger] self.procs@[i].pid
                != #[trigger] self.procs@[j].pid
        &&& forall|i: int| 0 <= i < self.procs@.len() ==> #[trigger] self.procs@[i].pid < self.next_pid
        &&& forall|i: int, j: int|
            0 <= i < j < self.subs@.len() ==> #[trigger] self.subs@[i].sub_id
                != #[trigger] self.subs@[j].sub_id
        &&& forall|i: int|
            0 <= i < self.subs@.len() ==> #[trigger] self.subs@[i].sub_id < self.next_sub_id
        &&& forall|i: int|
            0 <= i < self.subs@.len() ==> self.has_proc(#[trigger] self.subs@[i].agent_id)
                && self.subs@[i].cursor <= self.output_of(self.subs@[i].agent_id).len()
    }

    /// A process is registered for this agent (live or exited).
    pub open spec fn has_proc(self, agent_id: u64) -> bool {
        exists|i: int| 0 <= i < self.procs@.len() && #[trigger] self.procs@[i].agent_id == agent_id
    }

    /// The index of this agent's process entry.
    pub open spec fn proc_idx(self, agent_id: u64) -> int {
        choose|i: int| 0 <= i < self.procs@.len() && #[trigger] self.procs@[i].agent_id == agent_id
    }

    /// This agent's process entry.
    pub open spec fn proc_of(self, agent_id: u64) -> ProcEntry {
        self.procs@[self.proc_idx(agent_id)]
    }

    /// This agent's process is registered and still live.
    pub open spec fn agent_alive(self, agent_id: u64) -> bool {
        self.has_proc(agent_id) && self.proc_of(agent_id).alive
    }

    /// The pid registered for this agent.
    pub open spec fn pid_of(self, agent_id: u64) -> u32 {
        self.proc_of(agent_id).pid
    }

    /// Everything this agent's process has written, in production order.
    pub open spec fn output_of(self, agent_id: u64) -> Seq<String> {
        self.proc_of(agent_id).output@
    }

    /// Everything written to this agent's process input side, in order.
    pub open spec fn input_of(self, agent_id: u64) -> Seq<String> {
        self.proc_of(agent_id).input_writes@
    }

    /// A process with this pid is registered.
    pub open spec fn has_pid(self, pid: u32) -> bool {
        exists|i: int| 0 <= i < self.procs@.len() && #[trigger] self.procs@[i].pid == pid
    }

    /// The index of the process entry with this pid.
    pub open spec fn pid_idx(self, pid: u32) -> int {
        choose|i: int| 0 <= i < self.procs@.len() && #[trigger] self.procs@[i].pid == pid
    }

    /// A subscription with this id is registered.
    pub open spec fn has_sub(self, sub_id: u64) -> bool {
        exists|i: int| 0 <= i < self.subs@.len() && #[trigger] self.subs@[i].sub_id == sub_id
    }

    /// The index of the subscription with this id.
    pub open spec fn sub_idx(self, sub_id: u64) -> int {
        choose|i: int| 0 <= i < self.subs@.len() && #[trigger] self.subs@[i].sub_id == sub_id
    }

    /// The subscription with this id.
    pub open spec fn sub_of(self, sub_id: u64) -> Subscription {
        self.subs@[self.sub_idx(sub_id)]
    }

    /// With unique agent ids, the process found at an index is the one
    /// `proc_idx` picks for its agent.
    pub proof fn lemma_proc_idx(self, i: int)
        requires
            self.wf(),
            0 <= i < self.procs@.len(),
        ensures
            self.has_proc(self.procs@[i].agent_id),
            self.proc_idx(self.procs@[i].agent_id) == i,
    {
        let a = self.procs@[i].agent_id;
        assert(self.has_proc(a));
        let j = self.proc_idx(a);
        if j < i {
            assert(self.procs@[j].agent_id != self.procs@[i].agent_id);
        } else if i < j {
            assert(self.procs@[i].agent_id != self.procs@[j].agent_id);
        }
    }

    /// With unique pids, the process found at an index is the one `pid_idx`
    /// picks for its pid.
    pub proof fn lemma_pid_idx(self, i: int)
        requires
            self.wf(),
            0 <= i < self.procs@.len(),
        ensures
            self.has_pid(self.procs@[i].pid),
            self.pid_idx(self.procs@[i].pid) == i,
    {
        let p = self.procs@[i].pid;
        assert(self.has_pid(p));
        let j = self.pid_idx(p);
        if j < i {
            assert(self.procs@[j].pid != self.procs@[i].pid);
        } else if i < j {
            assert(self.procs@[i].pid != self.procs@[j].pid);
        }
    }

    /// With unique subscription ids, the subscription found at an index is
    /// the one `sub_idx` picks for its id.
    pub proof fn lemma_sub_idx(self, i: int)
        requires
            self.wf(),
            0 <= i < self.subs@.len(),
        ensures
            self.has_sub(self.subs@[i].sub_id),
            self.sub_idx(self.subs@[i].sub_id) == i,
    {
        let s = self.subs@[i].sub_id;
        assert(self.has_sub(s));
        let j = self.sub_idx(s);
        if j < i {
            assert(self.subs@[j].sub_id != self.subs@[i].sub_id);
        } else if i < j {
            assert(self.subs@[i].sub_id != self.subs@[j].sub_id);
        }
    }

    /// An empty controller.
    pub fn new() -> (s: Self)
        ensures
            s.wf(),
            s.procs@.len() == 0,
            s.subs@.len() == 0,
            s.events@.len() == 0,
            s.next_pid == 1,
            s.next_sub_id == 0,
    {
        PtyService {
            procs: Vec::new(),
            subs: Vec::new(),
            events: Vec::new(),
            next_pid: 1,
            next_sub_id: 0,
        }
    }

    /// True when this agent has a registered process that is still live.
    pub fn is_agent_alive(&self, agent_id: u64) -> (r: bool)
        requires
            self.wf(),
        ensures
            r == self.agent_alive(agent_id),
    {
        match self.find_proc(agent_id) {
            None => false,
            Some(i) => self.procs[i].alive,
        }
    }

    /// Finds the index of this agent's process entry.
    pub(crate) fn find_proc(&self, agent_id: u64) -> (r: Option<usize>)
        requires
            self.wf(),
        ensures
            match r {
                Some(i) => {
                    &&& i < self.procs@.len()
                    &&& self.procs@[i as int].agent_id == agent_id
                    &&& self.has_proc(agent_id)
                    &&& self.proc_idx(agent_id) == i
                },
                None => !self.has_proc(agent_id),
            },
    {
        let mut i: usize = 0;
        while i < self.procs.len()
            invariant
                self.wf(),
                i <= self.procs@.len(),
                forall|j: int| 0 <= j < i ==> #[trigger] self.procs@[j].agent_id != agent_id,
            decreases self.procs@.len() - i,
        {
            if self.procs[i].agent_id == agent_id {
                proof {
                    self.lemma_proc_idx(i as int);
                }
                return Some(i);
            }
            i = i + 1;
        }
        None
    }

    /// Finds the index of the process entry with this pid.
    pub(crate) fn find_pid(&self, pid: u32) -> (r: Option<usize>)
        requires
            self.wf(),
        ensures
            match r {
                Some(i) => {
                    &&& i < self.procs@.len()
                    &&& self.procs@[i as int].pid == pid
                    &&& self.has_pid(pid)
                    &&& self.pid_idx(pid) == i
                },
                None => !self.has_pid(pid),
            },
    {
        let mut i: usize = 0;
        while i < self.procs.len()
            invariant
                self.wf(),
                i <= self.procs@.len(),
                forall|j: int| 0 <= j < i ==> #[trigger] self.procs@[j].pid != pid,
            decreases self.procs@.len() - i,
        {
            if self.procs[i].pid == pid {
                proof {
                    self.lemma_pid_idx(i as int);
                }
                return Some(i);
            }
            i = i + 1;
        }
        None
    }

    /// Finds the index of the subscription with this id.
    pub(crate) fn find_sub(&self, sub_id: u64) -> (r: Option<usize>)
        requires
            self.wf(),
        ensures
            match r {
                Some(i) => {
                    &&& i < self.subs@.len()
                    &&& self.subs@[i as int].sub_id == sub_id
                    &&& self.has_sub(sub_id)
                    &&& self.sub_idx(sub_id) == i
                },
                None => !self.has_sub(sub_id),
            },
    {
        let mut i: usize = 0;
        while i < self.subs.len()
            invariant
                self.wf(),
                i <= self.subs@.len(),
                forall|j: int| 0 <= j < i ==> #[trigger] self.subs@[j].sub_id != sub_id,
            decreases self.subs@.len() - i,
        {
            if self.subs[i].sub_id == sub_id {
                proof {
                    self.lemma_sub_idx(i as int);
                }
                return Some(i);
            }
            i = i + 1;
        }
        None
    }

    /// Launches a child process for an agent on a fresh pty. The command
    /// resolver is an outside collaborator: an empty `agent_type` names no
    /// executable and is refused. On success the returned pid is registered
    /// against the agent and its output log starts empty.
    pub fn spawn(&mut self, agent_id: u64, config: &AgentConfig) -> (r: Result<u32, ServerError>)
        requires
            old(self).wf(),
        ensures
            final(self).wf(),
            (r matches Ok(p)) <==> (!old(self).has_proc(agent_id) && config.agent_type@.len() > 0
                && old(self).next_pid < u32::MAX),
            old(self).has_proc(agent_id) ==> (r matches Err(e) && e matches ServerError::Internal(
                _,
            )),
            !old(self).has_proc(agent_id) && config.agent_type@.len() == 0 ==> (r matches Err(e)
                && e matches ServerError::ProcessError(_)),
            r is Err ==> *final(self) == *old(self),
            r matches Ok(p) ==> {
                &&& p == old(self).next_pid
                &&& final(self).procs@.len() == old(self).procs@.len() + 1
                &&& forall|i: int|
                    0 <= i < old(self).procs@.len() ==> final(self).procs@[i] == #[trigger] old(self).procs@[i]
                &&& final(self).has_proc(agent_id)
                &&& final(self).agent_alive(agent_id)
                &&& final(self).pid_of(agent_id) == p
                &&& final(self).output_of(agent_id).len() == 0
                &&& final(self).input_of(agent_id).len() == 0
                &&& forall|a: u64|
                    a != agent_id ==> #[trigger] final(self).has_proc(a) == old(self).has_proc(a)
                &&& forall|a: u64|
                    a != agent_id && #[trigger] old(self).has_proc(a) ==> final(self).proc_of(a)
                        == old(self).proc_of(a)
                &&& final(self).subs@ == old(self).subs@
                &&& final(self).events@ == old(self).events@
                &&& final(self).next_pid == old(self).next_pid + 1
                &&& final(self).next_sub_id == old(self).next_sub_id
            },
    {
        match self.find_proc(agent_id) {
            Some(_) => {
                return Err(ServerError::Internal(String::from_str("agent already has a process")));
            },
            None => {},
        }
        if self.config_unresolvable(config) {
            return Err(ServerError::ProcessError(String::from_str("executable not found")));
        }
        if self.next_pid == u32::MAX {
            return Err(ServerError::Internal(String::from_str("pid space exhausted")));
        }
        let pid = self.next_pid;
        let ghost pre = *self;
        self.procs.push(
            ProcEntry {
                agent_id,
                pid,
                alive: true,
                output: Vec::new(),
                input_writes: Vec::new(),
            },
        );
        self.next_pid = pid + 1;
        proof {
            let n = pre.procs@.len() as int;
            assert(self.procs@[n].agent_id == agent_id);
            lemma_proc_push_frame(pre, *self, agent_id);
        }
        Ok(pid)
    }

    /// True when the command resolver cannot map this configuration to an
    /// executable, which is exactly when the agent type is empty.
    fn config_unresolvable(&self, config: &AgentConfig) -> (r: bool)
        ensures
            r == (config.agent_type@.len() == 0),
    {
        config.agent_type.as_str().is_empty()
    }

    /// Opens a new output subscription on a running agent. The subscriber
    /// receives output from this moment forward: no replay of history.
    pub fn stream_pty_output(&mut self, agent_id: u64) -> (r: Result<u64, ServerError>)
        requires
            old(self).wf(),
        ensures
            final(self).wf(),
            (r matches Ok(s)) <==> (old(self).agent_alive(agent_id) && old(self).next_sub_id
                < u64::MAX),
            !old(self).agent_alive(agent_id) ==> r == Err::<u64, ServerError>(
                ServerError::AgentNotFound(agent_id),
            ),
            r is Err ==> *final(self) == *old(self),
            r matches Ok(s) ==> {
                &&& s == old(self).next_sub_id
                &&& final(self).subs@.len() == old(self).subs@.len() + 1
                &&& forall|i: int|
                    0 <= i < old(self).subs@.len() ==> final(self).subs@[i] == #[trigger] old(self).subs@[i]
                &&& final(self).has_sub(s)
                &&& final(self).sub_of(s).agent_id == agent_id
                &&& final(self).sub_of(s).cursor == old(self).output_of(agent_id).len()
                &&& final(self).procs@ == old(self).procs@
                &&& final(self).events@ == old(self).events@
                &&& final(self).next_pid == old(self).next_pid
                &&& final(self).next_sub_id == old(self).next_sub_id + 1
            },
    {
        let found = self.find_proc(agent_id);
        let i = match found {
            None => {
                return Err(ServerError::AgentNotFound(agent_id));
            },
            Some(i) => i,
        };
        if !self.procs[i].alive {
            return Err(ServerError::AgentNotFound(agent_id));
        }
        if self.next_sub_id == u64::MAX {
            return Err(ServerError::Internal(String::from_str("subscription id space exhausted")));
        }
        let sub_id = self.next_sub_id;
        let cursor = self.procs[i].output.len();
        let ghost pre = *self;
        self.subs.push(Subscription { sub_id, agent_id, cursor });
        self.next_sub_id = sub_id + 1;
        proof {
            let n = pre.subs@.len() as int;
            assert(self.subs@[n].sub_id == sub_id);
            assert(self.wf()) by {
                assert forall|a: int, b: int|
                    0 <= a < b < self.subs@.len() implies #[trigger] self.subs@[a].sub_id
                    != #[trigger] self.subs@[b].sub_id by {
                    if b < n {
                        assert(pre.subs@[a].sub_id != pre.subs@[b].sub_id);
                    } else {
                        assert(pre.subs@[a].sub_id < pre.next_sub_id);
                    }
                }
                lemma_same_procs(pre, *self);
                assert forall|a: int| 0 <= a < self.subs@.len() implies self.has_proc(
                    #[trigger] self.subs@[a].agent_id,
                ) && self.subs@[a].cursor <= self.output_of(self.subs@[a].agent_id).len() by {
                    if a < n {
                        let sa = pre.subs@[a].agent_id;
                        assert(pre.has_proc(sa));
                        assert(pre.subs@[a].cursor <= pre.output_of(sa).len());
                        assert(self.output_of(sa) == pre.output_of(sa));
                    } else {
                        assert(self.subs@[a].agent_id == agent_id);
                        assert(pre.has_proc(agent_id));
                        assert(self.output_of(agent_id) == pre.output_of(agent_id));
                    }
                }
            }
            self.lemma_sub_idx(n);
        }
        Ok(sub_id)
    }

    /// Records one chunk the agent's process wrote on its pty. Every open
    /// subscription on that agent will see the chunk, in production order.
    pub fn emit_output(&mut self, agent_id: u64, chunk: String) -> (r: Result<(), ServerError>)
        requires
            old(self).wf(),
        ensures
            final(self).wf(),
            (r matches Ok(_)) <==> old(self).agent_alive(agent_id),
            !old(self).has_proc(agent_id) ==> r == Err::<(), ServerError>(
                ServerError::AgentNotFound(agent_id),
            ),
            old(self).has_proc(agent_id) && !old(self).agent_alive(agent_id) ==> (r matches Err(e)
                && e matches ServerError::ProcessError(_)),
            r is Err ==> *final(self) == *old(self),
            r matches Ok(_) ==> {
                &&& final(self).output_of(agent_id) == old(self).output_of(agent_id).push(chunk)
                &&& final(self).procs@.len() == old(self).procs@.len()
                &&& final(self).agent_alive(agent_id)
                &&& final(self).pid_of(agent_id) == old(self).pid_of(agent_id)
                &&& final(self).input_of(agent_id) == old(self).input_of(agent_id)
                &&& forall|a: u64| #[trigger] final(self).has_proc(a) == old(self).has_proc(a)
                &&& forall|a: u64|
                    a != agent_id && #[trigger] old(self).has_proc(a) ==> final(self).proc_of(a)
                        == old(self).proc_of(a)
                &&& final(self).subs@ == old(self).subs@
                &&& final(self).events@ == old(self).events@
                &&& final(self).next_pid == old(self).next_pid
                &&& final(self).next_sub_id == old(self).next_sub_id
            },
    {
        let found = self.find_proc(agent_id);
        let i = match found {
            None => {
                return Err(ServerError::AgentNotFound(agent_id));
            },
            Some(i) => i,
        };
        if !self.procs[i].alive {
            return Err(ServerError::ProcessError(String::from_str("process not running")));
        }
        let ghost pre = *self;
        self.procs[i].output.push(chunk);
        proof {
            lemma_proc_update_frame(pre, *self, i as int);
        }
        Ok(())
    }

    /// Reads the pending output of one subscription and advances it to the
    /// end of the stream. At most [`SUBSCRIBER_BUFFER_LIMIT`] chunks are
    /// buffered per subscription: when more are pending, the oldest are
    /// dropped and the batch carries the overrun marker. The batch is marked
    /// ended when the process has exited or been killed.
    pub fn read_output(&mut self, sub_id: u64) -> (r: Result<OutputBatch, ServerError>)
        requires
            old(self).wf(),
        ensures
            final(self).wf(),
            (r matches Ok(_)) <==> old(self).has_sub(sub_id),
            !old(self).has_sub(sub_id) ==> (r matches Err(e) && e matches ServerError::ProcessError(
                _,
            )),
            r is Err ==> *final(self) == *old(self),
            r matches Ok(b) ==> ({
                let s = old(self).sub_of(sub_id);
                let out = old(self).output_of(s.agent_id);
                let pending = out.len() - s.cursor;
                let dropped: int = if pending > SUBSCRIBER_BUFFER_LIMIT {
                    pending - SUBSCRIBER_BUFFER_LIMIT
                } else {
                    0
                };
                &&& b.overrun == (pending > SUBSCRIBER_BUFFER_LIMIT)
                &&& b.chunks@.len() == pending - dropped
                &&& forall|i: int|
                    0 <= i < b.chunks@.len() ==> b.chunks@[i] == out[s.cursor + dropped + i]
                &&& b.ended == !old(self).agent_alive(s.agent_id)
                &&& final(self).has_sub(sub_id)
                &&& final(self).sub_of(sub_id).agent_id == s.agent_id
                &&& final(self).sub_of(sub_id).cursor == out.len()
                &&& final(self).subs@.len() == old(self).subs@.len()
                &&& forall|i: int|
                    0 <= i < old(self).subs@.len() && i != old(self).sub_idx(sub_id) ==> final(self).subs@[i] == old(self).subs@[i]
                &&& final(self).procs@ == old(self).procs@
                &&& final(self).events@ == old(self).events@
                &&& final(self).next_pid == old(self).next_pid
                &&& final(self).next_sub_id == old(self).next_sub_id
            }),
    {
        let found = self.find_sub(sub_id);
        let si = match found {
            None => {
                return Err(ServerError::ProcessError(String::from_str("unknown subscription")));
            },
            Some(si) => si,
        };
        let agent_id = self.subs[si].agent_id;
        let cursor = self.subs[si].cursor;
        let pi = match self.find_proc(agent_id) {
            None => {
                proof {
                    assert(false);
                }
                return Err(ServerError::Internal(String::from_str("subscription without process")));
            },
            Some(pi) => pi,
        };
        let len = self.procs[pi].output.len();
        let overrun = len - cursor > SUBSCRIBER_BUFFER_LIMIT;
        let start = if overrun {
            len - SUBSCRIBER_BUFFER_LIMIT
        } else {
            cursor
        };
        let mut chunks: Vec<String> = Vec::new();
        let mut k: usize = start;
        while k < len
            invariant
                self.wf(),
                *self == *old(self),
                pi < self.procs@.len(),
                len == self.procs@[pi as int].output@.len(),
                start <= k <= len,
                chunks@.len() == k - start,
                forall|i: int|
                    0 <= i < chunks@.len() ==> chunks@[i] == self.procs@[pi as int].output@[start
                        + i],
            decreases len - k,
        {
            chunks.push(self.procs[pi].output[k].clone());
            k = k + 1;
        }
        let ended = !self.procs[pi].alive;
        let ghost pre = *self;
        self.subs[si].cursor = len;
        proof {
            assert(self.subs@ == pre.subs@.update(si as int, (Subscription {
                sub_id,
                agent_id,
                cursor: len,
            })));
            assert forall|x: int|
                0 <= x < self.subs@.len() && x != si implies self.subs@[x] == pre.subs@[x] by {}
            assert(self.wf()) by {
                assert forall|a: int, b: int|
                    0 <= a < b < self.subs@.len() implies #[trigger] self.subs@[a].sub_id
                    != #[trigger] self.subs@[b].sub_id by {
                    assert(self.subs@[a].sub_id == pre.subs@[a].sub_id);
                    assert(self.subs@[b].sub_id == pre.subs@[b].sub_id);
                    assert(pre.subs@[a].sub_id != pre.subs@[b].sub_id);
                }
                lemma_same_procs(pre, *self);
                pre.lemma_proc_idx(pi as int);
                assert forall|a: int| 0 <= a < self.subs@.len() implies self.has_proc(
                    #[trigger] self.subs@[a].agent_id,
                ) && self.subs@[a].cursor <= self.output_of(self.subs@[a].agent_id).len() by {
                    if a != si {
                        let sa = pre.subs@[a].agent_id;
                        assert(pre.has_proc(sa));
                        assert(pre.subs@[a].cursor <= pre.output_of(sa).len());
                        assert(self.output_of(sa) == pre.output_of(sa));
                    } else {
                        assert(self.subs@[a].agent_id == agent_id);
                        assert(self.output_of(agent_id) == pre.output_of(agent_id));
                        assert(pre.output_of(agent_id).len() == len);
                    }
                }
            }
            lemma_same_procs(pre, *self);
            self.lemma_sub_idx(si as int);
            pre.lemma_sub_idx(si as int);
            pre.lemma_proc_idx(pi as int);
        }
        Ok(OutputBatch { chunks, overrun, ended })
    }

    /// Writes input to the agent's pty. A missing registration is
    /// `AgentNotFound`; a process that has already exited is the benign
    /// "process not running" condition, surfaced as `ProcessError`.
    pub fn send_pty_input(&mut self, agent_id: u64, input: String) -> (r: Result<(), ServerError>)
        requires
            old(self).wf(),
        ensures
            final(self).wf(),
            (r matches Ok(_)) <==> old(self).agent_alive(agent_id),
            !old(self).has_proc(agent_id) ==> r == Err::<(), ServerError>(
                ServerError::AgentNotFound(agent_id),
            ),
            old(self).has_proc(agent_id) && !old(self).agent_alive(agent_id) ==> (r matches Err(e)
                && e matches ServerError::ProcessError(_)),
            r is Err ==> *final(self) == *old(self),
            r matches Ok(_) ==> {
                &&& final(self).input_of(agent_id) == old(self).input_of(agent_id).push(input)
                &&& final(self).procs@.len() == old(self).procs@.len()
                &&& final(self).output_of(agent_id) == old(self).output_of(agent_id)
                &&& final(self).agent_alive(agent_id)
                &&& final(self).pid_of(agent_id) == old(self).pid_of(agent_id)
                &&& forall|a: u64| #[trigger] final(self).has_proc(a) == old(self).has_proc(a)
                &&& forall|a: u64|
                    a != agent_id && #[trigger] old(self).has_proc(a) ==> final(self).proc_of(a)
                        == old(self).proc_of(a)
                &&& final(self).subs@ == old(self).subs@
                &&& final(self).events@ == old(self).events@
                &&& final(self).next_pid == old(self).next_pid
                &&& final(self).next_sub_id == old(self).next_sub_id
            },
    {
        let found = self.find_proc(agent_id);
        let i = match found {
            None => {
                return Err(ServerError::AgentNotFound(agent_id));
            },
            Some(i) => i,
        };
        if !self.procs[i].alive {
            return Err(ServerError::ProcessError(String::from_str("process not running")));
        }
        let ghost pre = *self;
        self.procs[i].input_writes.push(input);
        proof {
            lemma_proc_update_frame(pre, *self, i as int);
        }
        Ok(())
    }

    /// Kills the process with this pid and queues its exit event.
    /// Idempotent: an unknown or already-exited pid is not an error and
    /// changes nothing.
    pub fn kill_process(&mut self, pid: u32) -> (r: Result<(), ServerError>)
        requires
            old(self).wf(),
        ensures
            final(self).wf(),
            r matches Ok(_),
            !(old(self).has_pid(pid) && old(self).procs@[old(self).pid_idx(pid)].alive) ==> *final(self) == *old(self),
            old(self).has_pid(pid) && old(self).procs@[old(self).pid_idx(pid)].alive ==> ({
                let a = old(self).procs@[old(self).pid_idx(pid)].agent_id;
                &&& killed_frame(*old(self), *final(self), a)
                &&& final(self).events@ == old(self).events@.push(
                    (PtyEvent { agent_id: a, clean: false }),
                )
            }),
    {
        let found = self.find_pid(pid);
        let i = match found {
            None => {
                return Ok(());
            },
            Some(i) => i,
        };
        if !self.procs[i].alive {
            return Ok(());
        }
        let agent_id = self.procs[i].agent_id;
        let ghost pre = *self;
        self.procs[i].alive = false;
        self.events.push(PtyEvent { agent_id, clean: false });
        proof {
            pre.lemma_proc_idx(i as int);
            lemma_proc_update_frame(pre, *self, i as int);
        }
        Ok(())
    }

    /// Records that the process with this pid exited on its own, with the
    /// given status code, and queues the exit event. Reporting an exit for
    /// an already-dead process changes nothing.
    pub fn process_exited(&mut self, pid: u32, exit_code: u32) -> (r: Result<(), ServerError>)
        requires
            old(self).wf(),
        ensures
            final(self).wf(),
            (r matches Ok(_)) <==> old(self).has_pid(pid),
            !old(self).has_pid(pid) ==> (r matches Err(e) && e matches ServerError::ProcessError(
                _,
            )),
            r is Err ==> *final(self) == *old(self),
            old(self).has_pid(pid) && !old(self).procs@[old(self).pid_idx(pid)].alive ==> *final(self) == *old(self),
            old(self).has_pid(pid) && old(self).procs@[old(self).pid_idx(pid)].alive ==> ({
                let a = old(self).procs@[old(self).pid_idx(pid)].agent_id;
                &&& killed_frame(*old(self), *final(self), a)
                &&& final(self).events@ == old(self).events@.push(
                    (PtyEvent { agent_id: a, clean: exit_code == 0 }),
                )
            }),
    {
        let found = self.find_pid(pid);
        let i = match found {
            None => {
                return Err(ServerError::ProcessError(String::from_str("unknown pid")));
            },
            Some(i) => i,
        };
        if !self.procs[i].alive {
            return Ok(());
        }
        let agent_id = self.procs[i].agent_id;
        let clean = exit_code == 0;
        let ghost pre = *self;
        self.procs[i].alive = false;
        self.events.push(PtyEvent { agent_id, clean });
        proof {
            pre.lemma_proc_idx(i as int);
            lemma_proc_update_frame(pre, *self, i as int);
        }
        Ok(())
    }

    /// Takes the oldest queued exit event, if any.
    pub fn poll_event(&mut self) -> (r: Option<PtyEvent>)
        requires
            old(self).wf(),
        ensures
            final(self).wf(),
            old(self).events@.len() == 0 ==> r is None && *final(self) == *old(self),
            old(self).events@.len() > 0 ==> {
                &&& r == Some(old(self).events@[0])
                &&& final(self).events@ == old(self).events@.subrange(
                    1,
                    old(self).events@.len() as int,
                )
                &&& final(self).procs@ == old(self).procs@
                &&& final(self).subs@ == old(self).subs@
                &&& final(self).next_pid == old(self).next_pid
                &&& final(self).next_sub_id == old(self).next_sub_id
            },
    {
        if self.events.len() == 0 {
            return None;
        }
        let ev = self.events.remove(0);
        proof {
            assert(self.events@ == old(self).events@.remove(0));
            assert(self.events@ =~= old(self).events@.subrange(1, old(self).events@.len() as int));
        }
        Some(ev)
    }
}

/// What holds of the controller after one agent's process is marked dead:
/// only that process's liveness changes.
pub open spec fn killed_frame(pre: PtyService, post: PtyService, agent_id: u64) -> bool {
    &&& pre.has_proc(agent_id)
    &&& post.has_proc(agent_id)
    &&& !post.proc_of(agent_id).alive
    &&& post.proc_of(agent_id).pid == pre.proc_of(agent_id).pid
    &&& post.output_of(agent_id) == pre.output_of(agent_id)
    &&& post.input_of(agent_id) == pre.input_of(agent_id)
    &&& forall|a: u64| #[trigger] post.has_proc(a) == pre.has_proc(a)
    &&& forall|a: u64|
        a != agent_id && #[trigger] pre.has_proc(a) ==> post.proc_of(a) == pre.proc_of(a)
    &&& post.subs@ == pre.subs@
    &&& post.next_pid == pre.next_pid
    &&& post.next_sub_id == pre.next_sub_id
}

/// Two controller values with the same process list agree on every
/// process lookup.
proof fn lemma_same_procs(pre: PtyService, post: PtyService)
    requires
        pre.wf(),
        post.procs@ == pre.procs@,
    ensures
        forall|a: u64| #[trigger] post.has_proc(a) == pre.has_proc(a),
        forall|a: u64|
            #[trigger] pre.has_proc(a) ==> post.proc_of(a) == pre.proc_of(a) && post.proc_idx(a)
                == pre.proc_idx(a),
{
    assert forall|a: u64| #[trigger] post.has_proc(a) == pre.has_proc(a) by {
        if pre.has_proc(a) {
            let j = pre.proc_idx(a);
            assert(post.procs@[j].agent_id == a);
        }
        if post.has_proc(a) {
            let j = post.proc_idx(a);
            assert(pre.procs@[j].agent_id == a);
        }
    }
    assert forall|a: u64| #[trigger] pre.has_proc(a) implies post.proc_of(a) == pre.proc_of(a)
        && post.proc_idx(a) == pre.proc_idx(a) by {
        let j = pre.proc_idx(a);
        assert(post.procs@[j].agent_id == a);
        let j2 = post.proc_idx(a);
        assert(pre.procs@[j2].agent_id == a);
        if j2 < j {
            assert(pre.procs@[j2].agent_id != pre.procs@[j].agent_id);
        } else if j < j2 {
            assert(pre.procs@[j].agent_id != pre.procs@[j2].agent_id);
        }
    }
}

/// Replacing one process entry, keeping its agent, pid and at least its
/// output length, keeps the controller well formed; every other process is
/// untouched.
proof fn lemma_proc_update_frame(pre: PtyService, post: PtyService, k: int)
    requires
        pre.wf(),
        0 <= k < pre.procs@.len(),
        post.procs@.len() == pre.procs@.len(),
        forall|i: int| 0 <= i < pre.procs@.len() && i != k ==> post.procs@[i] == pre.procs@[i],
        post.procs@[k].agent_id == pre.procs@[k].agent_id,
        post.procs@[k].pid == pre.procs@[k].pid,
        post.procs@[k].output@.len() >= pre.procs@[k].output@.len(),
        post.subs@ == pre.subs@,
        post.next_pid == pre.next_pid,
        post.next_sub_id == pre.next_sub_id,
    ensures
        post.wf(),
        forall|a: u64| #[trigger] post.has_proc(a) == pre.has_proc(a),
        forall|a: u64|
            a != pre.procs@[k].agent_id && #[trigger] pre.has_proc(a) ==> post.proc_of(a)
                == pre.proc_of(a),
        post.has_proc(pre.procs@[k].agent_id),
        post.proc_of(pre.procs@[k].agent_id) == post.procs@[k],
        forall|p: u32| #[trigger] post.has_pid(p) == pre.has_pid(p),
        post.has_pid(pre.procs@[k].pid),
        post.pid_idx(pre.procs@[k].pid) == k,
{
    let aid = pre.procs@[k].agent_id;
    assert forall|i: int| 0 <= i < post.procs@.len() implies #[trigger] post.procs@[i].agent_id
        == pre.procs@[i].agent_id && post.procs@[i].pid == pre.procs@[i].pid by {
        if i != k {
            assert(post.procs@[i] == pre.procs@[i]);
        }
    }
    assert(post.wf()) by {
        assert forall|a: int, b: int|
            0 <= a < b < post.procs@.len() implies #[trigger] post.procs@[a].agent_id
            != #[trigger] post.procs@[b].agent_id by {
            assert(pre.procs@[a].agent_id != pre.procs@[b].agent_id);
        }
        assert forall|a: int, b: int|
            0 <= a < b < post.procs@.len() implies #[trigger] post.procs@[a].pid
            != #[trigger] post.procs@[b].pid by {
            assert(pre.procs@[a].pid != pre.procs@[b].pid);
        }
        assert forall|a: int| 0 <= a < post.procs@.len() implies #[trigger] post.procs@[a].pid
            < post.next_pid by {
            assert(post.procs@[a].pid == pre.procs@[a].pid);
        }
        assert forall|a: int| 0 <= a < post.subs@.len() implies post.has_proc(
            #[trigger] post.subs@[a].agent_id,
        ) && post.subs@[a].cursor <= post.output_of(post.subs@[a].agent_id).len() by {
            let sa = pre.subs@[a].agent_id;
            assert(pre.has_proc(sa));
            let j = pre.proc_idx(sa);
            assert(post.procs@[j].agent_id == sa);
            post.lemma_proc_idx_inner(j);
            if j != k {
                assert(post.procs@[j] == pre.procs@[j]);
            }
            assert(pre.subs@[a].cursor <= pre.output_of(sa).len());
        }
    }
    post.lemma_proc_idx(k);
    post.lemma_pid_idx(k);
    assert forall|a: u64| #[trigger] post.has_proc(a) == pre.has_proc(a) by {
        if pre.has_proc(a) {
            let i0 = pre.proc_idx(a);
            assert(post.procs@[i0].agent_id == a);
        }
        if post.has_proc(a) {
            let i1 = post.proc_idx(a);
            assert(pre.procs@[i1].agent_id == a);
        }
    }
    assert forall|a: u64| a != aid && #[trigger] pre.has_proc(a) implies post.proc_of(a)
        == pre.proc_of(a) by {
        let i0 = pre.proc_idx(a);
        pre.lemma_proc_idx(i0);
        assert(i0 != k);
        assert(post.procs@[i0] == pre.procs@[i0]);
        post.lemma_proc_idx(i0);
    }
    assert forall|p: u32| #[trigger] post.has_pid(p) == pre.has_pid(p) by {
        if pre.has_pid(p) {
            let i0 = pre.pid_idx(p);
            assert(post.procs@[i0].pid == p);
        }
        if post.has_pid(p) {
            let i1 = post.pid_idx(p);
            assert(pre.procs@[i1].pid == p);
        }
    }
}

/// Appending a fresh process keeps the controller well formed; every other
/// process and all subscriptions are untouched.
proof fn lemma_proc_push_frame(pre: PtyService, post: PtyService, agent_id: u64)
    requires
        pre.wf(),
        !pre.has_proc(agent_id),
        post.procs@.len() == pre.procs@.len() + 1,
        forall|i: int| 0 <= i < pre.procs@.len() ==> post.procs@[i] == #[trigger] pre.procs@[i],
        post.procs@[pre.procs@.len() as int].agent_id == agent_id,
        post.procs@[pre.procs@.len() as int].pid == pre.next_pid,
        post.next_pid == pre.next_pid + 1,
        post.subs@ == pre.subs@,
        post.next_sub_id == pre.next_sub_id,
    ensures
        post.wf(),
        post.has_proc(agent_id),
        post.proc_of(agent_id) == post.procs@[pre.procs@.len() as int],
        forall|a: u64| a != agent_id ==> #[trigger] post.has_proc(a) == pre.has_proc(a),
        forall|a: u64|
            a != agent_id && #[trigger] pre.has_proc(a) ==> post.proc_of(a) == pre.proc_of(a),
{
    let n = pre.procs@.len() as int;
    assert(post.wf()) by {
        assert forall|a: int, b: int|
            0 <= a < b < post.procs@.len() implies #[trigger] post.procs@[a].agent_id
            != #[trigger] post.procs@[b].agent_id by {
            if b < n {
                assert(pre.procs@[a].agent_id != pre.procs@[b].agent_id);
            } else {
                assert(post.procs@[a] == pre.procs@[a]);
                if pre.procs@[a].agent_id == agent_id {
                    assert(pre.has_proc(agent_id));
                }
            }
        }
        assert forall|a: int, b: int|
            0 <= a < b < post.procs@.len() implies #[trigger] post.procs@[a].pid
            != #[trigger] post.procs@[b].pid by {
            if b < n {
                assert(pre.procs@[a].pid != pre.procs@[b].pid);
            } else {
                assert(pre.procs@[a].pid < pre.next_pid);
            }
        }
        assert forall|a: int| 0 <= a < post.procs@.len() implies #[trigger] post.procs@[a].pid
            < post.next_pid by {
            if a < n {
                assert(pre.procs@[a].pid < pre.next_pid);
            }
        }
        assert forall|a: int| 0 <= a < post.subs@.len() implies post.has_proc(
            #[trigger] post.subs@[a].agent_id,
        ) && post.subs@[a].cursor <= post.output_of(post.subs@[a].agent_id).len() by {
            let sa = pre.subs@[a].agent_id;
            assert(pre.has_proc(sa));
            let j = pre.proc_idx(sa);
            assert(post.procs@[j].agent_id == sa);
            post.lemma_proc_idx_inner(j);
            assert(pre.subs@[a].cursor <= pre.output_of(sa).len());
        }
    }
    post.lemma_proc_idx(n);
    assert forall|a: u64| a != agent_id implies #[trigger] post.has_proc(a) == pre.has_proc(a) by {
        if pre.has_proc(a) {
            let i0 = pre.proc_idx(a);
            assert(post.procs@[i0].agent_id == a);
        }
        if post.has_proc(a) {
            let i1 = post.proc_idx(a);
            assert(i1 != n);
            assert(pre.procs@[i1].agent_id == a);
        }
    }
    assert forall|a: u64| a != agent_id && #[trigger] pre.has_proc(a) implies post.proc_of(a)
        == pre.proc_of(a) by {
        let i0 = pre.proc_idx(a);
        pre.lemma_proc_idx(i0);
        assert(post.procs@[i0].agent_id == a);
        post.lemma_proc_idx(i0);
    }
}

impl PtyService {
    /// A variant of [`Self::lemma_proc_idx`] usable while well-formedness of
    /// the whole service is still being established: it needs only the
    /// uniqueness of process agent ids.
    proof fn lemma_proc_idx_inner(self, i: int)
        requires
            forall|a: int, b: int|
                0 <= a < b < self.procs@.len() ==> #[trigger] self.procs@[a].agent_id
                    != #[trigger] self.procs@[b].agent_id,
            0 <= i < self.procs@.len(),
        ensures
            self.has_proc(self.procs@[i].agent_id),
            self.proc_idx(self.procs@[i].agent_id) == i,
    {
        let a = self.procs@[i].agent_id;
        assert(self.has_proc(a));
        let j = self.proc_idx(a);
        if j < i {
            assert(self.procs@[j].agent_id != self.procs@[i].agent_id);
        } else if i < j {
            assert(self.procs@[i].agent_id != self.procs@[j].agent_id);
        }
    }
}

} // verus!
