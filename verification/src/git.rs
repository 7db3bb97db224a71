//! Git synchronization for worktrees: status queries, commits and pushes.
//!
//! The service keeps one repository record per registered worktree. The
//! surrounding shell reports what only the repository on disk can know (the
//! working-tree scan and the remote position) through
//! [`GitService::observe_status`]; committing and pushing act on that
//! record. Callers must hold the worktree's reservation while invoking the
//! mutating operations; the service itself has no view of the lock table.

use vstd::prelude::*;
use vstd::string::*;

use crate::error::ServerError;
use crate::models::{GitStatus, clone_strings};

verus! {

/// The tracked repository state of one worktree.
pub struct RepoEntry {
    pub worktree_id: u64,
    pub branch: String,
    pub staged: Vec<String>,
    pub unstaged: Vec<String>,
    pub untracked: Vec<String>,
    pub ahead: u32,
    pub behind: u32,
}

/// Performs status, commit and push against registered worktrees.
pub struct GitService {
    pub repos: Vec<RepoEntry>,
}

impl GitService {
    /// Well-formedness: one record per worktree.
    pub open spec fn wf(self) -> bool {
        forall|i: int, j: int|
            0 <= i < j < self.repos@.len() ==> #[trigger] self.repos@[i].worktree_id
                != #[trigger] self.repos@[j].worktree_id
    }

    /// A record for this worktree exists.
    pub open spec fn has_repo(self, worktree_id: u64) -> bool {
        exists|i: int|
            0 <= i < self.repos@.len() && #[trigger] self.repos@[i].worktree_id == worktree_id
    }

    /// The index of this worktree's record.
    pub open spec fn repo_idx(self, worktree_id: u64) -> int {
        choose|i: int|
            0 <= i < self.repos@.len() && #[trigger] self.repos@[i].worktree_id == worktree_id
    }

    /// This worktree's record.
    pub open spec fn repo_of(self, worktree_id: u64) -> RepoEntry {
        self.repos@[self.repo_idx(worktree_id)]
    }

    /// With unique worktree ids, the record found at an index is the one
    /// `repo_idx` picks for its worktree.
    pub proof fn lemma_repo_idx(self, i: int)
        requires
            self.wf(),
            0 <= i < self.repos@.len(),
        ensures
            self.has_repo(self.repos@[i].worktree_id),
            self.repo_idx(self.repos@[i].worktree_id) == i,
    {
        let w = self.repos@[i].worktree_id;
        assert(self.has_repo(w));
        let j = self.repo_idx(w);
        if j < i {
            assert(self.repos@[j].worktree_id != self.repos@[i].worktree_id);
        } else if i < j {
            assert(self.repos@[i].worktree_id != self.repos@[j].worktree_id);
        }
    }

    /// An empty service.
    pub fn new() -> (s: Self)
        ensures
            s.wf(),
            s.repos@.len() == 0,
    {
        GitService { repos: Vec::new() }
    }

    /// Finds the index of this worktree's record.
    fn find_repo(&self, worktree_id: u64) -> (r: Option<usize>)
        requires
            self.wf(),
        ensures
            match r {
                Some(i) => {
                    &&& i < self.repos@.len()
                    &&& self.repos@[i as int].worktree_id == worktree_id
                    &&& self.has_repo(worktree_id)
                    &&& self.repo_idx(worktree_id) == i
                },
                None => !self.has_repo(worktree_id),
            },
    {
        let mut i: usize = 0;
        while i < self.repos.len()
            invariant
                self.wf(),
                i <= self.repos@.len(),
                forall|j: int| 0 <= j < i ==> #[trigger] self.repos@[j].worktree_id != worktree_id,
            decreases self.repos@.len() - i,
        {
            if self.repos[i].worktree_id == worktree_id {
                proof {
                    self.lemma_repo_idx(i as int);
                }
                return Some(i);
            }
            i = i + 1;
        }
        None
    }

    /// Starts tracking a worktree checked out at `branch`, with a clean
    /// working tree and no unpushed commits.
    pub fn register_worktree(&mut self, worktree_id: u64, branch: String) -> (r: Result<
        (),
        ServerError,
    >)
        requires
            old(self).wf(),
        ensures
            final(self).wf(),
            (r matches Ok(_)) <==> !old(self).has_repo(worktree_id),
            old(self).has_repo(worktree_id) ==> (r matches Err(e) && e matches
                ServerError::GitError(_)),
            r is Err ==> *final(self) == *old(self),
            r matches Ok(_) ==> {
                &&& final(self).has_repo(worktree_id)
                &&& final(self).repo_of(worktree_id).branch == branch
                &&& final(self).repo_of(worktree_id).staged@.len() == 0
                &&& final(self).repo_of(worktree_id).unstaged@.len() == 0
                &&& final(self).repo_of(worktree_id).untracked@.len() == 0
                &&& final(self).repo_of(worktree_id).ahead == 0
                &&& final(self).repo_of(worktree_id).behind == 0
                &&& forall|w: u64|
                    w != worktree_id ==> #[trigger] final(self).has_repo(w) == old(self).has_repo(w)
                &&& forall|w: u64|
                    w != worktree_id && #[trigger] old(self).has_repo(w) ==> final(self).repo_of(w)
                        == old(self).repo_of(w)
            },
    {
        match self.find_repo(worktree_id) {
            Some(_) => {
                return Err(ServerError::GitError(String::from_str("worktree already tracked")));
            },
            None => {},
        }
        let ghost pre = *self;
        self.repos.push(
            RepoEntry {
                worktree_id,
                branch,
                staged: Vec::new(),
                unstaged: Vec::new(),
                untracked: Vec::new(),
                ahead: 0,
                behind: 0,
            },
        );
        proof {
            let n = pre.repos@.len() as int;
            assert(self.wf()) by {
                assert forall|a: int, b: int|
                    0 <= a < b < self.repos@.len() implies #[trigger] self.repos@[a].worktree_id
                    != #[trigger] self.repos@[b].worktree_id by {
                    if b < n {
                        assert(pre.repos@[a].worktree_id != pre.repos@[b].worktree_id);
                    } else {
                        assert(self.repos@[a] == pre.repos@[a]);
                        if pre.repos@[a].worktree_id == worktree_id {
                            assert(pre.has_repo(worktree_id));
                        }
                    }
                }
            }
            self.lemma_repo_idx(n);
            assert forall|w: u64| w != worktree_id implies #[trigger] self.has_repo(w) == pre.has_repo(
                w,
            ) by {
                if pre.has_repo(w) {
                    let i0 = pre.repo_idx(w);
                    assert(self.repos@[i0].worktree_id == w);
                }
                if self.has_repo(w) {
                    let i1 = self.repo_idx(w);
                    assert(i1 != n);
                    assert(pre.repos@[i1].worktree_id == w);
                }
            }
            assert forall|w: u64| w != worktree_id && #[trigger] pre.has_repo(w) implies self.repo_of(
                w,
            ) == pre.repo_of(w) by {
                let i0 = pre.repo_idx(w);
                pre.lemma_repo_idx(i0);
                assert(self.repos@[i0].worktree_id == w);
                self.lemma_repo_idx(i0);
            }
        }
        Ok(())
    }

    /// Returns a point-in-time snapshot of the worktree's repository state.
    pub fn get_status(&self, worktree_id: u64) -> (r: Result<GitStatus, ServerError>)
        requires
            self.wf(),
        ensures
            (r matches Ok(_)) <==> self.has_repo(worktree_id),
            !self.has_repo(worktree_id) ==> r == Err::<GitStatus, ServerError>(
                ServerError::WorktreeNotFound(worktree_id),
            ),
            r matches Ok(st) ==> ({
                let e = self.repo_of(worktree_id);
                &&& st.branch == e.branch
                &&& st.staged@ == e.staged@
                &&& st.unstaged@ == e.unstaged@
                &&& st.untracked@ == e.untracked@
                &&& st.ahead == e.ahead
                &&& st.behind == e.behind
            }),
    {
        let i = match self.find_repo(worktree_id) {
            None => {
                return Err(ServerError::WorktreeNotFound(worktree_id));
            },
            Some(i) => i,
        };
        let e = &self.repos[i];
        let st = GitStatus {
            branch: e.branch.clone(),
            staged: clone_strings(&e.staged),
            unstaged: clone_strings(&e.unstaged),
            untracked: clone_strings(&e.untracked),
            ahead: e.ahead,
            behind: e.behind,
        };
        proof {
            assert(st.staged@ =~= e.staged@);
            assert(st.unstaged@ =~= e.unstaged@);
            assert(st.untracked@ =~= e.untracked@);
        }
        Ok(st)
    }

    /// Records what only the repository on disk can know: the staged,
    /// unstaged and untracked paths of the working tree and how far the
    /// branch is behind its remote.
    pub fn observe_status(
        &mut self,
        worktree_id: u64,
        staged: Vec<String>,
        unstaged: Vec<String>,
        untracked: Vec<String>,
        behind: u32,
    ) -> (r: Result<(), ServerError>)
        requires
            old(self).wf(),
        ensures
            final(self).wf(),
            (r matches Ok(_)) <==> old(self).has_repo(worktree_id),
            !old(self).has_repo(worktree_id) ==> r == Err::<(), ServerError>(
                ServerError::WorktreeNotFound(worktree_id),
            ),
            r is Err ==> *final(self) == *old(self),
            r matches Ok(_) ==> {
                &&& final(self).repo_of(worktree_id).staged@ == staged@
                &&& final(self).repo_of(worktree_id).unstaged@ == unstaged@
                &&& final(self).repo_of(worktree_id).untracked@ == untracked@
                &&& final(self).repo_of(worktree_id).behind == behind
                &&& final(self).repo_of(worktree_id).ahead == old(self).repo_of(worktree_id).ahead
                &&& final(self).repo_of(worktree_id).branch == old(self).repo_of(worktree_id).branch
                &&& repo_update_frame(*old(self), *final(self), worktree_id)
            },
    {
        let i = match self.find_repo(worktree_id) {
            None => {
                return Err(ServerError::WorktreeNotFound(worktree_id));
            },
            Some(i) => i,
        };
        let ghost pre = *self;
        self.repos[i].staged = staged;
        self.repos[i].unstaged = unstaged;
        self.repos[i].untracked = untracked;
        self.repos[i].behind = behind;
        proof {
            lemma_repo_update_frame(pre, *self, i as int);
        }
        Ok(())
    }

    /// Commits the staged changes with the given message. Nothing is staged
    /// automatically; an empty message and an empty stage are both refused.
    pub fn commit_changes(&mut self, worktree_id: u64, message: String) -> (r: Result<
        (),
        ServerError,
    >)
        requires
            old(self).wf(),
        ensures
            final(self).wf(),
            (r matches Ok(_)) <==> (old(self).has_repo(worktree_id) && message@.len() > 0 && old(
                self,
            ).repo_of(worktree_id).staged@.len() > 0),
            !old(self).has_repo(worktree_id) ==> r == Err::<(), ServerError>(
                ServerError::WorktreeNotFound(worktree_id),
            ),
            old(self).has_repo(worktree_id) && (message@.len() == 0 || old(self).repo_of(
                worktree_id,
            ).staged@.len() == 0) ==> (r matches Err(e) && e matches ServerError::GitError(_)),
            r is Err ==> *final(self) == *old(self),
            r matches Ok(_) ==> ({
                let e = old(self).repo_of(worktree_id);
                &&& final(self).repo_of(worktree_id).staged@.len() == 0
                &&& final(self).repo_of(worktree_id).ahead as int == (if e.ahead < u32::MAX {
                    e.ahead as int + 1
                } else {
                    e.ahead as int
                })
                &&& final(self).repo_of(worktree_id).unstaged@ == e.unstaged@
                &&& final(self).repo_of(worktree_id).untracked@ == e.untracked@
                &&& final(self).repo_of(worktree_id).behind == e.behind
                &&& final(self).repo_of(worktree_id).branch == e.branch
                &&& repo_update_frame(*old(self), *final(self), worktree_id)
            }),
    {
        let i = match self.find_repo(worktree_id) {
            None => {
                return Err(ServerError::WorktreeNotFound(worktree_id));
            },
            Some(i) => i,
        };
        if message.as_str().is_empty() {
            return Err(ServerError::GitError(String::from_str("empty commit message")));
        }
        if self.repos[i].staged.len() == 0 {
            return Err(ServerError::GitError(String::from_str("nothing staged")));
        }
        let ghost pre = *self;
        self.repos[i].staged = Vec::new();
        if self.repos[i].ahead < u32::MAX {
            self.repos[i].ahead = self.repos[i].ahead + 1;
        }
        proof {
            lemma_repo_update_frame(pre, *self, i as int);
        }
        Ok(())
    }

    /// Pushes the branch to its remote. A branch behind its remote is
    /// rejected as a non-fast-forward; there is no automatic retry or
    /// force-push. A successful push leaves nothing ahead.
    pub fn push_changes(&mut self, worktree_id: u64) -> (r: Result<(), ServerError>)
        requires
            old(self).wf(),
        ensures
            final(self).wf(),
            (r matches Ok(_)) <==> (old(self).has_repo(worktree_id) && old(self).repo_of(
                worktree_id,
            ).behind == 0),
            !old(self).has_repo(worktree_id) ==> r == Err::<(), ServerError>(
                ServerError::WorktreeNotFound(worktree_id),
            ),
            old(self).has_repo(worktree_id) && old(self).repo_of(worktree_id).behind > 0 ==> (
            r matches Err(e) && e matches ServerError::GitError(_)),
            r is Err ==> *final(self) == *old(self),
            r matches Ok(_) ==> ({
                let e = old(self).repo_of(worktree_id);
                &&& final(self).repo_of(worktree_id).ahead == 0
                &&& final(self).repo_of(worktree_id).staged@ == e.staged@
                &&& final(self).repo_of(worktree_id).unstaged@ == e.unstaged@
                &&& final(self).repo_of(worktree_id).untracked@ == e.untracked@
                &&& final(self).repo_of(worktree_id).behind == e.behind
                &&& final(self).repo_of(worktree_id).branch == e.branch
                &&& repo_update_frame(*old(self), *final(self), worktree_id)
            }),
    {
        let i = match self.find_repo(worktree_id) {
            None => {
                return Err(ServerError::WorktreeNotFound(worktree_id));
            },
            Some(i) => i,
        };
        if self.repos[i].behind > 0 {
            return Err(ServerError::GitError(String::from_str("push rejected: non-fast-forward")));
        }
        let ghost pre = *self;
        self.repos[i].ahead = 0;
        proof {
            lemma_repo_update_frame(pre, *self, i as int);
        }
        Ok(())
    }
}

/// What holds of the service after one worktree's record is replaced: every
/// other record, and the set of tracked worktrees, is untouched.
pub open spec fn repo_update_frame(pre: GitService, post: GitService, worktree_id: u64) -> bool {
    &&& post.has_repo(worktree_id)
    &&& forall|w: u64| #[trigger] post.has_repo(w) == pre.has_repo(w)
    &&& forall|w: u64|
        w != worktree_id && #[trigger] pre.has_repo(w) ==> post.repo_of(w) == pre.repo_of(w)
    &&& post.repos@.len() == pre.repos@.len()
}

/// Replacing one record, keeping its worktree id, keeps the service well
/// formed and establishes [`repo_update_frame`].
proof fn lemma_repo_update_frame(pre: GitService, post: GitService, k: int)
    requires
        pre.wf(),
        0 <= k < pre.repos@.len(),
        post.repos@.len() == pre.repos@.len(),
        forall|i: int| 0 <= i < pre.repos@.len() && i != k ==> post.repos@[i] == pre.repos@[i],
        post.repos@[k].worktree_id == pre.repos@[k].worktree_id,
    ensures
        post.wf(),
        repo_update_frame(pre, post, pre.repos@[k].worktree_id),
        post.repo_of(pre.repos@[k].worktree_id) == post.repos@[k],
        post.repo_idx(pre.repos@[k].worktree_id) == k,
{
    let wid = pre.repos@[k].worktree_id;
    assert forall|i: int| 0 <= i < post.repos@.len() implies #[trigger] post.repos@[i].worktree_id
        == pre.repos@[i].worktree_id by {
        if i != k {
            assert(post.repos@[i] == pre.repos@[i]);
        }
    }
    assert(post.wf()) by {
        assert forall|a: int, b: int|
            0 <= a < b < post.repos@.len() implies #[trigger] post.repos@[a].worktree_id
            != #[trigger] post.repos@[b].worktree_id by {
            assert(pre.repos@[a].worktree_id != pre.repos@[b].worktree_id);
        }
    }
    post.lemma_repo_idx(k);
    assert forall|w: u64| #[trigger] post.has_repo(w) == pre.has_repo(w) by {
        if pre.has_repo(w) {
            let i0 = pre.repo_idx(w);
            assert(post.repos@[i0].worktree_id == w);
        }
        if post.has_repo(w) {
            let i1 = post.repo_idx(w);
            assert(pre.repos@[i1].worktree_id == w);
        }
    }
    assert forall|w: u64| w != wid && #[trigger] pre.has_repo(w) implies post.repo_of(w)
        == pre.repo_of(w) by {
        let i0 = pre.repo_idx(w);
        pre.lemma_repo_idx(i0);
        assert(i0 != k);
        assert(post.repos@[i0] == pre.repos@[i0]);
        post.lemma_repo_idx(i0);
    }
}

} // verus!
