//! The worktree registry: creation, discovery, deletion, and the
//! per-worktree reservation that gives one agent at a time exclusive access.
//!
//! The registry is the single authority for worktree lifecycles. The
//! surrounding shell reports the repository's branches through
//! [`WorktreeService::add_branch`]; everything else is decided here.

use vstd::prelude::*;
use vstd::string::*;

use crate::error::ServerError;
use crate::models::Worktree;

verus! {

/// A registered worktree together with the agent currently reserving it,
/// if any.
pub struct WorktreeEntry {
    pub worktree: Worktree,
    pub holder: Option<u64>,
}

/// Owns the set of worktrees under a repository root and their reservations.
pub struct WorktreeService {
    pub repo_path: String,
    pub branches: Vec<String>,
    pub entries: Vec<WorktreeEntry>,
    pub next_id: u64,
}

impl WorktreeService {
    /// Well-formedness: ids are unique and below the id counter, and paths
    /// are unique among live worktrees.
    pub open spec fn wf(self) -> bool {
        &&& forall|i: int, j: int|
            0 <= i < j < self.entries@.len() ==> #[trigger] self.entries@[i].worktree.id
                != #[trigger] self.entries@[j].worktree.id
        &&& forall|i: int, j: int|
            0 <= i < j < self.entries@.len() ==> #[trigger] self.entries@[i].worktree.path@
                != #[trigger] self.entries@[j].worktree.path@
        &&& forall|i: int|
            0 <= i < self.entries@.len() ==> #[trigger] self.entries@[i].worktree.id
                < self.next_id
    }

    /// A worktree with this id is registered.
    pub open spec fn contains_id(self, id: u64) -> bool {
        exists|i: int| 0 <= i < self.entries@.len() && #[trigger] self.entries@[i].worktree.id == id
    }

    /// The index of the entry with this id (meaningful when registered).
    pub open spec fn idx_of(self, id: u64) -> int {
        choose|i: int| 0 <= i < self.entries@.len() && #[trigger] self.entries@[i].worktree.id == id
    }

    /// The registered worktree with this id.
    pub open spec fn worktree_of(self, id: u64) -> Worktree {
        self.entries@[self.idx_of(id)].worktree
    }

    /// The agent reserving the worktree with this id, if any.
    pub open spec fn holder_of(self, id: u64) -> Option<u64> {
        self.entries@[self.idx_of(id)].holder
    }

    /// A branch with this name has been reported to exist.
    pub open spec fn has_branch(self, b: Seq<char>) -> bool {
        exists|i: int| 0 <= i < self.branches@.len() && #[trigger] self.branches@[i]@ == b
    }

    /// Some registered worktree already sits at this path.
    pub open spec fn path_taken(self, p: Seq<char>) -> bool {
        exists|i: int|
            0 <= i < self.entries@.len() && #[trigger] self.entries@[i].worktree.path@ == p
    }

    /// The deterministic path a worktree of this name is checked out at.
    pub open spec fn joined_path(self, name: Seq<char>) -> Seq<char> {
        self.repo_path@ + "/"@ + name
    }

    /// With unique ids, the entry found at an index is the entry `idx_of`
    /// picks for that id.
    pub proof fn lemma_idx_of(self, i: int)
        requires
            self.wf(),
            0 <= i < self.entries@.len(),
        ensures
            self.contains_id(self.entries@[i].worktree.id),
            self.idx_of(self.entries@[i].worktree.id) == i,
    {
        let id = self.entries@[i].worktree.id;
        assert(self.contains_id(id));
        let j = self.idx_of(id);
        if j < i {
            assert(self.entries@[j].worktree.id != self.entries@[i].worktree.id);
        } else if i < j {
            assert(self.entries@[i].worktree.id != self.entries@[j].worktree.id);
        }
    }

    /// An empty registry under the given repository root.
    pub fn new(repo_path: String) -> (s: Self)
        ensures
            s.wf(),
            s.repo_path == repo_path,
            s.branches@.len() == 0,
            s.entries@.len() == 0,
            s.next_id == 0,
    {
        WorktreeService { repo_path, branches: Vec::new(), entries: Vec::new(), next_id: 0 }
    }

    /// Records that a branch of this name exists in the repository.
    pub fn add_branch(&mut self, branch: String)
        ensures
            final(self).branches@ == old(self).branches@.push(branch),
            final(self).has_branch(branch@),
            final(self).repo_path == old(self).repo_path,
            final(self).entries@ == old(self).entries@,
            final(self).next_id == old(self).next_id,
            old(self).wf() ==> final(self).wf(),
            forall|b: Seq<char>| old(self).has_branch(b) ==> final(self).has_branch(b),
    {
        self.branches.push(branch);
        proof {
            let n = self.branches@.len() - 1;
            assert(self.branches@[n]@ == branch@);
            assert forall|b: Seq<char>| old(self).has_branch(b) implies self.has_branch(b) by {
                let i = choose|i: int|
                    0 <= i < old(self).branches@.len() && #[trigger] old(self).branches@[i]@ == b;
                assert(self.branches@[i]@ == b);
            }
        }
    }

    /// Decides [`Self::has_branch`] at run time.
    fn branch_known(&self, branch: &String) -> (r: bool)
        ensures
            r == self.has_branch(branch@),
    {
        let mut i: usize = 0;
        while i < self.branches.len()
            invariant
                i <= self.branches@.len(),
                forall|j: int| 0 <= j < i ==> #[trigger] self.branches@[j]@ != branch@,
            decreases self.branches@.len() - i,
        {
            if self.branches[i] == *branch {
                return true;
            }
            i = i + 1;
        }
        false
    }

    /// Finds the index of the entry with this id.
    pub(crate) fn find_entry(&self, id: u64) -> (r: Option<usize>)
        requires
            self.wf(),
        ensures
            match r {
                Some(i) => {
                    &&& i < self.entries@.len()
                    &&& self.entries@[i as int].worktree.id == id
                    &&& self.contains_id(id)
                    &&& self.idx_of(id) == i
                },
                None => !self.contains_id(id),
            },
    {
        let mut i: usize = 0;
        while i < self.entries.len()
            invariant
                self.wf(),
                i <= self.entries@.len(),
                forall|j: int| 0 <= j < i ==> #[trigger] self.entries@[j].worktree.id != id,
            decreases self.entries@.len() - i,
        {
            if self.entries[i].worktree.id == id {
                proof {
                    self.lemma_idx_of(i as int);
                }
                return Some(i);
            }
            i = i + 1;
        }
        None
    }

    /// Returns the current set of worktrees, in creation order. Never fails
    /// on an empty repository; the registry itself is always readable.
    pub fn discover_worktrees(&self) -> (r: Result<Vec<Worktree>, ServerError>)
        ensures
            r matches Ok(ws) && ws@.len() == self.entries@.len(),
            r matches Ok(ws) ==> forall|i: int|
                0 <= i < self.entries@.len() ==> ws@[i] == #[trigger] self.entries@[i].worktree,
    {
        let mut ws: Vec<Worktree> = Vec::new();
        let mut i: usize = 0;
        while i < self.entries.len()
            invariant
                i <= self.entries@.len(),
                ws@.len() == i,
                forall|j: int| 0 <= j < i ==> ws@[j] == #[trigger] self.entries@[j].worktree,
            decreases self.entries@.len() - i,
        {
            ws.push(self.entries[i].worktree.clone());
            i = i + 1;
        }
        Ok(ws)
    }

    /// Creates a worktree named `name`, checked out at `branch`, under the
    /// deterministic path derived from the name. Fails when the branch is
    /// unknown or the path collides with an existing worktree; the returned
    /// id is usable immediately for reservation.
    pub fn create_worktree(&mut self, name: String, branch: String) -> (r: Result<
        Worktree,
        ServerError,
    >)
        requires
            old(self).wf(),
        ensures
            final(self).wf(),
            final(self).repo_path == old(self).repo_path,
            final(self).branches@ == old(self).branches@,
            (r matches Ok(w)) <==> (old(self).has_branch(branch@) && !old(self).path_taken(
                old(self).joined_path(name@),
            ) && old(self).next_id < u64::MAX),
            !old(self).has_branch(branch@) ==> (r matches Err(e) && e matches
                ServerError::GitError(_)),
            old(self).has_branch(branch@) && old(self).path_taken(old(self).joined_path(name@))
                ==> (r matches Err(e) && e matches ServerError::GitError(_)),
            r is Err ==> *final(self) == *old(self),
            r matches Ok(w) ==> {
                &&& w.id == old(self).next_id
                &&& w.path@ == old(self).joined_path(name@)
                &&& w.branch == branch
                &&& w.is_bare == false
                &&& final(self).next_id == old(self).next_id + 1
                &&& final(self).entries@.len() == old(self).entries@.len() + 1
                &&& final(self).entries@[old(self).entries@.len() as int].worktree == w
                &&& final(self).entries@[old(self).entries@.len() as int].holder is None
                &&& forall|i: int|
                    0 <= i < old(self).entries@.len() ==> final(self).entries@[i] == #[trigger] old(
                        self,
                    ).entries@[i]
                &&& final(self).contains_id(w.id)
                &&& final(self).holder_of(w.id) is None
                &&& final(self).worktree_of(w.id) == w
                &&& forall|x: u64|
                    #[trigger] old(self).contains_id(x) ==> final(self).contains_id(x)
                        && final(self).holder_of(x) == old(self).holder_of(x)
                        && final(self).worktree_of(x) == old(self).worktree_of(x)
            },
    {
        if !self.branch_known(&branch) {
            return Err(ServerError::GitError(String::from_str("branch does not exist")));
        }
        let mut path = self.repo_path.clone();
        path.append("/");
        path.append(name.as_str());
        proof {
            assert(path@ == self.joined_path(name@));
        }
        let mut i: usize = 0;
        while i < self.entries.len()
            invariant
                *self == *old(self),
                old(self).wf(),
                old(self).has_branch(branch@),
                path@ == old(self).joined_path(name@),
                i <= self.entries@.len(),
                forall|j: int| 0 <= j < i ==> #[trigger] self.entries@[j].worktree.path@ != path@,
            decreases self.entries@.len() - i,
        {
            if self.entries[i].worktree.path == path {
                proof {
                    assert(self.entries@[i as int].worktree.path@ == path@);
                    assert(old(self).path_taken(path@));
                }
                return Err(ServerError::GitError(String::from_str("worktree path already exists")));
            }
            i = i + 1;
        }
        if self.next_id == u64::MAX {
            return Err(ServerError::Internal(String::from_str("worktree id space exhausted")));
        }
        let id = self.next_id;
        let w = Worktree { id, path, branch, is_bare: false };
        let stored = w.clone();
        let ghost pre = *self;
        self.entries.push(WorktreeEntry { worktree: stored, holder: None });
        self.next_id = id + 1;
        proof {
            let n = pre.entries@.len() as int;
            assert(self.entries@ == pre.entries@.push(WorktreeEntry { worktree: stored, holder: None }));
            assert(self.wf()) by {
                assert forall|a: int, b: int| 0 <= a < b < self.entries@.len() implies #[trigger] self.entries@[a].worktree.id != #[trigger] self.entries@[b].worktree.id by {
                    if b < n {
                        assert(pre.entries@[a].worktree.id != pre.entries@[b].worktree.id);
                    } else {
                        assert(pre.entries@[a].worktree.id < pre.next_id);
                    }
                }
                assert forall|a: int, b: int| 0 <= a < b < self.entries@.len() implies #[trigger] self.entries@[a].worktree.path@ != #[trigger] self.entries@[b].worktree.path@ by {
                    if b < n {
                        assert(pre.entries@[a].worktree.path@ != pre.entries@[b].worktree.path@);
                    } else {
                        assert(!pre.path_taken(path@));
                        assert(pre.entries@[a].worktree.path@ != path@);
                    }
                }
            }
            self.lemma_idx_of(n);
            assert forall|x: u64| #[trigger] pre.contains_id(x) implies self.contains_id(x)
                && self.holder_of(x) == pre.holder_of(x) && self.worktree_of(x)
                == pre.worktree_of(x) by {
                let i0 = pre.idx_of(x);
                pre.lemma_idx_of(i0);
                assert(self.entries@[i0].worktree.id == x);
                self.lemma_idx_of(i0);
            }
        }
        Ok(w)
    }

    /// Deletes the worktree with this id. Never force-deletes: a worktree
    /// reserved by an agent is refused until that agent is terminated.
    pub fn delete_worktree(&mut self, id: u64) -> (r: Result<(), ServerError>)
        requires
            old(self).wf(),
        ensures
            final(self).wf(),
            (r matches Ok(_)) <==> (old(self).contains_id(id) && old(self).holder_of(id) is None),
            !old(self).contains_id(id) ==> r == Err::<(), ServerError>(
                ServerError::WorktreeNotFound(id),
            ),
            old(self).contains_id(id) && old(self).holder_of(id) is Some ==> (r matches Err(e)
                && e matches ServerError::GitError(_)),
            r is Err ==> *final(self) == *old(self),
            r matches Ok(_) ==> {
                &&& final(self).entries@ == old(self).entries@.remove(old(self).idx_of(id))
                &&& !final(self).contains_id(id)
                &&& forall|x: u64|
                    x != id ==> #[trigger] final(self).contains_id(x) == old(self).contains_id(x)
                &&& forall|x: u64|
                    x != id && #[trigger] old(self).contains_id(x) ==> final(self).holder_of(x)
                        == old(self).holder_of(x) && final(self).worktree_of(x)
                        == old(self).worktree_of(x)
                &&& final(self).next_id == old(self).next_id
                &&& final(self).branches@ == old(self).branches@
                &&& final(self).repo_path == old(self).repo_path
            },
    {
        let found = self.find_entry(id);
        match found {
            None => Err(ServerError::WorktreeNotFound(id)),
            Some(i) => {
                if self.entries[i].holder.is_some() {
                    return Err(ServerError::GitError(String::from_str("worktree is busy")));
                }
                let ghost pre = *self;
                let _removed = self.entries.remove(i);
                proof {
                    let k = i as int;
                    pre.entries@.remove_ensures(k);
                    assert(self.entries@ == pre.entries@.remove(k));
                    lemma_remove_frame(pre, *self, k);
                }
                Ok(())
            },
        }
    }

    /// Reserves the worktree for an agent. Refused while another agent
    /// holds it, so at most one agent reserves a worktree at any instant.
    pub fn reserve(&mut self, id: u64, agent_id: u64) -> (r: Result<(), ServerError>)
        requires
            old(self).wf(),
        ensures
            final(self).wf(),
            (r matches Ok(_)) <==> (old(self).contains_id(id) && old(self).holder_of(id) is None),
            !old(self).contains_id(id) ==> r == Err::<(), ServerError>(
                ServerError::WorktreeNotFound(id),
            ),
            old(self).contains_id(id) && old(self).holder_of(id) is Some ==> (r matches Err(e)
                && e matches ServerError::GitError(_)),
            r is Err ==> *final(self) == *old(self),
            r matches Ok(_) ==> holder_update_frame(*old(self), *final(self), id, Some(agent_id)),
    {
        let found = self.find_entry(id);
        match found {
            None => Err(ServerError::WorktreeNotFound(id)),
            Some(i) => {
                if self.entries[i].holder.is_some() {
                    return Err(ServerError::GitError(String::from_str("worktree is busy")));
                }
                let ghost pre = *self;
                self.entries[i].holder = Some(agent_id);
                proof {
                    lemma_update_frame(pre, *self, i as int, Some(agent_id));
                }
                Ok(())
            },
        }
    }

    /// Releases the reservation the given agent holds. Releasing a worktree
    /// the agent does not hold is an invariant violation (`Internal`).
    pub fn release(&mut self, id: u64, agent_id: u64) -> (r: Result<(), ServerError>)
        requires
            old(self).wf(),
        ensures
            final(self).wf(),
            (r matches Ok(_)) <==> (old(self).contains_id(id) && old(self).holder_of(id) == Some(
                agent_id,
            )),
            r is Err ==> *final(self) == *old(self),
            r is Err ==> (r matches Err(e) && e matches ServerError::Internal(_)),
            r matches Ok(_) ==> holder_update_frame(*old(self), *final(self), id, None),
    {
        let found = self.find_entry(id);
        match found {
            None => Err(ServerError::Internal(String::from_str("release of unknown worktree"))),
            Some(i) => {
                let held = match self.entries[i].holder {
                    Some(h) => h == agent_id,
                    None => false,
                };
                if !held {
                    return Err(ServerError::Internal(String::from_str("worktree reservation double release")));
                }
                let ghost pre = *self;
                self.entries[i].holder = None;
                proof {
                    lemma_update_frame(pre, *self, i as int, None);
                }
                Ok(())
            },
        }
    }
}

/// What changes, and what does not, when one entry's holder is replaced:
/// the worktree set is untouched and every other reservation is preserved.
pub open spec fn holder_update_frame(
    pre: WorktreeService,
    post: WorktreeService,
    id: u64,
    holder: Option<u64>,
) -> bool {
    &&& post.contains_id(id)
    &&& post.holder_of(id) == holder
    &&& forall|x: u64| #[trigger] post.contains_id(x) == pre.contains_id(x)
    &&& forall|x: u64|
        x != id && #[trigger] pre.contains_id(x) ==> post.holder_of(x) == pre.holder_of(x)
    &&& forall|x: u64|
        #[trigger] pre.contains_id(x) ==> post.worktree_of(x) == pre.worktree_of(x)
    &&& post.entries@.len() == pre.entries@.len()
    &&& post.next_id == pre.next_id
    &&& post.branches@ == pre.branches@
    &&& post.repo_path == pre.repo_path
}

/// Replacing the holder at one index keeps the registry well formed and
/// establishes [`holder_update_frame`].
proof fn lemma_update_frame(
    pre: WorktreeService,
    post: WorktreeService,
    k: int,
    holder: Option<u64>,
)
    requires
        pre.wf(),
        0 <= k < pre.entries@.len(),
        post.entries@ == pre.entries@.update(
            k,
            WorktreeEntry { worktree: pre.entries@[k].worktree, holder },
        ),
        post.next_id == pre.next_id,
        post.branches@ == pre.branches@,
        post.repo_path == pre.repo_path,
    ensures
        post.wf(),
        holder_update_frame(pre, post, pre.entries@[k].worktree.id, holder),
{
    let id = pre.entries@[k].worktree.id;
    assert forall|x: int| 0 <= x < post.entries@.len() implies #[trigger] post.entries@[x].worktree
        == pre.entries@[x].worktree by {
        if x != k {
            assert(post.entries@[x] == pre.entries@[x]);
        }
    }
    assert(post.wf()) by {
        assert forall|a: int, b: int| 0 <= a < b < post.entries@.len() implies #[trigger] post.entries@[a].worktree.id != #[trigger] post.entries@[b].worktree.id by {
            assert(post.entries@[a].worktree == pre.entries@[a].worktree);
            assert(post.entries@[b].worktree == pre.entries@[b].worktree);
            assert(pre.entries@[a].worktree.id != pre.entries@[b].worktree.id);
        }
        assert forall|a: int, b: int| 0 <= a < b < post.entries@.len() implies #[trigger] post.entries@[a].worktree.path@ != #[trigger] post.entries@[b].worktree.path@ by {
            assert(post.entries@[a].worktree == pre.entries@[a].worktree);
            assert(post.entries@[b].worktree == pre.entries@[b].worktree);
            assert(pre.entries@[a].worktree.path@ != pre.entries@[b].worktree.path@);
        }
        assert forall|a: int| 0 <= a < post.entries@.len() implies #[trigger] post.entries@[a].worktree.id < post.next_id by {
            assert(post.entries@[a].worktree == pre.entries@[a].worktree);
        }
    }
    post.lemma_idx_of(k);
    assert forall|x: u64| #[trigger] post.contains_id(x) == pre.contains_id(x) by {
        if pre.contains_id(x) {
            let i0 = pre.idx_of(x);
            assert(post.entries@[i0].worktree.id == x);
        }
        if post.contains_id(x) {
            let i1 = post.idx_of(x);
            assert(pre.entries@[i1].worktree.id == x);
        }
    }
    assert forall|x: u64| #[trigger] pre.contains_id(x) implies post.worktree_of(x)
        == pre.worktree_of(x) && (x != id ==> post.holder_of(x) == pre.holder_of(x)) by {
        let i0 = pre.idx_of(x);
        pre.lemma_idx_of(i0);
        assert(post.entries@[i0].worktree.id == x);
        post.lemma_idx_of(i0);
    }
}

/// Removing one entry keeps the registry well formed; every other entry's
/// membership, worktree and reservation are preserved.
proof fn lemma_remove_frame(pre: WorktreeService, post: WorktreeService, k: int)
    requires
        pre.wf(),
        0 <= k < pre.entries@.len(),
        post.entries@ == pre.entries@.remove(k),
        post.next_id == pre.next_id,
        post.branches@ == pre.branches@,
        post.repo_path == pre.repo_path,
    ensures
        post.wf(),
        !post.contains_id(pre.entries@[k].worktree.id),
        forall|x: u64|
            x != pre.entries@[k].worktree.id ==> #[trigger] post.contains_id(x)
                == pre.contains_id(x),
        forall|x: u64|
            x != pre.entries@[k].worktree.id && #[trigger] pre.contains_id(x) ==> post.holder_of(x)
                == pre.holder_of(x) && post.worktree_of(x) == pre.worktree_of(x),
{
    let id = pre.entries@[k].worktree.id;
    pre.entries@.remove_ensures(k);
    assert(post.entries@.len() == pre.entries@.len() - 1);
    assert(post.wf()) by {
        assert forall|a: int, b: int| 0 <= a < b < post.entries@.len() implies #[trigger] post.entries@[a].worktree.id != #[trigger] post.entries@[b].worktree.id by {
            let a0: int = if a < k { a } else { a + 1 };
            let b0: int = if b < k { b } else { b + 1 };
            assert(post.entries@[a] == pre.entries@[a0]);
            assert(post.entries@[b] == pre.entries@[b0]);
            assert(pre.entries@[a0].worktree.id != pre.entries@[b0].worktree.id);
        }
        assert forall|a: int, b: int| 0 <= a < b < post.entries@.len() implies #[trigger] post.entries@[a].worktree.path@ != #[trigger] post.entries@[b].worktree.path@ by {
            let a0: int = if a < k { a } else { a + 1 };
            let b0: int = if b < k { b } else { b + 1 };
            assert(post.entries@[a] == pre.entries@[a0]);
            assert(post.entries@[b] == pre.entries@[b0]);
            assert(pre.entries@[a0].worktree.path@ != pre.entries@[b0].worktree.path@);
        }
        assert forall|a: int| 0 <= a < post.entries@.len() implies #[trigger] post.entries@[a].worktree.id < post.next_id by {
            let a0: int = if a < k { a } else { a + 1 };
            assert(post.entries@[a] == pre.entries@[a0]);
        }
    }
    assert(!post.contains_id(id)) by {
        if post.contains_id(id) {
            let i1 = post.idx_of(id);
            let i0: int = if i1 < k { i1 } else { i1 + 1 };
            assert(pre.entries@[i0].worktree.id == id);
            pre.lemma_idx_of(i0);
            pre.lemma_idx_of(k);
            assert(false);
        }
    }
    assert forall|x: u64| x != id implies #[trigger] post.contains_id(x) == pre.contains_id(x) by {
        if pre.contains_id(x) {
            let i0 = pre.idx_of(x);
            pre.lemma_idx_of(i0);
            assert(i0 != k);
            let i1: int = if i0 < k { i0 } else { i0 - 1 };
            assert(post.entries@[i1].worktree.id == x);
        }
        if post.contains_id(x) {
            let i1 = post.idx_of(x);
            let i0: int = if i1 < k { i1 } else { i1 + 1 };
            assert(pre.entries@[i0].worktree.id == x);
        }
    }
    assert forall|x: u64| x != id && #[trigger] pre.contains_id(x) implies post.holder_of(x)
        == pre.holder_of(x) && post.worktree_of(x) == pre.worktree_of(x) by {
        let i0 = pre.idx_of(x);
        pre.lemma_idx_of(i0);
        assert(i0 != k);
        let i1: int = if i0 < k { i0 } else { i0 - 1 };
        assert(post.entries@[i1] == pre.entries@[i0]);
        assert(post.entries@[i1].worktree.id == x);
        post.lemma_idx_of(i1);
    }
}

} // verus!
