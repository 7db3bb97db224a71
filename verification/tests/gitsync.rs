use agent_orchestrator::{GitService, ServerError};

fn with_repo() -> (GitService, u64) {
    let mut git = GitService::new();
    git.register_worktree(1, String::from("main")).unwrap();
    (git, 1)
}

#[test]
fn get_status_unknown_worktree_fails() {
    let git = GitService::new();
    let r = git.get_status(4);
    assert!(matches!(r, Err(ServerError::WorktreeNotFound(4))));
}

#[test]
fn register_duplicate_worktree_fails() {
    let (mut git, wt) = with_repo();
    let r = git.register_worktree(wt, String::from("main"));
    assert!(matches!(r, Err(ServerError::GitError(_))));
}

#[test]
fn fresh_worktree_status_is_clean() {
    let (git, wt) = with_repo();
    let st = git.get_status(wt).unwrap();
    assert_eq!(st.branch, "main");
    assert!(st.staged.is_empty());
    assert!(st.unstaged.is_empty());
    assert!(st.untracked.is_empty());
    assert_eq!(st.ahead, 0);
    assert_eq!(st.behind, 0);
}

#[test]
fn commit_with_nothing_staged_fails() {
    let (mut git, wt) = with_repo();
    let r = git.commit_changes(wt, String::from("message"));
    assert!(matches!(r, Err(ServerError::GitError(_))));
}

#[test]
fn commit_with_empty_message_fails() {
    let (mut git, wt) = with_repo();
    git.observe_status(wt, vec![String::from("a.rs")], vec![], vec![], 0).unwrap();
    let r = git.commit_changes(wt, String::new());
    assert!(matches!(r, Err(ServerError::GitError(_))));
}

#[test]
fn commit_clears_stage_and_counts_ahead() {
    let (mut git, wt) = with_repo();
    git.observe_status(
        wt,
        vec![String::from("a.rs"), String::from("b.rs")],
        vec![String::from("c.rs")],
        vec![],
        0,
    )
    .unwrap();
    git.commit_changes(wt, String::from("add a and b")).unwrap();
    let st = git.get_status(wt).unwrap();
    assert!(st.staged.is_empty());
    assert_eq!(st.unstaged, vec!["c.rs"]);
    assert_eq!(st.ahead, 1);
}

#[test]
fn push_rejected_when_behind_remote() {
    let (mut git, wt) = with_repo();
    git.observe_status(wt, vec![String::from("a.rs")], vec![], vec![], 2).unwrap();
    git.commit_changes(wt, String::from("local work")).unwrap();
    let r = git.push_changes(wt);
    assert!(matches!(r, Err(ServerError::GitError(_))));
    assert_eq!(git.get_status(wt).unwrap().ahead, 1);
}

#[test]
fn push_resets_ahead_count() {
    let (mut git, wt) = with_repo();
    git.observe_status(wt, vec![String::from("a.rs")], vec![], vec![], 0).unwrap();
    git.commit_changes(wt, String::from("local work")).unwrap();
    git.push_changes(wt).unwrap();
    assert_eq!(git.get_status(wt).unwrap().ahead, 0);
}

#[test]
fn push_unknown_worktree_fails() {
    let mut git = GitService::new();
    let r = git.push_changes(9);
    assert!(matches!(r, Err(ServerError::WorktreeNotFound(9))));
}
