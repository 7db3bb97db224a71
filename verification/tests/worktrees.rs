use agent_orchestrator::models::AgentConfig;
use agent_orchestrator::{AgentService, PtyService, ServerError, WorktreeService};

fn cfg() -> AgentConfig {
    AgentConfig { agent_type: String::from("coder"), environment: vec![] }
}

#[test]
fn create_worktree_returns_expected_fields() {
    let mut wts = WorktreeService::new(String::from("/repo"));
    wts.add_branch(String::from("main"));
    let wt = wts.create_worktree(String::from("feature-x"), String::from("main")).unwrap();
    assert_eq!(wt.path, "/repo/feature-x");
    assert_eq!(wt.branch, "main");
    assert!(!wt.is_bare);
}

#[test]
fn create_worktree_unknown_branch_fails() {
    let mut wts = WorktreeService::new(String::from("/repo"));
    let r = wts.create_worktree(String::from("feature-x"), String::from("missing"));
    assert!(matches!(r, Err(ServerError::GitError(_))));
}

#[test]
fn create_worktree_path_collision_fails() {
    let mut wts = WorktreeService::new(String::from("/repo"));
    wts.add_branch(String::from("main"));
    wts.create_worktree(String::from("feature-x"), String::from("main")).unwrap();
    let r = wts.create_worktree(String::from("feature-x"), String::from("main"));
    assert!(matches!(r, Err(ServerError::GitError(_))));
}

#[test]
fn discover_worktrees_lists_in_creation_order() {
    let mut wts = WorktreeService::new(String::from("/repo"));
    assert_eq!(wts.discover_worktrees().unwrap().len(), 0);
    wts.add_branch(String::from("main"));
    let a = wts.create_worktree(String::from("one"), String::from("main")).unwrap();
    let b = wts.create_worktree(String::from("two"), String::from("main")).unwrap();
    let all = wts.discover_worktrees().unwrap();
    assert_eq!(all.len(), 2);
    assert_eq!(all[0].id, a.id);
    assert_eq!(all[1].id, b.id);
    assert_eq!(all[0].path, "/repo/one");
    assert_eq!(all[1].path, "/repo/two");
}

#[test]
fn delete_unknown_worktree_fails() {
    let mut wts = WorktreeService::new(String::from("/repo"));
    let r = wts.delete_worktree(7);
    assert!(matches!(r, Err(ServerError::WorktreeNotFound(7))));
}

#[test]
fn delete_free_worktree_succeeds() {
    let mut wts = WorktreeService::new(String::from("/repo"));
    wts.add_branch(String::from("main"));
    let wt = wts.create_worktree(String::from("one"), String::from("main")).unwrap();
    wts.delete_worktree(wt.id).unwrap();
    assert_eq!(wts.discover_worktrees().unwrap().len(), 0);
}

#[test]
fn delete_held_worktree_fails_until_agent_terminated() {
    let mut wts = WorktreeService::new(String::from("/repo"));
    let mut pty = PtyService::new();
    let mut agents = AgentService::new();
    wts.add_branch(String::from("main"));
    let wt = wts.create_worktree(String::from("one"), String::from("main")).unwrap();
    let agent = agents.spawn_agent(&mut wts, &mut pty, wt.id, cfg()).unwrap();
    let r = wts.delete_worktree(wt.id);
    assert!(matches!(r, Err(ServerError::GitError(_))));
    agents.terminate_agent(&mut wts, &mut pty, agent.id).unwrap();
    wts.delete_worktree(wt.id).unwrap();
}

#[test]
fn second_spawn_on_same_worktree_is_busy() {
    let mut wts = WorktreeService::new(String::from("/repo"));
    let mut pty = PtyService::new();
    let mut agents = AgentService::new();
    wts.add_branch(String::from("main"));
    let wt = wts.create_worktree(String::from("one"), String::from("main")).unwrap();
    let first = agents.spawn_agent(&mut wts, &mut pty, wt.id, cfg());
    let second = agents.spawn_agent(&mut wts, &mut pty, wt.id, cfg());
    assert!(first.is_ok());
    assert!(matches!(second, Err(ServerError::GitError(_))));
}
