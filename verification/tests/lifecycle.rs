use agent_orchestrator::models::{AgentConfig, AgentState};
use agent_orchestrator::{AgentService, PtyService, ServerError, WorktreeService};

fn cfg() -> AgentConfig {
    AgentConfig {
        agent_type: String::from("coder"),
        environment: vec![(String::from("TERM"), String::from("xterm"))],
    }
}

fn system_with_worktree() -> (AgentService, WorktreeService, PtyService, u64) {
    let mut wts = WorktreeService::new(String::from("/repo"));
    wts.add_branch(String::from("main"));
    let wt = wts.create_worktree(String::from("feature-x"), String::from("main")).unwrap();
    (AgentService::new(), wts, PtyService::new(), wt.id)
}

#[test]
fn spawn_agent_starts_idle_with_pid() {
    let (mut agents, mut wts, mut pty, wt) = system_with_worktree();
    let agent = agents.spawn_agent(&mut wts, &mut pty, wt, cfg()).unwrap();
    assert_eq!(agent.state, AgentState::Idle);
    assert!(agent.pid.is_some());
    assert_eq!(agent.worktree_id, wt);
}

#[test]
fn spawn_agent_unknown_worktree_fails() {
    let mut wts = WorktreeService::new(String::from("/repo"));
    let mut pty = PtyService::new();
    let mut agents = AgentService::new();
    let r = agents.spawn_agent(&mut wts, &mut pty, 42, cfg());
    assert!(matches!(r, Err(ServerError::WorktreeNotFound(42))));
}

#[test]
fn spawn_agent_empty_agent_type_fails() {
    let (mut agents, mut wts, mut pty, wt) = system_with_worktree();
    let bad = AgentConfig { agent_type: String::new(), environment: vec![] };
    let r = agents.spawn_agent(&mut wts, &mut pty, wt, bad);
    assert!(matches!(r, Err(ServerError::ProcessError(_))));
}

#[test]
fn terminate_shows_terminated_without_pid_and_frees_worktree() {
    let (mut agents, mut wts, mut pty, wt) = system_with_worktree();
    let agent = agents.spawn_agent(&mut wts, &mut pty, wt, cfg()).unwrap();
    agents.terminate_agent(&mut wts, &mut pty, agent.id).unwrap();
    let seen = agents.get_agent(agent.id).unwrap();
    assert_eq!(seen.state, AgentState::Terminated);
    assert_eq!(seen.pid, None);
    wts.delete_worktree(wt).unwrap();
}

#[test]
fn terminate_agent_is_idempotent() {
    let (mut agents, mut wts, mut pty, wt) = system_with_worktree();
    let agent = agents.spawn_agent(&mut wts, &mut pty, wt, cfg()).unwrap();
    agents.terminate_agent(&mut wts, &mut pty, agent.id).unwrap();
    let again = agents.terminate_agent(&mut wts, &mut pty, agent.id);
    assert!(again.is_ok());
    assert_eq!(agents.get_agent(agent.id).unwrap().state, AgentState::Terminated);
}

#[test]
fn terminate_unknown_agent_fails() {
    let (mut agents, mut wts, mut pty, _wt) = system_with_worktree();
    let r = agents.terminate_agent(&mut wts, &mut pty, 9);
    assert!(matches!(r, Err(ServerError::AgentNotFound(9))));
}

#[test]
fn signal_transitions_follow_the_state_machine() {
    let (mut agents, mut wts, mut pty, wt) = system_with_worktree();
    let agent = agents.spawn_agent(&mut wts, &mut pty, wt, cfg()).unwrap();
    agents.apply_transition(agent.id, AgentState::Thinking).unwrap();
    agents.apply_transition(agent.id, AgentState::Executing).unwrap();
    agents.apply_transition(agent.id, AgentState::AwaitingInput).unwrap();
    agents.apply_transition(agent.id, AgentState::Executing).unwrap();
    agents.apply_transition(agent.id, AgentState::Idle).unwrap();
    assert_eq!(agents.get_agent(agent.id).unwrap().state, AgentState::Idle);
}

#[test]
fn invalid_transition_is_rejected_and_state_kept() {
    let (mut agents, mut wts, mut pty, wt) = system_with_worktree();
    let agent = agents.spawn_agent(&mut wts, &mut pty, wt, cfg()).unwrap();
    let r = agents.apply_transition(agent.id, AgentState::AwaitingInput);
    assert!(matches!(r, Err(ServerError::Internal(_))));
    assert_eq!(agents.get_agent(agent.id).unwrap().state, AgentState::Idle);
}

#[test]
fn terminated_accepts_no_transition() {
    let (mut agents, mut wts, mut pty, wt) = system_with_worktree();
    let agent = agents.spawn_agent(&mut wts, &mut pty, wt, cfg()).unwrap();
    agents.terminate_agent(&mut wts, &mut pty, agent.id).unwrap();
    let r = agents.apply_transition(agent.id, AgentState::Thinking);
    assert!(matches!(r, Err(ServerError::Internal(_))));
    let p = agents.pause_agent(agent.id);
    assert!(matches!(p, Err(ServerError::Internal(_))));
    assert_eq!(agents.get_agent(agent.id).unwrap().state, AgentState::Terminated);
}

#[test]
fn pause_then_resume_delivers_queued_input_in_order() {
    let (mut agents, mut wts, mut pty, wt) = system_with_worktree();
    let agent = agents.spawn_agent(&mut wts, &mut pty, wt, cfg()).unwrap();
    agents.apply_transition(agent.id, AgentState::Thinking).unwrap();
    agents.pause_agent(agent.id).unwrap();
    assert_eq!(agents.get_agent(agent.id).unwrap().state, AgentState::Paused);
    agents.send_input(&mut pty, agent.id, String::from("first")).unwrap();
    agents.send_input(&mut pty, agent.id, String::from("second")).unwrap();
    assert_eq!(pty.procs[0].input_writes.len(), 0);
    agents.resume_agent(&mut pty, agent.id).unwrap();
    assert_eq!(agents.get_agent(agent.id).unwrap().state, AgentState::Thinking);
    assert_eq!(pty.procs[0].input_writes, vec!["first", "second"]);
}

#[test]
fn pause_when_paused_is_a_noop() {
    let (mut agents, mut wts, mut pty, wt) = system_with_worktree();
    let agent = agents.spawn_agent(&mut wts, &mut pty, wt, cfg()).unwrap();
    agents.pause_agent(agent.id).unwrap();
    agents.pause_agent(agent.id).unwrap();
    assert_eq!(agents.get_agent(agent.id).unwrap().state, AgentState::Paused);
    agents.resume_agent(&mut pty, agent.id).unwrap();
    assert_eq!(agents.get_agent(agent.id).unwrap().state, AgentState::Idle);
}

#[test]
fn resume_when_not_paused_fails() {
    let (mut agents, mut wts, mut pty, wt) = system_with_worktree();
    let agent = agents.spawn_agent(&mut wts, &mut pty, wt, cfg()).unwrap();
    let r = agents.resume_agent(&mut pty, agent.id);
    assert!(matches!(r, Err(ServerError::Internal(_))));
}

#[test]
fn send_input_to_running_agent_reaches_the_pty() {
    let (mut agents, mut wts, mut pty, wt) = system_with_worktree();
    let agent = agents.spawn_agent(&mut wts, &mut pty, wt, cfg()).unwrap();
    agents.send_input(&mut pty, agent.id, String::from("hello")).unwrap();
    assert_eq!(pty.procs[0].input_writes, vec!["hello"]);
}

#[test]
fn send_input_to_terminated_agent_fails() {
    let (mut agents, mut wts, mut pty, wt) = system_with_worktree();
    let agent = agents.spawn_agent(&mut wts, &mut pty, wt, cfg()).unwrap();
    agents.terminate_agent(&mut wts, &mut pty, agent.id).unwrap();
    let r = agents.send_input(&mut pty, agent.id, String::from("late"));
    assert!(matches!(r, Err(ServerError::ProcessError(_))));
}

#[test]
fn send_input_to_unknown_agent_fails() {
    let (mut agents, _wts, mut pty, _wt) = system_with_worktree();
    let r = agents.send_input(&mut pty, 5, String::from("x"));
    assert!(matches!(r, Err(ServerError::AgentNotFound(5))));
}

#[test]
fn clean_exit_returns_agent_to_idle_and_frees_worktree() {
    let (mut agents, mut wts, mut pty, wt) = system_with_worktree();
    let agent = agents.spawn_agent(&mut wts, &mut pty, wt, cfg()).unwrap();
    let pid = agent.pid.unwrap();
    pty.process_exited(pid, 0).unwrap();
    let ev = pty.poll_event().unwrap();
    assert_eq!(ev.agent_id, agent.id);
    assert!(ev.clean);
    agents.handle_exit(&mut wts, &pty, ev.agent_id, ev.clean).unwrap();
    let seen = agents.get_agent(agent.id).unwrap();
    assert_eq!(seen.state, AgentState::Idle);
    assert_eq!(seen.pid, None);
    wts.delete_worktree(wt).unwrap();
}

#[test]
fn crash_exit_terminates_the_agent() {
    let (mut agents, mut wts, mut pty, wt) = system_with_worktree();
    let agent = agents.spawn_agent(&mut wts, &mut pty, wt, cfg()).unwrap();
    let pid = agent.pid.unwrap();
    pty.process_exited(pid, 3).unwrap();
    let ev = pty.poll_event().unwrap();
    assert!(!ev.clean);
    agents.handle_exit(&mut wts, &pty, ev.agent_id, ev.clean).unwrap();
    assert_eq!(agents.get_agent(agent.id).unwrap().state, AgentState::Terminated);
    wts.delete_worktree(wt).unwrap();
}

#[test]
fn exit_event_after_requested_termination_changes_nothing() {
    let (mut agents, mut wts, mut pty, wt) = system_with_worktree();
    let agent = agents.spawn_agent(&mut wts, &mut pty, wt, cfg()).unwrap();
    agents.terminate_agent(&mut wts, &mut pty, agent.id).unwrap();
    let ev = pty.poll_event().unwrap();
    agents.handle_exit(&mut wts, &pty, ev.agent_id, ev.clean).unwrap();
    assert_eq!(agents.get_agent(agent.id).unwrap().state, AgentState::Terminated);
}

#[test]
fn kill_process_is_idempotent() {
    let (mut agents, mut wts, mut pty, wt) = system_with_worktree();
    let agent = agents.spawn_agent(&mut wts, &mut pty, wt, cfg()).unwrap();
    let pid = agent.pid.unwrap();
    pty.kill_process(pid).unwrap();
    pty.kill_process(pid).unwrap();
    pty.kill_process(9999).unwrap();
}

#[test]
fn describe_names_the_error_kind() {
    let e = ServerError::AgentNotFound(3);
    assert_eq!(e.describe(), "agent not found");
}
