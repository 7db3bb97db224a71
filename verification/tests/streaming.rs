use agent_orchestrator::models::AgentConfig;
use agent_orchestrator::pty::SUBSCRIBER_BUFFER_LIMIT;
use agent_orchestrator::{AgentService, PtyService, ServerError, WorktreeService};

fn cfg() -> AgentConfig {
    AgentConfig { agent_type: String::from("coder"), environment: vec![] }
}

fn running_agent() -> (AgentService, WorktreeService, PtyService, u64) {
    let mut wts = WorktreeService::new(String::from("/repo"));
    wts.add_branch(String::from("main"));
    let wt = wts.create_worktree(String::from("one"), String::from("main")).unwrap();
    let mut agents = AgentService::new();
    let mut pty = PtyService::new();
    let agent = agents.spawn_agent(&mut wts, &mut pty, wt.id, cfg()).unwrap();
    (agents, wts, pty, agent.id)
}

#[test]
fn two_subscribers_fan_out_from_their_subscription_points() {
    let (_agents, _wts, mut pty, aid) = running_agent();
    pty.emit_output(aid, String::from("one")).unwrap();
    let sub1 = pty.stream_pty_output(aid).unwrap();
    pty.emit_output(aid, String::from("two")).unwrap();
    let sub2 = pty.stream_pty_output(aid).unwrap();
    pty.emit_output(aid, String::from("three")).unwrap();
    let b1 = pty.read_output(sub1).unwrap();
    let b2 = pty.read_output(sub2).unwrap();
    assert_eq!(b1.chunks, vec!["two", "three"]);
    assert_eq!(b2.chunks, vec!["three"]);
    assert!(!b1.overrun);
    assert!(!b2.overrun);
}

#[test]
fn subscriber_sees_nothing_before_new_output() {
    let (_agents, _wts, mut pty, aid) = running_agent();
    pty.emit_output(aid, String::from("history")).unwrap();
    let sub = pty.stream_pty_output(aid).unwrap();
    let b = pty.read_output(sub).unwrap();
    assert_eq!(b.chunks.len(), 0);
    assert!(!b.ended);
}

#[test]
fn stream_ends_when_process_is_killed() {
    let (_agents, _wts, mut pty, aid) = running_agent();
    let sub = pty.stream_pty_output(aid).unwrap();
    pty.emit_output(aid, String::from("last words")).unwrap();
    let pid = pty.procs[0].pid;
    pty.kill_process(pid).unwrap();
    let b = pty.read_output(sub).unwrap();
    assert_eq!(b.chunks, vec!["last words"]);
    assert!(b.ended);
}

#[test]
fn slow_subscriber_overruns_and_keeps_newest_chunks() {
    let (_agents, _wts, mut pty, aid) = running_agent();
    let sub = pty.stream_pty_output(aid).unwrap();
    let total = SUBSCRIBER_BUFFER_LIMIT + 6;
    for k in 0..total {
        pty.emit_output(aid, format!("chunk-{}", k)).unwrap();
    }
    let b = pty.read_output(sub).unwrap();
    assert!(b.overrun);
    assert_eq!(b.chunks.len(), SUBSCRIBER_BUFFER_LIMIT);
    assert_eq!(b.chunks[0], "chunk-6");
    assert_eq!(b.chunks[SUBSCRIBER_BUFFER_LIMIT - 1], format!("chunk-{}", total - 1));
}

#[test]
fn stream_unknown_agent_fails() {
    let mut pty = PtyService::new();
    let r = pty.stream_pty_output(11);
    assert!(matches!(r, Err(ServerError::AgentNotFound(11))));
}

#[test]
fn emit_to_exited_process_is_a_process_error() {
    let (_agents, _wts, mut pty, aid) = running_agent();
    let pid = pty.procs[0].pid;
    pty.process_exited(pid, 0).unwrap();
    let r = pty.emit_output(aid, String::from("ghost"));
    assert!(matches!(r, Err(ServerError::ProcessError(_))));
}

#[test]
fn raw_send_after_exit_is_the_benign_not_running_condition() {
    let (_agents, _wts, mut pty, aid) = running_agent();
    let pid = pty.procs[0].pid;
    pty.process_exited(pid, 0).unwrap();
    let r = pty.send_pty_input(aid, String::from("late"));
    assert!(matches!(r, Err(ServerError::ProcessError(_))));
}

#[test]
fn read_unknown_subscription_fails() {
    let mut pty = PtyService::new();
    let r = pty.read_output(3);
    assert!(matches!(r, Err(ServerError::ProcessError(_))));
}

#[test]
fn exit_events_arrive_in_order() {
    let mut wts = WorktreeService::new(String::from("/repo"));
    wts.add_branch(String::from("main"));
    let wt1 = wts.create_worktree(String::from("one"), String::from("main")).unwrap();
    let wt2 = wts.create_worktree(String::from("two"), String::from("main")).unwrap();
    let mut agents = AgentService::new();
    let mut pty = PtyService::new();
    let a1 = agents.spawn_agent(&mut wts, &mut pty, wt1.id, cfg()).unwrap();
    let a2 = agents.spawn_agent(&mut wts, &mut pty, wt2.id, cfg()).unwrap();
    pty.process_exited(a1.pid.unwrap(), 0).unwrap();
    pty.process_exited(a2.pid.unwrap(), 1).unwrap();
    let e1 = pty.poll_event().unwrap();
    let e2 = pty.poll_event().unwrap();
    assert_eq!(e1.agent_id, a1.id);
    assert!(e1.clean);
    assert_eq!(e2.agent_id, a2.id);
    assert!(!e2.clean);
    assert!(pty.poll_event().is_none());
}
