use raro_kernel::models::{AgentInvocation, InvocationStatus, ModelVariant, RuntimeState, RuntimeStatus};
use raro_kernel::state::{
    artifact_key, save_plan, state_key, update_active_index, ACTIVE_RUNS_KEY, TERMINAL_STATE_TTL_SECS,
};

fn inv(agent: &str, status: InvocationStatus, tokens: usize) -> AgentInvocation {
    AgentInvocation {
        id: format!("inv-{}", agent),
        agent_id: agent.to_string(),
        model_variant: ModelVariant::GeminiFlash,
        thought_signature: None,
        tools_used: vec![],
        tokens_used: tokens,
        latency_ms: 1,
        status,
        timestamp: "t".to_string(),
        error_message: None,
    }
}

#[test]
fn total_tokens_is_the_sum_of_the_log() {
    let mut s = RuntimeState::new_run("r".to_string(), "w".to_string(), "t0".to_string());
    s.apply_invocation(inv("a", InvocationStatus::Running, 0));
    s.apply_invocation(inv("a", InvocationStatus::Success, 120));
    s.apply_invocation(inv("b", InvocationStatus::Failed, 30));
    assert_eq!(s.total_tokens_used, 150);
    let sum: usize = s.invocations.iter().map(|i| i.tokens_used).sum();
    assert_eq!(s.total_tokens_used, sum);
    assert_eq!(s.active_agents, Vec::<String>::new());
    assert_eq!(s.completed_agents, vec!["a"]);
    assert_eq!(s.failed_agents, vec!["b"]);
}

#[test]
fn running_twice_is_active_once() {
    let mut s = RuntimeState::new_run("r".to_string(), "w".to_string(), "t0".to_string());
    s.apply_invocation(inv("a", InvocationStatus::Running, 0));
    s.apply_invocation(inv("a", InvocationStatus::Running, 0));
    assert_eq!(s.active_agents, vec!["a"]);
    s.apply_invocation(inv("a", InvocationStatus::Pending, 0));
    assert_eq!(s.active_agents, vec!["a"]);
    assert_eq!(s.invocations.len(), 3);
}

#[test]
fn status_transitions() {
    let mut s = RuntimeState::new_run("r".to_string(), "w".to_string(), "t0".to_string());
    assert!(!s.resume());
    assert!(!s.request_approval());
    assert!(s.start());
    assert_eq!(s.status, RuntimeStatus::Running);
    assert!(!s.start());
    assert!(s.request_approval());
    assert_eq!(s.status, RuntimeStatus::AwaitingApproval);
    assert!(!s.complete("t1".to_string()));
    assert!(s.resume());
    assert!(s.complete("t2".to_string()));
    assert_eq!(s.status, RuntimeStatus::Completed);
    assert_eq!(s.end_time, Some("t2".to_string()));
    assert!(!s.fail(None, "t3".to_string()));
    assert!(!s.resume());
    assert_eq!(s.status, RuntimeStatus::Completed);
    assert_eq!(s.end_time, Some("t2".to_string()));
}

#[test]
fn fail_moves_the_active_agent_and_stamps_end_time() {
    let mut s = RuntimeState::new_run("r".to_string(), "w".to_string(), "t0".to_string());
    s.start();
    s.apply_invocation(inv("a", InvocationStatus::Running, 0));
    assert!(s.fail(Some("a".to_string()), "t9".to_string()));
    assert_eq!(s.status, RuntimeStatus::Failed);
    assert_eq!(s.end_time, Some("t9".to_string()));
    assert_eq!(s.active_agents, Vec::<String>::new());
    assert_eq!(s.failed_agents, vec!["a"]);
}

#[test]
fn crash_recovery_fails_a_running_run() {
    let mut s = RuntimeState::new_run("run-1".to_string(), "w".to_string(), "t0".to_string());
    s.start();
    s.apply_invocation(inv("a", InvocationStatus::Running, 5));
    let mut index = vec!["run-1".to_string()];
    s.rehydrate("k-1".to_string(), "t5".to_string());
    assert_eq!(s.status, RuntimeStatus::Failed);
    assert_eq!(s.end_time, Some("t5".to_string()));
    assert_eq!(s.invocations.len(), 2);
    let last = s.invocations.last().unwrap();
    assert_eq!(last.agent_id, "kernel");
    assert_eq!(last.id, "k-1");
    assert_eq!(last.status, InvocationStatus::Failed);
    assert_eq!(last.error_message, Some("kernel_restarted".to_string()));
    assert_eq!(s.total_tokens_used, 5);
    update_active_index(&mut index, &s.run_id, s.status);
    assert!(index.is_empty());
}

#[test]
fn rehydrate_keeps_paused_and_terminal_runs() {
    let mut s = RuntimeState::new_run("r".to_string(), "w".to_string(), "t0".to_string());
    s.start();
    s.request_approval();
    s.rehydrate("k".to_string(), "t1".to_string());
    assert_eq!(s.status, RuntimeStatus::AwaitingApproval);
    assert!(s.invocations.is_empty());
    assert_eq!(s.end_time, None);
}

#[test]
fn keys_and_save_plan() {
    assert_eq!(state_key("abc"), "run:abc:state");
    assert_eq!(artifact_key("abc", "n1"), "run:abc:agent:n1:output");
    assert_eq!(ACTIVE_RUNS_KEY, "sys:active_runs");
    let p = save_plan(RuntimeStatus::Running);
    assert!(p.keep_in_index);
    assert_eq!(p.expire_secs, None);
    let p = save_plan(RuntimeStatus::Failed);
    assert!(!p.keep_in_index);
    assert_eq!(p.expire_secs, Some(TERMINAL_STATE_TTL_SECS));
    assert_eq!(TERMINAL_STATE_TTL_SECS, 86400);
}

#[test]
fn active_index_adds_once_and_removes_on_terminal() {
    let mut index: Vec<String> = vec![];
    update_active_index(&mut index, &"r1".to_string(), RuntimeStatus::Running);
    update_active_index(&mut index, &"r1".to_string(), RuntimeStatus::AwaitingApproval);
    update_active_index(&mut index, &"r2".to_string(), RuntimeStatus::Running);
    assert_eq!(index, vec!["r1", "r2"]);
    update_active_index(&mut index, &"r1".to_string(), RuntimeStatus::Completed);
    assert_eq!(index, vec!["r2"]);
}
