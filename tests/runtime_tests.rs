use raro_kernel::events::{event_type_name, EventType, RuntimeEvent};
use raro_kernel::models::{
    AgentInvocation, AgentNodeConfig, AgentRole, InvocationStatus, ModelVariant, RuntimeStatus,
    WorkflowConfig,
};
use raro_kernel::registry::{Pattern, PatternAction, PatternRegistry};
use raro_kernel::context::UpstreamArtifact;
use raro_kernel::runtime::{PrepareError, RARORuntime, ResumeError};
use raro_kernel::scheduler::SchedulerStep;
use raro_kernel::workspace::{ArtifactMetadata, ClientSession, WorkspaceInitializer};

fn node(id: &str, deps: &[&str]) -> AgentNodeConfig {
    AgentNodeConfig {
        id: id.to_string(),
        role: AgentRole::Worker,
        model: ModelVariant::GeminiFlash,
        tools: vec![],
        input_schema: serde_json::Value::Null,
        output_schema: serde_json::Value::Null,
        cache_policy: "none".to_string(),
        depends_on: deps.iter().map(|d| d.to_string()).collect(),
        prompt: format!("prompt of {}", id),
        allow_delegation: false,
        user_directive: String::new(),
    }
}

fn workflow(agents: Vec<AgentNodeConfig>) -> WorkflowConfig {
    WorkflowConfig {
        id: "wf".to_string(),
        name: "test".to_string(),
        agents,
        max_token_budget: 1000,
        timeout_ms: 1000,
    }
}

fn inv(agent: &str, status: InvocationStatus, tokens: usize) -> AgentInvocation {
    AgentInvocation {
        id: format!("{}-{:?}", agent, status),
        agent_id: agent.to_string(),
        model_variant: ModelVariant::GeminiFlash,
        thought_signature: None,
        tools_used: vec![],
        tokens_used: tokens,
        latency_ms: 1,
        status,
        timestamp: "t".to_string(),
        error_message: None,
    }
}

#[test]
fn linear_three_node_workflow_runs_in_order() {
    let mut rt = RARORuntime::new();
    let wf = workflow(vec![node("a", &[]), node("b", &["a"]), node("c", &["b"])]);
    let run = rt.start_workflow(wf).unwrap();
    assert!(rt.has_dag(&run));
    assert!(rt.set_running(&run));
    assert_eq!(rt.get_state(&run).unwrap().status, RuntimeStatus::Running);
    let mut order = vec![];
    loop {
        match rt.scheduler_step(&run) {
            SchedulerStep::Dispatch(id) => {
                rt.record_invocation(&run, inv(&id, InvocationStatus::Running, 0)).unwrap();
                rt.record_invocation(&run, inv(&id, InvocationStatus::Success, 10)).unwrap();
                order.push(id);
            }
            SchedulerStep::Complete => {
                assert!(rt.complete_run(&run, "end".to_string()));
            }
            SchedulerStep::Wait => panic!("nothing is active"),
            SchedulerStep::Halt => break,
        }
    }
    assert_eq!(order, vec!["a", "b", "c"]);
    let state = rt.get_state(&run).unwrap();
    assert_eq!(state.status, RuntimeStatus::Completed);
    assert_eq!(state.completed_agents, vec!["a", "b", "c"]);
    assert_eq!(state.total_tokens_used, 30);
    assert_eq!(state.invocations.len(), 6);
    assert_eq!(state.end_time, Some("end".to_string()));
}

#[test]
fn cycle_rejection_creates_no_run() {
    let mut rt = RARORuntime::new();
    let wf = workflow(vec![node("a", &["b"]), node("b", &["a"])]);
    assert!(rt.start_workflow_with(wf, "run-x".to_string(), "t".to_string()).is_err());
    assert!(!rt.has_dag("run-x"));
    assert!(rt.get_state("run-x").is_none());
}

#[test]
fn unknown_dependency_is_rejected() {
    let mut rt = RARORuntime::new();
    let wf = workflow(vec![node("a", &["ghost"])]);
    assert!(rt.start_workflow(wf).is_err());
}

#[test]
fn start_with_given_id_and_time() {
    let mut rt = RARORuntime::new();
    let wf = workflow(vec![node("a", &[])]);
    let run = rt.start_workflow_with(wf, "run-7".to_string(), "t0".to_string()).unwrap();
    assert_eq!(run, "run-7");
    let s = rt.get_state("run-7").unwrap();
    assert_eq!(s.status, RuntimeStatus::Idle);
    assert_eq!(s.start_time, "t0");
    assert_eq!(s.workflow_id, "wf");
    assert_eq!(s.run_id, "run-7");
}

#[test]
fn a_node_waits_for_all_its_dependencies() {
    let mut rt = RARORuntime::new();
    let wf = workflow(vec![node("a", &[]), node("b", &[]), node("c", &["a", "b"])]);
    let run = rt.start_workflow(wf).unwrap();
    rt.set_running(&run);
    let first = match rt.scheduler_step(&run) {
        SchedulerStep::Dispatch(id) => id,
        other => panic!("unexpected {:?}", other),
    };
    assert_ne!(first, "c");
    rt.record_invocation(&run, inv(&first, InvocationStatus::Running, 0)).unwrap();
    let second = match rt.scheduler_step(&run) {
        SchedulerStep::Dispatch(id) => id,
        other => panic!("unexpected {:?}", other),
    };
    assert_ne!(second, "c");
    assert_ne!(second, first);
    rt.record_invocation(&run, inv(&second, InvocationStatus::Running, 0)).unwrap();
    assert!(matches!(rt.scheduler_step(&run), SchedulerStep::Wait));
    rt.record_invocation(&run, inv(&first, InvocationStatus::Success, 0)).unwrap();
    assert!(matches!(rt.scheduler_step(&run), SchedulerStep::Wait));
    rt.record_invocation(&run, inv(&second, InvocationStatus::Success, 0)).unwrap();
    match rt.scheduler_step(&run) {
        SchedulerStep::Dispatch(id) => assert_eq!(id, "c"),
        other => panic!("unexpected {:?}", other),
    }
}

#[test]
fn finished_agent_cannot_be_recorded_again() {
    let mut rt = RARORuntime::new();
    let run = rt.start_workflow(workflow(vec![node("a", &[])])).unwrap();
    rt.record_invocation(&run, inv("a", InvocationStatus::Success, 1)).unwrap();
    assert!(rt.record_invocation(&run, inv("a", InvocationStatus::Running, 1)).is_err());
    assert!(rt.record_invocation("nope", inv("a", InvocationStatus::Running, 1)).is_err());
    let s = rt.get_state(&run).unwrap();
    assert_eq!(s.active_agents, Vec::<String>::new());
    assert_eq!(s.completed_agents, vec!["a"]);
}

#[test]
fn stop_fails_the_run_and_halts_the_loop() {
    let mut rt = RARORuntime::new();
    let run = rt.start_workflow(workflow(vec![node("a", &[]), node("b", &["a"])])).unwrap();
    rt.set_running(&run);
    assert!(rt.stop(&run));
    let s = rt.get_state(&run).unwrap();
    assert_eq!(s.status, RuntimeStatus::Failed);
    assert!(s.end_time.is_some());
    assert!(matches!(rt.scheduler_step(&run), SchedulerStep::Halt));
    assert!(!rt.stop(&run));
    assert_eq!(rt.get_state(&run).unwrap().invocations.len(), 0);
}

#[test]
fn resume_needs_a_paused_run() {
    let mut rt = RARORuntime::new();
    assert_eq!(rt.resume("missing"), Err(ResumeError::NotFound));
    let run = rt.start_workflow(workflow(vec![node("a", &[])])).unwrap();
    rt.set_running(&run);
    assert_eq!(rt.resume(&run), Err(ResumeError::NotPaused));
    assert!(rt.request_approval(&run));
    assert!(matches!(rt.scheduler_step(&run), SchedulerStep::Halt));
    assert_eq!(rt.resume(&run), Ok(()));
    assert_eq!(rt.get_state(&run).unwrap().status, RuntimeStatus::Running);
}

#[test]
fn payload_carries_signature_cache_model_and_tools() {
    let mut rt = RARORuntime::new();
    let mut b = node("research_b", &["a"]);
    b.model = ModelVariant::GeminiDeepThink;
    let run = rt.start_workflow(workflow(vec![node("a", &[]), b])).unwrap();
    rt.set_thought_signature(&run, "a", "sig-a".to_string()).unwrap();
    rt.set_cache_resource(&run, "cache-1".to_string()).unwrap();
    let now = std::time::SystemTime::now()
        .duration_since(std::time::UNIX_EPOCH)
        .unwrap()
        .as_secs();
    rt.store_artifact(&run, "a", b"{\"output\":\"found web_search results\"}".to_vec(), now);
    assert_eq!(rt.get_thought_signature(&run, "a"), Some("sig-a".to_string()));
    assert_eq!(rt.get_cache_resource(&run), Some("cache-1".to_string()));
    let p = rt.prepare_invocation_payload(&run, "research_b").unwrap();
    assert_eq!(p.agent_id, "research_b");
    assert_eq!(p.model, "gemini-3-deep-think");
    assert_eq!(p.thinking_level, Some(5));
    assert_eq!(p.prompt, "prompt of research_b=== CONTEXT FROM AGENT a ===\nfound web_search results\n");
    assert_eq!(p.run_id, run);
    assert_eq!(p.parent_signature, Some("sig-a".to_string()));
    assert_eq!(p.cached_content_id, Some("cache-1".to_string()));
    let mut tools = p.tools.clone();
    tools.sort();
    assert_eq!(tools, vec!["list_files", "read_file", "web_search"]);
    assert!(rt.prepare_invocation_payload(&run, "zzz").is_err());
    assert!(rt.prepare_invocation_payload("nope", "a").is_err());
    let sigs = rt.get_all_signatures(&run).unwrap();
    assert_eq!(sigs.get("a"), Some("sig-a".to_string()));
}

#[test]
fn events_and_patterns() {
    let e = RuntimeEvent::new("r1", EventType::ToolCall, Some("a".to_string()), serde_json::Value::Null);
    assert_eq!(e.run_id, "r1");
    assert_eq!(event_type_name(e.event_type), "ToolCall");
    assert!(!e.id.is_empty());
    let mut reg = PatternRegistry::new();
    reg.register_fallback_patterns();
    let hits = reg.get_patterns_for_trigger("ToolCall");
    assert_eq!(hits.len(), 1);
    assert_eq!(hits[0].id, "guard_fs_delete");
    assert!(reg.first_match("ToolCall", "{\"tool\":\"fs_delete\"}").is_some());
    assert!(reg.first_match("ToolCall", "{\"tool\":\"read_file\"}").is_none());
    match reg.first_match("AgentFailed", "{}") {
        Some(Pattern { action: PatternAction::RequestApproval { .. }, .. }) => {}
        other => panic!("unexpected {:?}", other),
    }
    reg.register(Pattern {
        id: "guard_fs_delete".to_string(),
        name: "n".to_string(),
        trigger_event: "ToolCall".to_string(),
        condition: "*".to_string(),
        action: PatternAction::Interrupt { reason: "all".to_string() },
    });
    assert_eq!(reg.get_patterns_for_trigger("ToolCall").len(), 1);
    assert!(reg.first_match("ToolCall", "anything").is_some());
}

#[test]
fn content_types_and_paths() {
    assert_eq!(WorkspaceInitializer::guess_content_type("a.png"), "image/png");
    assert_eq!(WorkspaceInitializer::guess_content_type("a.jpeg"), "image/jpeg");
    assert_eq!(WorkspaceInitializer::guess_content_type("a.jpg"), "image/jpeg");
    assert_eq!(WorkspaceInitializer::guess_content_type("a.csv"), "text/csv");
    assert_eq!(WorkspaceInitializer::guess_content_type("a.json"), "application/json");
    assert_eq!(WorkspaceInitializer::guess_content_type("a.md"), "text/markdown");
    assert_eq!(WorkspaceInitializer::guess_content_type("a.txt"), "text/plain");
    assert_eq!(WorkspaceInitializer::guess_content_type("a.bin"), "application/octet-stream");
    assert_eq!(
        WorkspaceInitializer::session_output_file("r1", "x.csv"),
        "/app/storage/sessions/r1/output/x.csv"
    );
    let (p, q) = WorkspaceInitializer::library_candidates("c1", "f.pdf");
    assert_eq!(p, "/app/storage/library/c1/f.pdf");
    assert_eq!(q, "/app/storage/library/public/f.pdf");
}

#[test]
fn context_drought_pauses_the_run() {
    let mut rt = RARORuntime::new();
    let run = rt.start_workflow(workflow(vec![node("root", &[]), node("child", &["root"])])).unwrap();
    rt.set_running(&run);
    rt.record_invocation(&run, inv("root", InvocationStatus::Running, 0)).unwrap();
    rt.record_invocation(&run, inv("root", InvocationStatus::Success, 3)).unwrap();
    let upstream = vec![UpstreamArtifact {
        agent_id: "root".to_string(),
        text: "[STATUS: NULL]".to_string(),
        files: vec![],
        raw: vec![],
    }];
    assert_eq!(
        rt.prepare_with_context(&run, "child", &upstream).err(),
        Some(PrepareError::Drought)
    );
    assert_eq!(rt.get_state(&run).unwrap().status, RuntimeStatus::AwaitingApproval);
    assert!(matches!(rt.scheduler_step(&run), SchedulerStep::Halt));
    assert_eq!(rt.get_state(&run).unwrap().invocations.len(), 2);
}

#[test]
fn context_is_assembled_from_upstream() {
    let mut rt = RARORuntime::new();
    let run = rt.start_workflow(workflow(vec![node("root", &[]), node("child", &["root"])])).unwrap();
    let upstream = vec![UpstreamArtifact {
        agent_id: "root".to_string(),
        text: "facts".to_string(),
        files: vec!["a.csv".to_string(), "a.csv".to_string()],
        raw: b"{}".to_vec(),
    }];
    let p = rt.prepare_with_context(&run, "child", &upstream).unwrap();
    assert_eq!(p.prompt, "prompt of child=== CONTEXT FROM AGENT root ===\nfacts\n");
    assert_eq!(p.input_data, vec![("root".to_string(), b"{}".to_vec())]);
    assert_eq!(p.graph_view, "root[PENDING] -> child[PENDING] (YOU)");
    assert_eq!(p.file_paths, vec!["/app/storage/sessions/".to_string() + &run + "/output/a.csv"]);
    assert!(p.tools.contains(&"execute_python".to_string()));
    let null_but_files = vec![UpstreamArtifact {
        agent_id: "root".to_string(),
        text: "[STATUS: NULL]".to_string(),
        files: vec!["plot.png".to_string()],
        raw: vec![],
    }];
    assert!(rt.prepare_with_context(&run, "child", &null_but_files).is_ok());
    assert!(rt.prepare_with_context(&run, "root", &vec![]).is_ok());
}

#[test]
fn running_needs_completed_dependencies_and_a_live_run() {
    let mut rt = RARORuntime::new();
    let run = rt.start_workflow(workflow(vec![node("a", &[]), node("b", &["a"])])).unwrap();
    rt.set_running(&run);
    assert!(rt.record_invocation(&run, inv("b", InvocationStatus::Running, 0)).is_err());
    assert!(rt.record_invocation(&run, inv("ghost", InvocationStatus::Running, 0)).is_err());
    rt.record_invocation(&run, inv("a", InvocationStatus::Running, 0)).unwrap();
    assert!(rt.stop(&run));
    assert!(rt.record_invocation(&run, inv("a", InvocationStatus::Success, 1)).is_err());
    let s = rt.get_state(&run).unwrap();
    assert_eq!(s.invocations.len(), 1);
    assert_eq!(s.status, RuntimeStatus::Failed);
}

#[test]
fn pattern_engine_acts_on_the_first_hit() {
    let mut rt = RARORuntime::new();
    let run = rt.start_workflow(workflow(vec![node("a", &[])])).unwrap();
    rt.set_running(&run);
    let mut reg = PatternRegistry::new();
    reg.register_fallback_patterns();
    let quiet = RuntimeEvent::new(&run, EventType::ToolCall, Some("a".to_string()), serde_json::Value::Null);
    assert!(!rt.handle_event(&reg, &quiet, "{\"tool\":\"read_file\"}", "t".to_string()));
    assert_eq!(rt.get_state(&run).unwrap().status, RuntimeStatus::Running);
    let failed = RuntimeEvent::new(&run, EventType::AgentFailed, Some("a".to_string()), serde_json::Value::Null);
    assert!(rt.handle_event(&reg, &failed, "{}", "t".to_string()));
    assert_eq!(rt.get_state(&run).unwrap().status, RuntimeStatus::AwaitingApproval);
    let delete = RuntimeEvent::new(&run, EventType::ToolCall, Some("a".to_string()), serde_json::Value::Null);
    assert!(rt.handle_event(&reg, &delete, "{\"tool\":\"fs_delete\"}", "t9".to_string()));
    let s = rt.get_state(&run).unwrap();
    assert_eq!(s.status, RuntimeStatus::Failed);
    assert_eq!(s.end_time, Some("t9".to_string()));
}

#[test]
fn graph_view_tags_each_node() {
    let mut rt = RARORuntime::new();
    let run = rt.start_workflow(workflow(vec![node("a", &[]), node("b", &["a"]), node("c", &["b"])])).unwrap();
    rt.set_running(&run);
    rt.record_invocation(&run, inv("a", InvocationStatus::Running, 0)).unwrap();
    rt.record_invocation(&run, inv("a", InvocationStatus::Success, 0)).unwrap();
    rt.record_invocation(&run, inv("b", InvocationStatus::Running, 0)).unwrap();
    assert_eq!(
        rt.graph_view(&run, "b").unwrap(),
        "a[COMPLETE] -> b[RUNNING] (YOU) -> c[PENDING]"
    );
    assert!(rt.graph_view("nope", "b").is_none());
}

#[test]
fn client_session_validation() {
    assert_eq!(ClientSession::from_header_value(None).unwrap().0, "public");
    assert_eq!(ClientSession::from_header_value(Some("team-42")).unwrap().0, "team-42");
    assert!(ClientSession::from_header_value(Some("../etc")).is_err());
    assert!(ClientSession::from_header_value(Some("a b")).is_err());
    assert_eq!(ClientSession::from_header_value(Some("")).unwrap().0, "");
}

#[test]
fn artifact_metadata_records_files() {
    let mut m = ArtifactMetadata::create_new_metadata("r1", "w1", "do it");
    assert_eq!(m.status, "active");
    assert!(m.artifacts.is_empty());
    assert_ne!(m.created_at, m.expires_at);
    m.add_file("chart.png", "agent_a", "t".to_string(), 12);
    assert_eq!(m.artifacts.len(), 1);
    assert_eq!(m.artifacts[0].content_type, "image/png");
    assert_eq!(m.artifacts[0].size_bytes, 12);
    let fixed = ArtifactMetadata::with_times("r", "w", "d", "c".to_string(), "e".to_string());
    assert_eq!(fixed.expires_at, "e");
}

#[test]
fn payload_drought_pauses_the_run() {
    let mut rt = RARORuntime::new();
    let run = rt.start_workflow(workflow(vec![node("root", &[]), node("child", &["root"])])).unwrap();
    rt.set_running(&run);
    rt.record_invocation(&run, inv("root", InvocationStatus::Running, 0)).unwrap();
    rt.record_invocation(&run, inv("root", InvocationStatus::Success, 1)).unwrap();
    let now = std::time::SystemTime::now()
        .duration_since(std::time::UNIX_EPOCH)
        .unwrap()
        .as_secs();
    rt.store_artifact(&run, "root", b"{\"result\":\"[STATUS: NULL]\"}".to_vec(), now);
    assert_eq!(rt.prepare_invocation_payload(&run, "child").err(), Some(PrepareError::Drought));
    assert_eq!(rt.get_state(&run).unwrap().status, RuntimeStatus::AwaitingApproval);
}

#[test]
fn run_ids_are_fresh() {
    let mut rt = RARORuntime::new();
    let a = rt.start_workflow(workflow(vec![node("a", &[])])).unwrap();
    let b = rt.start_workflow(workflow(vec![node("a", &[])])).unwrap();
    assert_ne!(a, b);
    assert!(rt.record_invocation("missing", inv("a", InvocationStatus::Running, 0)) == Err("Run not found".to_string()));
}

#[test]
fn drought_event_names_the_node() {
    let e = raro_kernel::events::drought_intervention("r1", "child");
    assert_eq!(e.event_type, EventType::SystemIntervention);
    assert_eq!(e.run_id, "r1");
    assert_eq!(e.agent_id, "child");
    assert!(e.reason.contains("Context Drought"));
}
