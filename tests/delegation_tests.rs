use raro_kernel::dag::DAG;
use raro_kernel::events::EventType;
use raro_kernel::delegation::{splice_delegation, DelegationRequest, DelegationStrategy};
use raro_kernel::models::{
    AgentInvocation, AgentNodeConfig, AgentRole, InvocationStatus, ModelVariant, RuntimeState,
    RuntimeStatus, WorkflowConfig,
};
use raro_kernel::runtime::{PrepareError, RARORuntime, ResultOutcome, WorkerResponse};
use raro_kernel::scheduler::{build_dag, SchedulerStep};

fn node(id: &str, deps: &[&str]) -> AgentNodeConfig {
    AgentNodeConfig {
        id: id.to_string(),
        role: AgentRole::Worker,
        model: ModelVariant::GeminiPro,
        tools: vec![],
        input_schema: serde_json::Value::Null,
        output_schema: serde_json::Value::Null,
        cache_policy: "none".to_string(),
        depends_on: deps.iter().map(|d| d.to_string()).collect(),
        prompt: format!("do {}", id),
        allow_delegation: true,
        user_directive: String::new(),
    }
}

fn running_inv(id: &str) -> AgentInvocation {
    AgentInvocation {
        id: format!("r-{}", id),
        agent_id: id.to_string(),
        model_variant: ModelVariant::GeminiPro,
        thought_signature: None,
        tools_used: vec![],
        tokens_used: 0,
        latency_ms: 0,
        status: InvocationStatus::Running,
        timestamp: "t".to_string(),
        error_message: None,
    }
}

fn running(state: &mut RuntimeState, id: &str) {
    state.apply_invocation(AgentInvocation {
        id: format!("i-{}", id),
        agent_id: id.to_string(),
        model_variant: ModelVariant::GeminiPro,
        thought_signature: None,
        tools_used: vec![],
        tokens_used: 0,
        latency_ms: 0,
        status: InvocationStatus::Running,
        timestamp: "t".to_string(),
        error_message: None,
    });
}

fn sorted(mut v: Vec<String>) -> Vec<String> {
    v.sort();
    v
}

fn setup(agents: Vec<AgentNodeConfig>) -> (DAG, Vec<AgentNodeConfig>, RuntimeState) {
    let dag = build_dag(&agents).unwrap();
    let state = RuntimeState::new_run("r".to_string(), "w".to_string(), "t".to_string());
    (dag, agents, state)
}

#[test]
fn child_splice_puts_new_nodes_between_parent_and_dependents() {
    let (mut dag, mut agents, mut state) = setup(vec![node("A", &[]), node("B", &["A"])]);
    running(&mut state, "A");
    let request = DelegationRequest {
        reason: "split".to_string(),
        new_nodes: vec![node("X", &[]), node("Y", &["X"])],
        strategy: DelegationStrategy::Child,
    };
    let ids = splice_delegation(&mut dag, &mut agents, &state, &"A".to_string(), &request, "s1").unwrap().ids;
    assert_eq!(ids, vec!["X", "Y"]);
    assert_eq!(dag.get_dependencies("X"), vec!["A"]);
    assert_eq!(dag.get_dependencies("Y"), vec!["X"]);
    assert_eq!(sorted(dag.get_dependencies("B")), vec!["X", "Y"]);
    assert!(!dag.get_dependents("A").unwrap().contains(&"B".to_string()));
    let order = dag.topological_sort().unwrap();
    let pos = |x: &str| order.iter().position(|n| n == x).unwrap();
    assert!(pos("A") < pos("X") && pos("X") < pos("Y") && pos("Y") < pos("B"));
    let b = agents.iter().find(|a| a.id == "B").unwrap();
    assert_eq!(sorted(b.depends_on.clone()), vec!["X", "Y"]);
    assert_eq!(agents.len(), 4);
}

#[test]
fn sibling_splice_leaves_dependents_alone() {
    let (mut dag, mut agents, mut state) = setup(vec![node("A", &[]), node("B", &["A"])]);
    running(&mut state, "A");
    let request = DelegationRequest {
        reason: "more".to_string(),
        new_nodes: vec![node("S", &[])],
        strategy: DelegationStrategy::Sibling,
    };
    let ids = splice_delegation(&mut dag, &mut agents, &state, &"A".to_string(), &request, "s1").unwrap().ids;
    assert_eq!(ids, vec!["S"]);
    assert_eq!(sorted(dag.get_dependents("A").unwrap()), vec!["B", "S"]);
    assert_eq!(dag.get_dependencies("B"), vec!["A"]);
}

#[test]
fn collision_with_pending_node_replaces_it() {
    let (mut dag, mut agents, mut state) =
        setup(vec![node("A", &[]), node("Z", &[]), node("P", &["Z"])]);
    running(&mut state, "A");
    let mut revised = node("P", &["A"]);
    revised.prompt = "revised".to_string();
    let request = DelegationRequest {
        reason: "revise".to_string(),
        new_nodes: vec![revised],
        strategy: DelegationStrategy::Sibling,
    };
    let ids = splice_delegation(&mut dag, &mut agents, &state, &"A".to_string(), &request, "s1").unwrap().ids;
    assert_eq!(ids, vec!["P"]);
    assert_eq!(dag.get_dependencies("P"), vec!["A"]);
    let p: Vec<&AgentNodeConfig> = agents.iter().filter(|a| a.id == "P").collect();
    assert_eq!(p.len(), 1);
    assert_eq!(p[0].prompt, "revised");
    assert_eq!(p[0].depends_on, vec!["A"]);
}

#[test]
fn collision_with_started_node_renames_and_remaps() {
    let (mut dag, mut agents, mut state) = setup(vec![node("A", &[]), node("C", &["A"])]);
    running(&mut state, "A");
    running(&mut state, "C");
    let request = DelegationRequest {
        reason: "again".to_string(),
        new_nodes: vec![node("C", &[]), node("D", &["C"])],
        strategy: DelegationStrategy::Sibling,
    };
    let ids = splice_delegation(&mut dag, &mut agents, &state, &"A".to_string(), &request, "ab12").unwrap().ids;
    assert_eq!(ids, vec!["C_ab12", "D"]);
    assert_eq!(dag.get_dependencies("D"), vec!["C_ab12"]);
    assert_eq!(dag.get_dependencies("C_ab12"), vec!["A"]);
    assert_eq!(dag.get_dependencies("C"), vec!["A"]);
    let d = agents.iter().find(|a| a.id == "D").unwrap();
    assert_eq!(d.depends_on, vec!["C_ab12"]);
}

#[test]
fn runtime_drops_delegation_when_not_allowed() {
    let mut rt = RARORuntime::new();
    let mut a = node("A", &[]);
    a.allow_delegation = false;
    let wf = WorkflowConfig {
        id: "w".to_string(),
        name: "n".to_string(),
        agents: vec![a, node("B", &["A"])],
        max_token_budget: 10,
        timeout_ms: 10,
    };
    let run = rt.start_workflow(wf).unwrap();
    let request = DelegationRequest {
        reason: "x".to_string(),
        new_nodes: vec![node("X", &[])],
        strategy: DelegationStrategy::Child,
    };
    assert!(rt.delegate(&run, &"A".to_string(), &request).is_err());
    rt.set_running(&run);
    rt.record_invocation(&run, AgentInvocation {
        id: "i".to_string(),
        agent_id: "A".to_string(),
        model_variant: ModelVariant::GeminiPro,
        thought_signature: None,
        tools_used: vec![],
        tokens_used: 0,
        latency_ms: 0,
        status: InvocationStatus::Running,
        timestamp: "t".to_string(),
        error_message: None,
    })
    .unwrap();
    assert_eq!(rt.delegate(&run, &"A".to_string(), &request).unwrap().ids, Vec::<String>::new());
}

fn response(text: &str, delegation: Option<DelegationRequest>) -> WorkerResponse {
    WorkerResponse {
        success: true,
        output_text: text.to_string(),
        tokens_used: 7,
        latency_ms: 3,
        thought_signature: Some(format!("sig of {}", text)),
        cached_content_id: None,
        delegation,
        artifact: Some(format!("{{\"result\":\"{}\"}}", text).into_bytes()),
    }
}

#[test]
fn delegation_child_splice_through_the_run_loop() {
    let mut rt = RARORuntime::new();
    let wf = WorkflowConfig {
        id: "w".to_string(),
        name: "n".to_string(),
        agents: vec![node("A", &[]), node("B", &["A"])],
        max_token_budget: 100,
        timeout_ms: 100,
    };
    let run = rt.start_workflow(wf).unwrap();
    rt.set_running(&run);
    let a = match rt.scheduler_step(&run) {
        SchedulerStep::Dispatch(id) => id,
        other => panic!("unexpected {:?}", other),
    };
    assert_eq!(a, "A");
    rt.record_invocation(&run, running_inv("A")).unwrap();
    let request = DelegationRequest {
        reason: "split".to_string(),
        new_nodes: vec![node("X", &[]), node("Y", &["X"])],
        strategy: DelegationStrategy::Child,
    };
    let outcome = rt
        .handle_worker_result(&run, &"A".to_string(), response("done", Some(request)), ModelVariant::GeminiPro, "i1".to_string(), "t1".to_string(), 100)
        .unwrap();
    match outcome {
        ResultOutcome::Completed { splice } => assert_eq!(splice.unwrap().ids, vec!["X", "Y"]),
        other => panic!("unexpected {:?}", other),
    }
    assert_eq!(rt.get_thought_signature(&run, "A"), Some("sig of done".to_string()));
    assert_eq!(
        rt.graph_view(&run, "B").unwrap(),
        "A[COMPLETE] -> X[PENDING] -> Y[PENDING] -> B[PENDING] (YOU)"
    );
    let mut order = vec![];
    loop {
        match rt.scheduler_step(&run) {
            SchedulerStep::Dispatch(id) => {
                rt.record_invocation(&run, running_inv(&id)).unwrap();
                let out = rt
                    .handle_worker_result(&run, &id, response("ok", None), ModelVariant::GeminiPro, format!("i-{}", id), "t".to_string(), 200)
                    .unwrap();
                assert!(matches!(out, ResultOutcome::Completed { .. }));
                order.push(id);
            }
            SchedulerStep::Complete => {
                rt.complete_run(&run, "end".to_string());
            }
            SchedulerStep::Wait => panic!("nothing is active"),
            SchedulerStep::Halt => break,
        }
    }
    assert_eq!(order, vec!["X", "Y", "B"]);
    let s = rt.get_state(&run).unwrap();
    assert_eq!(s.status, RuntimeStatus::Completed);
    assert_eq!(s.total_tokens_used, 28);
}

#[test]
fn protocol_violation_pauses_the_run() {
    let mut rt = RARORuntime::new();
    let wf = WorkflowConfig {
        id: "w".to_string(),
        name: "n".to_string(),
        agents: vec![node("research_q1", &[])],
        max_token_budget: 100,
        timeout_ms: 100,
    };
    let run = rt.start_workflow(wf).unwrap();
    rt.set_running(&run);
    rt.record_invocation(&run, running_inv("research_q1")).unwrap();
    let out = rt
        .handle_worker_result(&run, &"research_q1".to_string(), response("I think so.", None), ModelVariant::GeminiPro, "i".to_string(), "t".to_string(), 100)
        .unwrap();
    match out {
        ResultOutcome::Paused { reason, event } => {
            assert!(reason.contains("Protocol Violation"));
            assert_eq!(event.event_type, EventType::AgentFailed);
            assert_eq!(event.agent_id, "research_q1");
            assert_eq!(event.reason, reason);
        }
        other => panic!("unexpected {:?}", other),
    }
    let s = rt.get_state(&run).unwrap();
    assert_eq!(s.status, RuntimeStatus::AwaitingApproval);
    assert!(s.completed_agents.is_empty());
    assert!(matches!(rt.scheduler_step(&run), SchedulerStep::Halt));
}

#[test]
fn splice_that_closes_a_cycle_fails_the_run() {
    let mut rt = RARORuntime::new();
    let wf = WorkflowConfig {
        id: "w".to_string(),
        name: "n".to_string(),
        agents: vec![node("A", &[]), node("B", &["A"])],
        max_token_budget: 100,
        timeout_ms: 100,
    };
    let run = rt.start_workflow(wf).unwrap();
    rt.set_running(&run);
    rt.record_invocation(&run, running_inv("A")).unwrap();
    let request = DelegationRequest {
        reason: "loop".to_string(),
        new_nodes: vec![node("X", &["B"])],
        strategy: DelegationStrategy::Child,
    };
    let out = rt
        .handle_worker_result(&run, &"A".to_string(), response("fine", Some(request)), ModelVariant::GeminiPro, "i".to_string(), "t".to_string(), 100)
        .unwrap();
    assert!(matches!(out, ResultOutcome::Failed { .. }));
    let s = rt.get_state(&run).unwrap();
    assert_eq!(s.status, RuntimeStatus::Failed);
    assert_eq!(s.failed_agents, vec!["A"]);
}

#[test]
fn payload_reads_dependency_artifacts_from_the_store() {
    let mut rt = RARORuntime::new();
    let wf = WorkflowConfig {
        id: "w".to_string(),
        name: "n".to_string(),
        agents: vec![node("A", &[]), node("B", &["A"])],
        max_token_budget: 100,
        timeout_ms: 100,
    };
    let run = rt.start_workflow(wf).unwrap();
    rt.set_running(&run);
    rt.record_invocation(&run, running_inv("A")).unwrap();
    rt.handle_worker_result(&run, &"A".to_string(), response("facts", None), ModelVariant::GeminiPro, "i".to_string(), "t".to_string(), 1000)
        .unwrap();
    let p = rt.prepare_invocation(&run, "B", 1500).unwrap();
    assert_eq!(p.prompt, "do B=== CONTEXT FROM AGENT A ===\nfacts\n");
    assert_eq!(p.parent_signature, Some("sig of facts".to_string()));
    assert_eq!(rt.prepare_invocation(&run, "B", 1000 + 3600).err(), Some(PrepareError::Drought));
    assert_eq!(rt.get_state(&run).unwrap().status, RuntimeStatus::AwaitingApproval);
}

#[test]
fn renamed_id_that_is_already_a_node_is_refused() {
    let (mut dag, mut agents, mut state) =
        setup(vec![node("A", &[]), node("C", &["A"]), node("C_s1", &["A"])]);
    running(&mut state, "A");
    running(&mut state, "C");
    let request = DelegationRequest {
        reason: "again".to_string(),
        new_nodes: vec![node("C", &[])],
        strategy: DelegationStrategy::Sibling,
    };
    assert!(splice_delegation(&mut dag, &mut agents, &state, &"A".to_string(), &request, "s1").is_err());
    assert_eq!(dag.export_nodes().len(), 3);
}

#[test]
fn splice_keeps_old_nodes_and_sorts_all() {
    let (mut dag, mut agents, mut state) = setup(vec![node("A", &[]), node("B", &["A"])]);
    running(&mut state, "A");
    let request = DelegationRequest {
        reason: "split".to_string(),
        new_nodes: vec![node("X", &[]), node("Y", &["X"])],
        strategy: DelegationStrategy::Child,
    };
    splice_delegation(&mut dag, &mut agents, &state, &"A".to_string(), &request, "s").unwrap();
    assert_eq!(dag.topological_sort().unwrap(), vec!["A", "X", "Y", "B"]);
}

#[test]
fn replaced_pending_node_keeps_only_declared_parents() {
    let (mut dag, mut agents, mut state) =
        setup(vec![node("A", &[]), node("Z", &[]), node("P", &["Z"])]);
    running(&mut state, "A");
    let request = DelegationRequest {
        reason: "revise".to_string(),
        new_nodes: vec![node("P", &["Z"])],
        strategy: DelegationStrategy::Sibling,
    };
    let sp = splice_delegation(&mut dag, &mut agents, &state, &"A".to_string(), &request, "s").unwrap();
    assert_eq!(sp.ids, vec!["P"]);
    assert_eq!(sp.replaced, vec![true]);
    assert_eq!(dag.get_dependencies("P"), vec!["Z"]);
}
