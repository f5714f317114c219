//! The runtime: the records of all runs, keyed by run id, and the operations
//! the server and the run loop perform on them.
use vstd::prelude::*;
use vstd::string::*;
use dashmap::DashMap;
use crate::bindings::{
    new_uuid_string, now_rfc3339, now_unix_secs, runs_contains, runs_insert, runs_new, runs_of, runs_remove,
};
use crate::context::{
    assemble_prompt, blocks_of, breaker_reason, drought, evaluate_output, linear_view,
    render_linear_view, upstream_from_json, input_data_of, breaker_reason_spec, artifact_files, artifact_text, distinct_ids, violates_protocol, STATUS_NULL_MARKER, first_signature, is_context_drought, model_name,
    model_name_spec, mount_paths, output_path, parent_signature, provision_tools,
    provisioned_tools, upstream_texts, UpstreamArtifact,
};
use crate::artifacts::{expiry, ArtifactStore};
use crate::state::ARTIFACT_TTL_SECS;
use crate::dag::{lemma_wf_acyclic, DAG};
use crate::delegation::{
    batch_views, holds_config, is_pending, moved_kids, splice_allowed, splice_delegation,
    spliced_edges, spliced_nodes, DelegationRequest, DelegationStrategy, Splice,
};
use crate::events::{
    breaker_intervention, event_type_name, event_type_name_spec, EventType, Intervention, RuntimeEvent,
};
use crate::registry::{fires, PatternAction, PatternRegistry};
use crate::models::{
    copy_ids, copy_invocations, copy_opt, id_set, same_invocation, token_sum, AgentInvocation, AgentNodeConfig, InvocationStatus, ModelVariant, RuntimeState,
    RuntimeStatus, ThoughtSignatureStore, WorkflowConfig,
};
use crate::scheduler::{
    agent_ids, all_in, build_dag, config_acyclic, config_edges, deps_known, is_ready, next_step,
    SchedulerStep,
};
use crate::text::has_sub;
use crate::state::{lemma_status_closure, status_reachable, admissible, contains_id, invocation_applied};

verus! {

/// What one invocation of a node is handed.
#[derive(Clone, Debug)]
pub struct InvocationPayload {
    pub run_id: String,
    pub agent_id: String,
    pub user_directive: String,
    pub allow_delegation: bool,
    pub model: String,
    pub prompt: String,
    pub parent_signature: Option<String>,
    pub cached_content_id: Option<String>,
    pub thinking_level: Option<i32>,
    pub file_paths: Vec<String>,
    pub tools: Vec<String>,
    /// Each upstream agent with its artifact's JSON document, in the order of
    /// the declared dependencies.
    pub input_data: Vec<(String, Vec<u8>)>,
    /// The compact view of the run's graph for this node.
    pub graph_view: String,
}

/// Everything the runtime keeps for one run.
pub struct RunRecord {
    pub workflow: WorkflowConfig,
    pub dag: DAG,
    pub state: RuntimeState,
    pub signatures: ThoughtSignatureStore,
    pub cache_resource: Option<String>,
}

impl RunRecord {
    pub open spec fn wf(&self) -> bool {
        self.dag.wf() && self.state.inv()
    }
}

/// `rec` is the record a run of `config` starts with.
pub open spec fn fresh_record(rec: RunRecord, config: WorkflowConfig, run_id: String, now: String) -> bool {
    &&& rec.workflow == config
    &&& rec.dag.wf()
    &&& rec.dag.node_set() == agent_ids(config.agents@)
    &&& rec.dag.edge_set() == config_edges(config.agents@)
    &&& rec.state.run_id == run_id
    &&& rec.state.workflow_id == config.id
    &&& rec.state.start_time == now
    &&& rec.state.status == RuntimeStatus::Idle
    &&& rec.state.active_agents@.len() == 0
    &&& rec.state.completed_agents@.len() == 0
    &&& rec.state.failed_agents@.len() == 0
    &&& rec.state.invocations@.len() == 0
    &&& rec.state.total_tokens_used == 0
    &&& rec.state.end_time is None
    &&& forall|k: Seq<char>| rec.signatures.get_spec(k) is None
    &&& rec.cache_resource is None
}

/// A node of the run whose dependencies in the graph have all completed.
pub open spec fn startable(rec: RunRecord, agent_id: Seq<char>) -> bool {
    rec.dag.has_node(agent_id) && rec.dag.parents(agent_id).subset_of(rec.state.completed())
}

/// Some configuration of the node allows it to delegate.
pub open spec fn delegation_allowed(agents: Seq<AgentNodeConfig>, id: Seq<char>) -> bool {
    exists|j: int| 0 <= j < agents.len() && (#[trigger] agents[j]).id@ == id && agents[j].allow_delegation
}

/// `new` is `old` with only its state changed.
pub open spec fn only_state_changed(old: RunRecord, new: RunRecord) -> bool {
    &&& new.workflow == old.workflow
    &&& new.dag == old.dag
    &&& new.signatures == old.signatures
    &&& new.cache_resource == old.cache_resource
}

/// The index of the first node of a workflow with the id `agent_id`.
pub open spec fn first_agent(agents: Seq<AgentNodeConfig>, agent_id: Seq<char>, i: int) -> bool {
    &&& 0 <= i < agents.len()
    &&& agents[i].id@ == agent_id
    &&& forall|j: int| 0 <= j < i ==> agents[j].id@ != agent_id
}

/// Why a run could not be resumed.
#[derive(Clone, Copy, Debug, PartialEq, Eq, Structural)]
pub enum ResumeError {
    /// No run, or no graph, under that id.
    NotFound,
    /// The run is not awaiting approval.
    NotPaused,
}

/// Why a payload could not be prepared.
#[derive(Clone, Copy, Debug, PartialEq, Eq, Structural)]
pub enum PrepareError {
    /// No run under that id, or no node of that id in its workflow.
    NotFound,
    /// The node has dependencies but no usable context: the run pauses.
    Drought,
}

/// What the worker answered for one invocation.
#[derive(Clone, Debug)]
pub struct WorkerResponse {
    pub success: bool,
    pub output_text: String,
    pub tokens_used: usize,
    pub latency_ms: u64,
    pub thought_signature: Option<String>,
    pub cached_content_id: Option<String>,
    pub delegation: Option<DelegationRequest>,
    /// The JSON artifact to store under the canonical key; `None` where the
    /// worker stored it itself.
    pub artifact: Option<Vec<u8>>,
}

/// What became of a node's result.
#[derive(Clone, Debug)]
pub enum ResultOutcome {
    /// The node completed; what a delegation spliced in, if it carried one.
    Completed { splice: Option<Splice> },
    /// A safety gate tripped: the run awaits approval for this reason, and
    /// the `AgentFailed` event to publish.
    Paused { reason: String, event: Intervention },
    /// The delegation could not be spliced: the run failed.
    Failed { reason: String },
}

/// The splice a completed result carries, if any.
pub open spec fn completed_splice(r: Result<ResultOutcome, String>) -> Option<Splice> {
    match r {
        Ok(ResultOutcome::Completed { splice }) => splice,
        _ => None,
    }
}

/// The reason and the event a paused result carries, if it paused.
pub open spec fn paused_with(r: Result<ResultOutcome, String>) -> Option<(String, Intervention)> {
    match r {
        Ok(ResultOutcome::Paused { reason, event }) => Some((reason, event)),
        _ => None,
    }
}

/// Some upstream artifact declares a generated file.
pub open spec fn has_files(upstream: Seq<UpstreamArtifact>) -> bool {
    exists|i: int| 0 <= i < upstream.len() && (#[trigger] upstream[i]).files@.len() > 0
}

/// The key of an agent's artifact.
pub open spec fn artifact_key_spec(run_id: Seq<char>, agent_id: Seq<char>) -> Seq<char> {
    "run:"@ + run_id + ":agent:"@ + agent_id + ":output"@
}

/// The live artifacts of the dependencies, in declared order, with their
/// ids: a dependency whose artifact is absent or expired at `now` has none.
pub open spec fn live_artifacts(
    store: ArtifactStore,
    run_id: Seq<char>,
    deps: Seq<String>,
    now: u64,
) -> Seq<(Seq<char>, Seq<u8>)>
    decreases deps.len(),
{
    if deps.len() == 0 {
        Seq::empty()
    } else {
        let rest = live_artifacts(store, run_id, deps.drop_last(), now);
        match store.visible(artifact_key_spec(run_id, deps.last()@), now) {
            Some(b) => rest.push((deps.last()@, b)),
            None => rest,
        }
    }
}

/// `u` reads the artifacts `arts` in order.
pub open spec fn upstream_matches(u: Seq<UpstreamArtifact>, arts: Seq<(Seq<char>, Seq<u8>)>) -> bool {
    &&& u.len() == arts.len()
    &&& forall|i: int|
        0 <= i < u.len() ==> (#[trigger] u[i]).agent_id@ == arts[i].0 && u[i].raw@ == arts[i].1 && u[i].text@
            == artifact_text(arts[i].1) && id_set(u[i].files@) == artifact_files(arts[i].1)
}

/// What preparing a payload for `agent_id` in run `run_id`, with the
/// upstream artifacts `upstream`, does: `NotFound` exactly where the run or
/// the node is unknown; a drought pauses the run; otherwise the payload is
/// assembled and nothing changes.
pub open spec fn prepared(
    old: RARORuntime,
    new: RARORuntime,
    run_id: Seq<char>,
    agent_id: Seq<char>,
    upstream: Seq<UpstreamArtifact>,
    r: Result<InvocationPayload, PrepareError>,
) -> bool {
    &&& new.artifact_store() == old.artifact_store()
    &&& ((r == Err::<InvocationPayload, PrepareError>(PrepareError::NotFound)) <==> !(old.runs().contains_key(run_id) && exists|i: int|
                first_agent(old.runs()[run_id].workflow.agents@, agent_id, i)))
    &&& (r is Err ==> new.runs().dom() == old.runs().dom())
    &&& (match r {
                Ok(p) => {
                    let rec = old.runs()[run_id];
                    &&& new.runs() == old.runs()
                    &&& exists|i: int|
                        #![auto]
                        first_agent(rec.workflow.agents@, agent_id, i) && {
                            let cfg = rec.workflow.agents@[i];
                            &&& !drought(
                                cfg.depends_on@.len(),
                                upstream.map_values(|u: UpstreamArtifact| u.text),
                                if has_files(upstream) {
                                    1nat
                                } else {
                                    0nat
                                },
                            )
                            &&& p.agent_id@ == agent_id
                            &&& p.run_id@ == run_id
                            &&& p.input_data@.len() == upstream.len()
                            &&& (forall|j: int|
                                0 <= j < upstream.len() ==> (#[trigger] p.input_data@[j]).0@
                                    == upstream[j].agent_id@ && p.input_data@[j].1@
                                    == upstream[j].raw@)
                            &&& (exists|order: Seq<Seq<char>>|
                                rec.dag.is_topological_order(order) && p.graph_view@
                                    == #[trigger] linear_view(rec.state, order, agent_id))
                            &&& p.user_directive == cfg.user_directive
                            &&& p.allow_delegation == cfg.allow_delegation
                            &&& distinct_ids(p.tools@)
                            &&& p.thinking_level == if cfg.model == ModelVariant::GeminiDeepThink {
                                Some(5i32)
                            } else {
                                None::<i32>
                            }
                            &&& p.model@ == model_name_spec(cfg.model)
                            &&& p.prompt@ == cfg.prompt@ + blocks_of(upstream)
                            &&& (forall|x: Seq<char>|
                                id_set(p.file_paths@).contains(x) <==> exists|j: int, k: int|
                                    0 <= j < upstream.len() && 0 <= k
                                        < upstream[j].files@.len() && x == output_path(
                                        run_id,
                                        #[trigger] upstream[j].files@[k]@,
                                    ))
                            &&& match p.parent_signature {
                                Some(s) => first_signature(cfg.depends_on@, rec.signatures)
                                    == Some(s@),
                                None => first_signature(cfg.depends_on@, rec.signatures) is None,
                            }
                            &&& p.cached_content_id == rec.cache_resource
                            &&& id_set(p.tools@) == provisioned_tools(
                                agent_id,
                                id_set(cfg.tools@),
                                has_files(upstream),
                            )
                        }
                },
                Err(PrepareError::Drought) => {
                    let rec = old.runs()[run_id];
                    let n = new.runs()[run_id];
                    &&& exists|i: int|
                        #![auto]
                        first_agent(rec.workflow.agents@, agent_id, i) && drought(
                            rec.workflow.agents@[i].depends_on@.len(),
                            upstream.map_values(|u: UpstreamArtifact| u.text),
                            if has_files(upstream) {
                                1nat
                            } else {
                                0nat
                            },
                        )
                    &&& new.runs() == old.runs().insert(run_id, n)
                    &&& n.state == if rec.state.status == RuntimeStatus::Running {
                        RuntimeState { status: RuntimeStatus::AwaitingApproval, ..rec.state }
                    } else {
                        rec.state
                    }
                    &&& only_state_changed(rec, n)
                },
                Err(PrepareError::NotFound) => new.runs() == old.runs(),
            })
}

/// Every run held before and after moved its status only along allowed
/// transitions.
pub open spec fn statuses_progress(old: RARORuntime, new: RARORuntime) -> bool {
    forall|k: Seq<char>|
        #[trigger] new.runs().contains_key(k) && old.runs().contains_key(k) ==> status_reachable(
            old.runs()[k].state.status,
            new.runs()[k].state.status,
        )
}

/// The records of all runs, by run id.
pub struct RARORuntime {
    runs: DashMap<String, RunRecord>,
    artifacts: ArtifactStore,
}

impl RARORuntime {
    pub closed spec fn runs(&self) -> Map<Seq<char>, RunRecord> {
        runs_of(self.runs)
    }

    /// The artifact store.
    pub closed spec fn artifact_store(&self) -> ArtifactStore {
        self.artifacts
    }

    /// Every record keeps its graph well-formed and its state invariants.
    pub open spec fn wf(&self) -> bool {
        forall|k: Seq<char>| #[trigger] self.runs().contains_key(k) ==> self.runs()[k].wf()
    }

    /// A runtime with no runs.
    pub fn new() -> (r: RARORuntime)
        ensures
            r.wf(),
            r.runs() =~= Map::empty(),
    {
        RARORuntime { runs: runs_new(), artifacts: ArtifactStore::new() }
    }

    /// Validates `config` into a graph and registers run `run_id` for it,
    /// idle, started at `now`. An invalid workflow creates no run.
    pub fn start_workflow_with(&mut self, config: WorkflowConfig, run_id: String, now: String) -> (r:
        Result<String, String>)
        requires
            old(self).wf(),
        ensures
            statuses_progress(*old(self), *final(self)),
            final(self).wf(),
            r is Ok <==> (deps_known(config.agents@) && config_acyclic(config.agents@) && !old(self).runs().contains_key(run_id@)),
            match r {
                Ok(id) => id == run_id && final(self).runs().contains_key(run_id@) && final(self).runs() == old(self).runs().insert(run_id@, final(self).runs()[run_id@])
                    && fresh_record(final(self).runs()[run_id@], config, run_id, now),
                Err(_) => final(self).runs() == old(self).runs(),
            },
    {
        if self.has_dag(run_id.as_str()) {
            return Err(String::from_str("Run id already in use"));
        }
        let dag = match build_dag(&config.agents) {
            Ok(g) => g,
            Err(_) => {
                return Err(String::from_str("Invalid workflow"));
            },
        };
        let state = RuntimeState::new_run(run_id.clone(), config.id.clone(), now);
        let rec = RunRecord {
            workflow: config,
            dag,
            state,
            signatures: ThoughtSignatureStore::new(),
            cache_resource: None,
        };
        let ghost rec0 = rec;
        let _ = runs_insert(&mut self.runs, run_id.clone(), rec);
        proof {
            assert(self.runs()[run_id@] == rec0);
            assert forall|k: Seq<char>| #[trigger] self.runs().contains_key(k) implies self.runs()[k].wf() by {
                if k != run_id@ {
                    assert(old(self).runs().contains_key(k));
                }
            }
        }
        Ok(run_id)
    }

    /// Validates `config` and registers a run of it under a fresh random id,
    /// stamped with the current time; the id is returned.
    pub fn start_workflow(&mut self, config: WorkflowConfig) -> (r: Result<String, String>)
        requires
            old(self).wf(),
        ensures
            statuses_progress(*old(self), *final(self)),
            final(self).wf(),
            r is Ok ==> deps_known(config.agents@) && config_acyclic(config.agents@),
            !(deps_known(config.agents@) && config_acyclic(config.agents@)) ==> r is Err,
            r is Err && deps_known(config.agents@) && config_acyclic(config.agents@) ==> exists|
                k: Seq<char>,
            | old(self).runs().contains_key(k),
            match r {
                Ok(id) => !old(self).runs().contains_key(id@) && final(self).runs().contains_key(id@) && final(self).runs() == old(self).runs().insert(id@, final(self).runs()[id@]) && exists|now: String|
                    fresh_record(final(self).runs()[id@], config, id, now),
                Err(_) => final(self).runs() == old(self).runs(),
            },
    {
        let run_id = new_uuid_string();
        if self.has_dag(run_id.as_str()) {
            return Err(String::from_str("Run id already in use"));
        }
        let now = now_rfc3339();
        let r = self.start_workflow_with(config, run_id, now);
        proof {
            if r is Ok {
                assert(fresh_record(self.runs()[run_id@], config, run_id, now));
            }
        }
        r
    }

    /// Whether a run, and so its graph, is held under `run_id`.
    pub fn has_dag(&self, run_id: &str) -> (r: bool)
        ensures
            r == self.runs().contains_key(run_id@),
    {
        runs_contains(&self.runs, run_id)
    }

    /// A copy of a run's state, field for field.
    pub fn get_state(&mut self, run_id: &str) -> (r: Option<RuntimeState>)
        requires
            old(self).wf(),
        ensures
            statuses_progress(*old(self), *final(self)),
            final(self).runs() == old(self).runs(),
            r is Some <==> old(self).runs().contains_key(run_id@),
            match r {
                Some(s) => {
                    let o = old(self).runs()[run_id@].state;
                    &&& s.run_id == o.run_id
                    &&& s.workflow_id == o.workflow_id
                    &&& s.status == o.status
                    &&& s.active_agents@ == o.active_agents@
                    &&& s.completed_agents@ == o.completed_agents@
                    &&& s.failed_agents@ == o.failed_agents@
                    &&& s.invocations@.len() == o.invocations@.len()
                    &&& forall|i: int|
                        0 <= i < o.invocations@.len() ==> same_invocation(
                            #[trigger] s.invocations@[i],
                            o.invocations@[i],
                        )
                    &&& s.total_tokens_used == o.total_tokens_used
                    &&& s.start_time == o.start_time
                    &&& s.end_time == o.end_time
                },
                None => true,
            },
    {
        let (key, rec) = match runs_remove(&mut self.runs, run_id) {
            Some(e) => e,
            None => {
                return None;
            },
        };
        let st = &rec.state;
        let copy = RuntimeState {
            run_id: st.run_id.clone(),
            workflow_id: st.workflow_id.clone(),
            status: st.status,
            active_agents: copy_ids(&st.active_agents),
            completed_agents: copy_ids(&st.completed_agents),
            failed_agents: copy_ids(&st.failed_agents),
            invocations: copy_invocations(&st.invocations),
            total_tokens_used: st.total_tokens_used,
            start_time: st.start_time.clone(),
            end_time: copy_opt(&st.end_time),
        };
        let _ = runs_insert(&mut self.runs, key, rec);
        proof {
            assert(self.runs() =~= old(self).runs());
        }
        Some(copy)
    }

    /// Records an invocation in a run's log (see `invocation_applied`).
    /// Refused where the run is unknown or terminal, where the token total
    /// would overflow, where the agent has already finished, or where a
    /// running invocation names a node that is not a node of the run or
    /// whose dependencies have not all completed.
    pub fn record_invocation(&mut self, run_id: &str, invocation: AgentInvocation) -> (r: Result<
        (),
        String,
    >)
        requires
            old(self).wf(),
        ensures
            statuses_progress(*old(self), *final(self)),
            final(self).wf(),
            r is Ok <==> (old(self).runs().contains_key(run_id@) && old(self).runs()[run_id@].state.total_tokens_used
                + invocation.tokens_used <= usize::MAX && admissible(
                old(self).runs()[run_id@].state,
                invocation,
            ) && !old(self).runs()[run_id@].state.status.is_terminal() && (invocation.status
                == InvocationStatus::Running ==> startable(
                old(self).runs()[run_id@],
                invocation.agent_id@,
            ))),
            r is Ok ==> final(self).runs().contains_key(run_id@) && final(self).runs() == old(self).runs().insert(run_id@, final(self).runs()[run_id@]) && invocation_applied(
                old(self).runs()[run_id@].state,
                final(self).runs()[run_id@].state,
                invocation,
            ) && only_state_changed(old(self).runs()[run_id@], final(self).runs()[run_id@]),
            !old(self).runs().contains_key(run_id@) ==> (r matches Err(m) && m@ == "Run not found"@),
            final(self).artifact_store() == old(self).artifact_store(),
            r is Err ==> final(self).runs() == old(self).runs(),
    {
        let (key, mut rec) = match runs_remove(&mut self.runs, run_id) {
            Some(e) => e,
            None => {
                return Err(String::from_str("Run not found"));
            },
        };
        let fits = invocation.tokens_used <= usize::MAX - rec.state.total_tokens_used;
        let terminal = rec.state.status == RuntimeStatus::Completed || rec.state.status
            == RuntimeStatus::Failed;
        let ready = match invocation.status {
            InvocationStatus::Running => {
                rec.dag.contains_node(invocation.agent_id.as_str()) && all_in(
                    &rec.dag.get_dependencies(invocation.agent_id.as_str()),
                    &rec.state.completed_agents,
                )
            },
            _ => true,
        };
        let finished = match invocation.status {
            InvocationStatus::Running | InvocationStatus::Success | InvocationStatus::Failed => {
                contains_id(&rec.state.completed_agents, &invocation.agent_id) || contains_id(
                    &rec.state.failed_agents,
                    &invocation.agent_id,
                )
            },
            _ => false,
        };
        if !fits || finished || terminal || !ready {
            let _ = runs_insert(&mut self.runs, key, rec);
            proof {
                assert(self.runs() =~= old(self).runs());
            }
            return Err(String::from_str("Invocation refused"));
        }
        rec.state.apply_invocation(invocation);
        let _ = runs_insert(&mut self.runs, key, rec);
        proof {
            assert(self.runs() =~= old(self).runs().insert(run_id@, self.runs()[run_id@]));
        }
        Ok(())
    }

    /// Stores a thought signature of an agent of a run.
    pub fn set_thought_signature(&mut self, run_id: &str, agent_id: &str, signature: String) -> (r:
        Result<(), String>)
        requires
            old(self).wf(),
        ensures
            statuses_progress(*old(self), *final(self)),
            final(self).wf(),
            r is Ok <==> old(self).runs().contains_key(run_id@),
            r is Ok ==> {
                let o = old(self).runs()[run_id@];
                let n = final(self).runs()[run_id@];
                &&& final(self).runs().contains_key(run_id@)
                &&& final(self).runs() == old(self).runs().insert(run_id@, n)
                &&& n.signatures.get_spec(agent_id@) == Some(signature@)
                &&& forall|k: Seq<char>| k != agent_id@ ==> n.signatures.get_spec(k) == o.signatures.get_spec(k)
                &&& n.workflow == o.workflow && n.dag == o.dag && n.state == o.state
                &&& n.cache_resource == o.cache_resource
            },
            r is Err ==> final(self).runs() == old(self).runs(),
    {
        let (key, mut rec) = match runs_remove(&mut self.runs, run_id) {
            Some(e) => e,
            None => {
                return Err(String::from_str("Run not found"));
            },
        };
        rec.signatures.set(agent_id.to_owned(), signature);
        let _ = runs_insert(&mut self.runs, key, rec);
        proof {
            assert(self.runs() =~= old(self).runs().insert(run_id@, self.runs()[run_id@]));
        }
        Ok(())
    }

    /// The thought signature of an agent of a run.
    pub fn get_thought_signature(&mut self, run_id: &str, agent_id: &str) -> (r: Option<String>)
        requires
            old(self).wf(),
        ensures
            statuses_progress(*old(self), *final(self)),
            final(self).runs() == old(self).runs(),
            match r {
                Some(s) => old(self).runs().contains_key(run_id@) && old(self).runs()[run_id@].signatures.get_spec(
                    agent_id@,
                ) == Some(s@),
                None => !old(self).runs().contains_key(run_id@) || old(self).runs()[run_id@].signatures.get_spec(
                    agent_id@,
                ) is None,
            },
    {
        let (key, rec) = match runs_remove(&mut self.runs, run_id) {
            Some(e) => e,
            None => {
                return None;
            },
        };
        let r = rec.signatures.get(agent_id);
        let _ = runs_insert(&mut self.runs, key, rec);
        proof {
            assert(self.runs() =~= old(self).runs());
        }
        r
    }

    /// A copy of a run's signature store.
    pub fn get_all_signatures(&mut self, run_id: &str) -> (r: Option<ThoughtSignatureStore>)
        requires
            old(self).wf(),
        ensures
            statuses_progress(*old(self), *final(self)),
            final(self).runs() == old(self).runs(),
            r is Some <==> old(self).runs().contains_key(run_id@),
            match r {
                Some(s) => forall|k: Seq<char>|
                    s.get_spec(k) == old(self).runs()[run_id@].signatures.get_spec(k),
                None => true,
            },
    {
        let (key, rec) = match runs_remove(&mut self.runs, run_id) {
            Some(e) => e,
            None => {
                return None;
            },
        };
        let mut sigs: Vec<(String, String)> = Vec::new();
        let mut i: usize = 0;
        while i < rec.signatures.signatures.len()
            invariant
                i <= rec.signatures.signatures@.len(),
                sigs@ == rec.signatures.signatures@.subrange(0, i as int),
            decreases rec.signatures.signatures@.len() - i,
        {
            let k = rec.signatures.signatures[i].0.clone();
            let v = rec.signatures.signatures[i].1.clone();
            sigs.push((k, v));
            proof {
                assert(sigs@ =~= rec.signatures.signatures@.subrange(0, i + 1));
            }
            i = i + 1;
        }
        proof {
            assert(sigs@ =~= rec.signatures.signatures@);
        }
        let copy = ThoughtSignatureStore { signatures: sigs };
        let _ = runs_insert(&mut self.runs, key, rec);
        proof {
            assert(self.runs() =~= old(self).runs());
        }
        Some(copy)
    }

    /// Binds a cached-content id to a run.
    pub fn set_cache_resource(&mut self, run_id: &str, cached_content_id: String) -> (r: Result<
        (),
        String,
    >)
        requires
            old(self).wf(),
        ensures
            statuses_progress(*old(self), *final(self)),
            final(self).wf(),
            r is Ok <==> old(self).runs().contains_key(run_id@),
            r is Ok ==> {
                let o = old(self).runs()[run_id@];
                let n = final(self).runs()[run_id@];
                &&& final(self).runs().contains_key(run_id@)
                &&& final(self).runs() == old(self).runs().insert(run_id@, n)
                &&& n.cache_resource == Some(cached_content_id)
                &&& n.workflow == o.workflow && n.dag == o.dag && n.state == o.state
                &&& n.signatures == o.signatures
            },
            r is Err ==> final(self).runs() == old(self).runs(),
    {
        let (key, mut rec) = match runs_remove(&mut self.runs, run_id) {
            Some(e) => e,
            None => {
                return Err(String::from_str("Run not found"));
            },
        };
        rec.cache_resource = Some(cached_content_id);
        let _ = runs_insert(&mut self.runs, key, rec);
        proof {
            assert(self.runs() =~= old(self).runs().insert(run_id@, self.runs()[run_id@]));
        }
        Ok(())
    }

    /// The cached-content id bound to a run.
    pub fn get_cache_resource(&mut self, run_id: &str) -> (r: Option<String>)
        requires
            old(self).wf(),
        ensures
            statuses_progress(*old(self), *final(self)),
            final(self).runs() == old(self).runs(),
            r == if old(self).runs().contains_key(run_id@) {
                old(self).runs()[run_id@].cache_resource
            } else {
                None::<String>
            },
    {
        let (key, rec) = match runs_remove(&mut self.runs, run_id) {
            Some(e) => e,
            None => {
                return None;
            },
        };
        let r = copy_opt(&rec.cache_resource);
        let _ = runs_insert(&mut self.runs, key, rec);
        proof {
            assert(self.runs() =~= old(self).runs());
        }
        r
    }

    /// Pauses a running run until an operator resumes or stops it.
    pub fn request_approval(&mut self, run_id: &str) -> (changed: bool)
        requires
            old(self).wf(),
        ensures
            statuses_progress(*old(self), *final(self)),
            final(self).wf(),
            changed == (old(self).runs().contains_key(run_id@) && old(self).runs()[run_id@].state.status
                == RuntimeStatus::Running),
            changed ==> {
                let o = old(self).runs()[run_id@];
                let n = final(self).runs()[run_id@];
                &&& final(self).runs().contains_key(run_id@)
                &&& final(self).runs() == old(self).runs().insert(run_id@, n)
                &&& n.state == (RuntimeState { status: RuntimeStatus::AwaitingApproval, ..o.state })
                &&& only_state_changed(o, n)
            },
            !changed ==> final(self).runs() == old(self).runs(),
    {
        let (key, mut rec) = match runs_remove(&mut self.runs, run_id) {
            Some(e) => e,
            None => {
                return false;
            },
        };
        let changed = rec.state.request_approval();
        let _ = runs_insert(&mut self.runs, key, rec);
        proof {
            if changed {
                assert(self.runs() =~= old(self).runs().insert(run_id@, self.runs()[run_id@]));
            } else {
                assert(self.runs() =~= old(self).runs());
            }
        }
        changed
    }

    /// Resumes a paused run. `NotFound` where no run or graph is held under
    /// the id; `NotPaused` where the run is not awaiting approval.
    pub fn resume(&mut self, run_id: &str) -> (r: Result<(), ResumeError>)
        requires
            old(self).wf(),
        ensures
            statuses_progress(*old(self), *final(self)),
            final(self).wf(),
            r == if !old(self).runs().contains_key(run_id@) {
                Err::<(), ResumeError>(ResumeError::NotFound)
            } else if old(self).runs()[run_id@].state.status != RuntimeStatus::AwaitingApproval {
                Err::<(), ResumeError>(ResumeError::NotPaused)
            } else {
                Ok::<(), ResumeError>(())
            },
            r is Ok ==> {
                let o = old(self).runs()[run_id@];
                let n = final(self).runs()[run_id@];
                &&& final(self).runs().contains_key(run_id@)
                &&& final(self).runs() == old(self).runs().insert(run_id@, n)
                &&& n.state == (RuntimeState { status: RuntimeStatus::Running, ..o.state })
                &&& only_state_changed(o, n)
            },
            r is Err ==> final(self).runs() == old(self).runs(),
    {
        let (key, mut rec) = match runs_remove(&mut self.runs, run_id) {
            Some(e) => e,
            None => {
                return Err(ResumeError::NotFound);
            },
        };
        let changed = rec.state.resume();
        let _ = runs_insert(&mut self.runs, key, rec);
        if changed {
            proof {
                assert(self.runs() =~= old(self).runs().insert(run_id@, self.runs()[run_id@]));
            }
            Ok(())
        } else {
            proof {
                assert(self.runs() =~= old(self).runs());
            }
            Err(ResumeError::NotPaused)
        }
    }

    /// Fails a run that is not terminal, at `now`; the agent named, if it is
    /// active, moves to `failed`. A terminal or unknown run is left as it is.
    pub fn fail_run(&mut self, run_id: &str, agent_id: Option<String>, now: String) -> (changed: bool)
        requires
            old(self).wf(),
        ensures
            statuses_progress(*old(self), *final(self)),
            final(self).wf(),
            changed == (old(self).runs().contains_key(run_id@) && !old(self).runs()[run_id@].state.status.is_terminal()),
            changed ==> {
                let o = old(self).runs()[run_id@];
                let n = final(self).runs()[run_id@];
                &&& final(self).runs().contains_key(run_id@)
                &&& final(self).runs() == old(self).runs().insert(run_id@, n)
                &&& n.state.status == RuntimeStatus::Failed
                &&& n.state.end_time == Some(now)
                &&& n.state.invocations == o.state.invocations
                &&& n.state.completed() == o.state.completed()
                &&& only_state_changed(o, n)
            },
            !changed ==> final(self).runs() == old(self).runs(),
    {
        let (key, mut rec) = match runs_remove(&mut self.runs, run_id) {
            Some(e) => e,
            None => {
                return false;
            },
        };
        let changed = rec.state.fail(agent_id, now);
        let _ = runs_insert(&mut self.runs, key, rec);
        proof {
            if changed {
                assert(self.runs() =~= old(self).runs().insert(run_id@, self.runs()[run_id@]));
            } else {
                assert(self.runs() =~= old(self).runs());
            }
        }
        changed
    }

    /// The operator's stop: fails the run at the current time.
    pub fn stop(&mut self, run_id: &str) -> (changed: bool)
        requires
            old(self).wf(),
        ensures
            statuses_progress(*old(self), *final(self)),
            final(self).wf(),
            changed == (old(self).runs().contains_key(run_id@) && !old(self).runs()[run_id@].state.status.is_terminal()),
            changed ==> final(self).runs().contains_key(run_id@) && final(self).runs()[run_id@].state.status
                == RuntimeStatus::Failed && final(self).runs()[run_id@].state.invocations == old(self).runs()[run_id@].state.invocations,
            !changed ==> final(self).runs() == old(self).runs(),
    {
        let now = now_rfc3339();
        self.fail_run(run_id, None, now)
    }

    /// Starts an idle run; returns whether the status changed.
    pub fn set_running(&mut self, run_id: &str) -> (changed: bool)
        requires
            old(self).wf(),
        ensures
            statuses_progress(*old(self), *final(self)),
            final(self).wf(),
            changed == (old(self).runs().contains_key(run_id@) && old(self).runs()[run_id@].state.status
                == RuntimeStatus::Idle),
            changed ==> {
                let o = old(self).runs()[run_id@];
                let n = final(self).runs()[run_id@];
                &&& final(self).runs().contains_key(run_id@)
                &&& final(self).runs() == old(self).runs().insert(run_id@, n)
                &&& n.state == (RuntimeState { status: RuntimeStatus::Running, ..o.state })
                &&& only_state_changed(o, n)
            },
            !changed ==> final(self).runs() == old(self).runs(),
    {
        let (key, mut rec) = match runs_remove(&mut self.runs, run_id) {
            Some(e) => e,
            None => {
                return false;
            },
        };
        let changed = rec.state.start();
        let _ = runs_insert(&mut self.runs, key, rec);
        proof {
            if changed {
                assert(self.runs() =~= old(self).runs().insert(run_id@, self.runs()[run_id@]));
            } else {
                assert(self.runs() =~= old(self).runs());
            }
        }
        changed
    }

    /// Completes a running run at `now`.
    pub fn complete_run(&mut self, run_id: &str, now: String) -> (changed: bool)
        requires
            old(self).wf(),
        ensures
            statuses_progress(*old(self), *final(self)),
            final(self).wf(),
            changed == (old(self).runs().contains_key(run_id@) && old(self).runs()[run_id@].state.status
                == RuntimeStatus::Running),
            changed ==> {
                let o = old(self).runs()[run_id@];
                let n = final(self).runs()[run_id@];
                &&& final(self).runs().contains_key(run_id@)
                &&& final(self).runs() == old(self).runs().insert(run_id@, n)
                &&& n.state == (RuntimeState {
                    status: RuntimeStatus::Completed,
                    end_time: Some(now),
                    ..o.state
                })
                &&& only_state_changed(o, n)
            },
            !changed ==> final(self).runs() == old(self).runs(),
    {
        let (key, mut rec) = match runs_remove(&mut self.runs, run_id) {
            Some(e) => e,
            None => {
                return false;
            },
        };
        let changed = rec.state.complete(now);
        let _ = runs_insert(&mut self.runs, key, rec);
        proof {
            if changed {
                assert(self.runs() =~= old(self).runs().insert(run_id@, self.runs()[run_id@]));
            } else {
                assert(self.runs() =~= old(self).runs());
            }
        }
        changed
    }

    /// The run loop's next step for a run; an unknown run halts.
    pub fn scheduler_step(&mut self, run_id: &str) -> (r: SchedulerStep)
        requires
            old(self).wf(),
        ensures
            statuses_progress(*old(self), *final(self)),
            final(self).runs() == old(self).runs(),
            !old(self).runs().contains_key(run_id@) ==> r is Halt,
            old(self).runs().contains_key(run_id@) ==> {
                let rec = old(self).runs()[run_id@];
                &&& rec.state.status != RuntimeStatus::Running ==> r is Halt
                &&& rec.state.status == RuntimeStatus::Running ==> match r {
                    SchedulerStep::Dispatch(x) => is_ready(rec.dag, rec.state, x@),
                    SchedulerStep::Wait => (forall|n: Seq<char>| !is_ready(rec.dag, rec.state, n))
                        && rec.state.active_agents@.len() > 0,
                    SchedulerStep::Complete => (forall|n: Seq<char>|
                        !is_ready(rec.dag, rec.state, n)) && rec.state.active_agents@.len() == 0,
                    SchedulerStep::Halt => false,
                }
            },
    {
        let (key, rec) = match runs_remove(&mut self.runs, run_id) {
            Some(e) => e,
            None => {
                return SchedulerStep::Halt;
            },
        };
        let step = next_step(&rec.dag, &rec.state);
        let _ = runs_insert(&mut self.runs, key, rec);
        proof {
            assert(self.runs() =~= old(self).runs());
        }
        step
    }
    /// Splices a delegation of the node `parent` into its run. The request
    /// is dropped, with nothing changed, where the parent's configuration
    /// does not allow delegation. Refused where the run is unknown, or the
    /// parent is not a node of it or has not started. The run's state is
    /// never changed; a failed splice is not rolled back.
    pub fn delegate(&mut self, run_id: &str, parent: &String, request: &DelegationRequest) -> (r:
        Result<Splice, String>)
        requires
            old(self).wf(),
        ensures
            statuses_progress(*old(self), *final(self)),
            final(self).wf(),
            final(self).runs().dom() == old(self).runs().dom(),
            forall|k: Seq<char>| #[trigger] final(self).runs().contains_key(k) ==> final(self).runs()[k].state
                == old(self).runs()[k].state,
            forall|k: Seq<char>| #[trigger] final(self).runs().contains_key(k) ==> final(self).runs()[k].signatures
                == old(self).runs()[k].signatures && final(self).runs()[k].cache_resource == old(self).runs()[k].cache_resource,
            final(self).artifact_store() == old(self).artifact_store(),
            !old(self).runs().contains_key(run_id@) ==> r is Err,
            old(self).runs().contains_key(run_id@) && !old(self).runs()[run_id@].dag.has_node(parent@)
                ==> r is Err && final(self).runs() == old(self).runs(),
            old(self).runs().contains_key(run_id@) && is_pending(old(self).runs()[run_id@].state, parent@)
                ==> r is Err && final(self).runs() == old(self).runs(),
            r is Ok ==> forall|i: int|
                0 <= i < r->Ok_0.ids@.len() ==> final(self).runs()[run_id@].dag.has_node(
                    #[trigger] r->Ok_0.ids@[i]@,
                ),
            r is Ok && old(self).runs().contains_key(run_id@) && delegation_allowed(
                old(self).runs()[run_id@].workflow.agents@,
                parent@,
            ) ==> {
                let o = old(self).runs()[run_id@];
                let n = final(self).runs()[run_id@];
                let sp = r->Ok_0;
                let child = request.strategy == DelegationStrategy::Child;
                &&& batch_views(o.dag, o.state, request.new_nodes@, sp.suffix@, sp.ids@, sp.deps@, sp.replaced@)
                &&& splice_allowed(o.dag, parent@, request.new_nodes@, sp.ids@, sp.deps@, sp.replaced@, child)
                &&& n.dag.node_set() == spliced_nodes(o.dag, sp.ids@)
                &&& n.dag.edge_set() == spliced_edges(
                    o.dag,
                    parent@,
                    sp.ids@,
                    sp.deps@,
                    sp.replaced@,
                    moved_kids(o.dag, parent@, sp.ids@, child),
                    child,
                )
                &&& forall|k: int|
                    #![trigger sp.ids@[k]]
                    0 <= k < sp.ids@.len() && (forall|m: int|
                        k < m < sp.ids@.len() ==> sp.ids@[m]@ != sp.ids@[k]@) ==> holds_config(
                        n.workflow.agents@,
                        sp.ids@[k]@,
                        request.new_nodes@[k],
                        sp.deps@[k]@,
                    )
            },
            old(self).runs().contains_key(run_id@) && old(self).runs()[run_id@].dag.has_node(parent@)
                && !is_pending(old(self).runs()[run_id@].state, parent@) && !delegation_allowed(
                old(self).runs()[run_id@].workflow.agents@,
                parent@,
            ) ==> (r is Ok && r->Ok_0.ids@.len() == 0) && final(self).runs() == old(self).runs(),
            r is Err ==> !old(self).runs().contains_key(run_id@) || !old(self).runs()[run_id@].dag.has_node(
                parent@,
            ) || is_pending(old(self).runs()[run_id@].state, parent@) || delegation_allowed(
                old(self).runs()[run_id@].workflow.agents@,
                parent@,
            ),
    {
        let (key, mut rec) = match runs_remove(&mut self.runs, run_id) {
            Some(e) => e,
            None => {
                return Err(String::from_str("Run not found"));
            },
        };
        let known = rec.dag.contains_node(parent.as_str());
        let started = contains_id(&rec.state.active_agents, parent) || contains_id(
            &rec.state.completed_agents,
            parent,
        ) || contains_id(&rec.state.failed_agents, parent);
        if !known || !started {
            let _ = runs_insert(&mut self.runs, key, rec);
            proof {
                assert(self.runs() =~= old(self).runs());
            }
            return Err(String::from_str("Delegating node is not a started node of the run"));
        }
        let mut allowed = false;
        let mut i: usize = 0;
        while i < rec.workflow.agents.len()
            invariant
                i <= rec.workflow.agents@.len(),
                allowed == exists|j: int|
                    0 <= j < i && (#[trigger] rec.workflow.agents@[j]).id@ == parent@
                        && rec.workflow.agents@[j].allow_delegation,
            decreases rec.workflow.agents@.len() - i,
        {
            if rec.workflow.agents[i].id == *parent && rec.workflow.agents[i].allow_delegation {
                allowed = true;
            }
            i = i + 1;
        }
        if !allowed {
            let _ = runs_insert(&mut self.runs, key, rec);
            proof {
                assert(self.runs() =~= old(self).runs());
            }
            return Ok(Splice { suffix: String::new(), ids: Vec::new(), deps: Vec::new(), replaced: Vec::new() });
        }
        let uuid = new_uuid_string();
        let len = uuid.as_str().unicode_len();
        let end: usize = if len < 8 {
            len
        } else {
            8
        };
        let suffix = uuid.as_str().substring_char(0, end);
        let result = splice_delegation(
            &mut rec.dag,
            &mut rec.workflow.agents,
            &rec.state,
            parent,
            request,
            suffix,
        );
        let ghost rec1 = rec;
        let _ = runs_insert(&mut self.runs, key, rec);
        proof {
            assert(self.runs()[run_id@] == rec1);
            assert(self.runs().dom() =~= old(self).runs().dom());
            assert forall|k: Seq<char>| #[trigger] self.runs().contains_key(k) implies self.runs()[k].wf() by {
                if k != run_id@ {
                    assert(old(self).runs().contains_key(k));
                }
            }
        }
        match result {
            Ok(sp) => Ok(sp),
            Err(_) => Err(String::from_str("Delegation could not be spliced")),
        }
    }
    /// Assembles the payload of one invocation of `agent_id` with the
    /// context its upstream agents left: the prompt gains one block per
    /// upstream agent, their generated files are mounted (which also grants
    /// `execute_python`), and the other fields are as in
    /// `prepare_invocation_payload`. Where the node has dependencies but no
    /// usable context (the drought check), the run is paused for approval
    /// and `Drought` is returned.
    pub fn prepare_with_context(
        &mut self,
        run_id: &str,
        agent_id: &str,
        upstream: &Vec<UpstreamArtifact>,
    ) -> (r: Result<InvocationPayload, PrepareError>)
        requires
            old(self).wf(),
        ensures
            statuses_progress(*old(self), *final(self)),
            final(self).wf(),
            prepared(*old(self), *final(self), run_id@, agent_id@, upstream@, r),
    {
        let (key, mut rec) = match runs_remove(&mut self.runs, run_id) {
            Some(e) => e,
            None => {
                proof {
                    assert(self.runs() =~= old(self).runs());
                }
                return Err(PrepareError::NotFound);
            },
        };
        let wanted: String = agent_id.to_owned();
        let mut i: usize = 0;
        let mut found = false;
        while i < rec.workflow.agents.len() && !found
            invariant
                wanted@ == agent_id@,
                i <= rec.workflow.agents@.len(),
                found ==> i < rec.workflow.agents@.len() && rec.workflow.agents@[i as int].id@
                    == agent_id@,
                forall|j: int| 0 <= j < i ==> rec.workflow.agents@[j].id@ != agent_id@,
            decreases rec.workflow.agents@.len() - i + if found {
                0int
            } else {
                1int
            },
        {
            if rec.workflow.agents[i].id == wanted {
                found = true;
            } else {
                i = i + 1;
            }
        }
        if !found {
            let _ = runs_insert(&mut self.runs, key, rec);
            proof {
                assert(self.runs() =~= old(self).runs());
            }
            return Err(PrepareError::NotFound);
        }
        proof {
            assert(first_agent(rec.workflow.agents@, agent_id@, i as int));
        }
        let paths = mount_paths(run_id, upstream);
        let texts = upstream_texts(upstream);
        proof {
            assert(texts@ =~= upstream@.map_values(|u: UpstreamArtifact| u.text));
            if has_files(upstream@) {
                let j = choose|j: int|
                    0 <= j < upstream@.len() && (#[trigger] upstream@[j]).files@.len() > 0;
                assert(id_set(paths@).contains(output_path(run_id@, upstream@[j].files@[0]@)));
                assert(paths@.len() > 0);
            } else {
                if paths@.len() > 0 {
                    assert(id_set(paths@).contains(paths@[0]@)) by {
                        assert(paths@.map_values(|s: String| s@)[0] == paths@[0]@);
                    }
                }
            }
        }
        let n_deps = rec.workflow.agents[i].depends_on.len();
        if is_context_drought(n_deps, &texts, paths.len()) {
            rec.state.request_approval();
            let ghost rec1 = rec;
            let _ = runs_insert(&mut self.runs, key, rec);
            proof {
                assert(self.runs()[run_id@] == rec1);
                assert(self.runs() =~= old(self).runs().insert(run_id@, rec1));
                assert(self.runs().dom() =~= old(self).runs().dom());
                assert forall|k: Seq<char>| #[trigger] self.runs().contains_key(k) implies self.runs()[k].wf() by {
                    if k != run_id@ {
                        assert(old(self).runs().contains_key(k));
                    }
                }
            }
            return Err(PrepareError::Drought);
        }
        let mounted = paths.len() > 0;
        let view = match rec.dag.topological_sort() {
            Ok(order) => render_linear_view(&order, &rec.state, agent_id),
            Err(_) => String::new(),
        };
        let cfg = &rec.workflow.agents[i];
        let payload = InvocationPayload {
            run_id: run_id.to_owned(),
            agent_id: agent_id.to_owned(),
            user_directive: cfg.user_directive.clone(),
            allow_delegation: cfg.allow_delegation,
            model: model_name(cfg.model),
            prompt: assemble_prompt(cfg.prompt.as_str(), upstream),
            parent_signature: parent_signature(&cfg.depends_on, &rec.signatures),
            cached_content_id: copy_opt(&rec.cache_resource),
            thinking_level: crate::context::thinking_level(cfg.model),
            file_paths: paths,
            tools: provision_tools(agent_id, &cfg.tools, mounted),
            input_data: input_data_of(upstream),
            graph_view: view,
        };
        let _ = runs_insert(&mut self.runs, key, rec);
        proof {
            assert(self.runs() =~= old(self).runs());
        }
        Ok(payload)
    }
    /// Executes a pattern's action on a run: an interrupt fails it, a
    /// request for approval pauses it, and a spawn splices the configured
    /// node beside the triggering agent's dependents.
    pub fn apply_pattern_action(
        &mut self,
        run_id: &str,
        agent_id: Option<String>,
        action: &PatternAction,
        now: String,
    ) -> (changed: bool)
        requires
            old(self).wf(),
        ensures
            statuses_progress(*old(self), *final(self)),
            final(self).wf(),
            final(self).runs().dom() == old(self).runs().dom(),
            action is Interrupt ==> changed == (old(self).runs().contains_key(run_id@) && !old(self).runs()[run_id@].state.status.is_terminal()),
            action is Interrupt && changed ==> final(self).runs()[run_id@].state.status
                == RuntimeStatus::Failed,
            action is RequestApproval ==> changed == (old(self).runs().contains_key(run_id@) && old(self).runs()[run_id@].state.status == RuntimeStatus::Running),
            action is RequestApproval && changed ==> final(self).runs()[run_id@].state.status
                == RuntimeStatus::AwaitingApproval,
            !changed ==> final(self).runs() == old(self).runs() || action is SpawnAgent,
    {
        match action {
            PatternAction::Interrupt { .. } => self.fail_run(run_id, agent_id, now),
            PatternAction::RequestApproval { .. } => self.request_approval(run_id),
            PatternAction::SpawnAgent { config } => match agent_id {
                Some(parent) => {
                    let request = DelegationRequest {
                        reason: String::from_str("Spawned by a pattern"),
                        new_nodes: vec![config.clone()],
                        strategy: DelegationStrategy::Sibling,
                    };
                    self.delegate(run_id, &parent, &request).is_ok()
                },
                None => false,
            },
        }
    }

    /// The pattern engine's reaction to one event: the first registered
    /// pattern that fires on the event's type and payload text acts on the
    /// event's run. Returns whether a pattern fired.
    pub fn handle_event(
        &mut self,
        registry: &PatternRegistry,
        event: &RuntimeEvent,
        payload_text: &str,
        now: String,
    ) -> (fired: bool)
        requires
            old(self).wf(),
        ensures
            statuses_progress(*old(self), *final(self)),
            final(self).wf(),
            final(self).runs().dom() == old(self).runs().dom(),
            fired <==> exists|i: int|
                0 <= i < registry.entries().len() && fires(
                    #[trigger] registry.entries()[i],
                    event_type_name_spec(event.event_type),
                    payload_text@,
                ),
            !fired ==> final(self).runs() == old(self).runs(),
            fired ==> exists|i: int|
                0 <= i < registry.entries().len() && fires(
                    #[trigger] registry.entries()[i],
                    event_type_name_spec(event.event_type),
                    payload_text@,
                ) && (forall|j: int|
                    0 <= j < i ==> !fires(
                        registry.entries()[j],
                        event_type_name_spec(event.event_type),
                        payload_text@,
                    )) && (registry.entries()[i].action is Interrupt ==> (old(self).runs().contains_key(
                    event.run_id@,
                ) && !old(self).runs()[event.run_id@].state.status.is_terminal()
                    ==> final(self).runs()[event.run_id@].state.status == RuntimeStatus::Failed))
                    && (registry.entries()[i].action is RequestApproval ==> (old(self).runs().contains_key(
                    event.run_id@,
                ) && old(self).runs()[event.run_id@].state.status == RuntimeStatus::Running
                    ==> final(self).runs()[event.run_id@].state.status
                    == RuntimeStatus::AwaitingApproval)),
    {
        let name = event_type_name(event.event_type);
        match registry.first_match(name.as_str(), payload_text) {
            Some(p) => {
                let agent = match &event.agent_id {
                    Some(a) => Some(a.clone()),
                    None => None,
                };
                let _ = self.apply_pattern_action(event.run_id.as_str(), agent, &p.action, now);
                true
            },
            None => false,
        }
    }
    /// The compact view of a run's graph for the node `agent_id`: its nodes
    /// in a topological order, each tagged with its status.
    pub fn graph_view(&mut self, run_id: &str, agent_id: &str) -> (r: Option<String>)
        requires
            old(self).wf(),
        ensures
            statuses_progress(*old(self), *final(self)),
            final(self).runs() == old(self).runs(),
            r is Some <==> old(self).runs().contains_key(run_id@),
            match r {
                Some(v) => {
                    let rec = old(self).runs()[run_id@];
                    exists|order: Seq<Seq<char>>|
                        rec.dag.is_topological_order(order) && v@ == #[trigger] linear_view(
                            rec.state,
                            order,
                            agent_id@,
                        )
                },
                None => true,
            },
    {
        let (key, rec) = match runs_remove(&mut self.runs, run_id) {
            Some(e) => e,
            None => {
                return None;
            },
        };
        proof {
            assert(old(self).runs().contains_key(run_id@));
        }
        let view = match rec.dag.topological_sort() {
            Ok(order) => render_linear_view(&order, &rec.state, agent_id),
            Err(_) => String::new(),
        };
        let _ = runs_insert(&mut self.runs, key, rec);
        proof {
            assert(self.runs() =~= old(self).runs());
        }
        Some(view)
    }
    /// Handles a node's result. A failure, the null marker or a protocol
    /// violation trips the circuit breaker: the run pauses for approval.
    /// Otherwise the cache binding is updated, a delegation is spliced in
    /// (before completion, so that descendants see the new topology; a
    /// splice that fails fails the run), the signature is stored, the
    /// artifact is stored under its canonical key for an hour from
    /// `now_secs`, and a successful invocation is recorded.
    pub fn handle_worker_result(
        &mut self,
        run_id: &str,
        agent_id: &String,
        response: WorkerResponse,
        model: ModelVariant,
        invocation_id: String,
        now: String,
        now_secs: u64,
    ) -> (r: Result<ResultOutcome, String>)
        requires
            old(self).wf(),
        ensures
            statuses_progress(*old(self), *final(self)),
            final(self).wf(),
            final(self).runs().dom() == old(self).runs().dom(),
            !old(self).runs().contains_key(run_id@) ==> r is Err && final(self).runs() == old(
                self).runs(),
            old(self).runs().contains_key(run_id@) && (!response.success || has_sub(
                response.output_text@,
                STATUS_NULL_MARKER@,
            ) || violates_protocol(agent_id@, response.output_text@)) ==> (r matches Ok(
                ResultOutcome::Paused { .. },
            ) && final(self).runs().contains_key(run_id@) && final(self).runs()[run_id@].state
                == if old(self).runs()[run_id@].state.status == RuntimeStatus::Running {
                RuntimeState {
                    status: RuntimeStatus::AwaitingApproval,
                    ..old(self).runs()[run_id@].state
                }
            } else {
                old(self).runs()[run_id@].state
            }),
            old(self).runs().contains_key(run_id@) && response.success && !has_sub(
                response.output_text@,
                STATUS_NULL_MARKER@,
            ) && !violates_protocol(agent_id@, response.output_text@) && response.delegation is None
                ==> ((r matches Ok(ResultOutcome::Completed { .. })) <==> ({
                let st = old(self).runs()[run_id@].state;
                &&& st.total_tokens_used + response.tokens_used <= usize::MAX
                &&& !st.completed().contains(agent_id@)
                &&& !st.failed().contains(agent_id@)
                &&& !st.status.is_terminal()
            })),
            r matches Ok(ResultOutcome::Completed { .. }) ==> {
                &&& response.success
                &&& !has_sub(response.output_text@, STATUS_NULL_MARKER@)
                &&& !violates_protocol(agent_id@, response.output_text@)
                &&& final(self).runs().contains_key(run_id@)
                &&& final(self).runs()[run_id@].state.completed().contains(agent_id@)
                &&& !final(self).runs()[run_id@].state.active().contains(agent_id@)
                &&& (response.thought_signature matches Some(sig) ==> final(self).runs()[run_id@].signatures.get_spec(
                    agent_id@,
                ) == Some(sig@))
            },
            r matches Ok(ResultOutcome::Completed { .. }) ==> (response.artifact matches Some(b)
                ==> final(self).artifact_store().entry(artifact_key_spec(run_id@, agent_id@)) == Some(
                (b@, expiry(now_secs, ARTIFACT_TTL_SECS)),
            )),
            r matches Ok(ResultOutcome::Completed { .. }) ==> (response.cached_content_id matches Some(
                c,
            ) ==> final(self).runs()[run_id@].cache_resource == Some(c)),
            completed_splice(r) is Some && response.delegation is Some && delegation_allowed(
                old(self).runs()[run_id@].workflow.agents@,
                agent_id@,
            ) ==> {
                let sp = completed_splice(r)->0;
                let req = response.delegation->0;
                let o = old(self).runs()[run_id@];
                let n = final(self).runs()[run_id@];
                let child = req.strategy == DelegationStrategy::Child;
                &&& batch_views(o.dag, o.state, req.new_nodes@, sp.suffix@, sp.ids@, sp.deps@, sp.replaced@)
                &&& n.dag.node_set() == spliced_nodes(o.dag, sp.ids@)
                &&& n.dag.edge_set() == spliced_edges(
                    o.dag,
                    agent_id@,
                    sp.ids@,
                    sp.deps@,
                    sp.replaced@,
                    moved_kids(o.dag, agent_id@, sp.ids@, child),
                    child,
                )
            },
            old(self).runs().contains_key(run_id@) && response.success && !has_sub(
                response.output_text@,
                STATUS_NULL_MARKER@,
            ) && !violates_protocol(agent_id@, response.output_text@) && ({
                let st = old(self).runs()[run_id@].state;
                &&& st.total_tokens_used + response.tokens_used <= usize::MAX
                &&& !st.completed().contains(agent_id@)
                &&& !st.failed().contains(agent_id@)
                &&& !st.status.is_terminal()
            }) ==> r is Ok,
            paused_with(r) is Some ==> {
                let (reason, event) = paused_with(r)->0;
                &&& reason@ == breaker_reason_spec(
                    response.success,
                    has_sub(response.output_text@, STATUS_NULL_MARKER@),
                    violates_protocol(agent_id@, response.output_text@),
                )
                &&& event.event_type == EventType::AgentFailed
                &&& event.run_id@ == run_id@
                &&& event.agent_id@ == agent_id@
                &&& event.reason == reason
            },
            r matches Ok(ResultOutcome::Failed { .. }) ==> final(self).runs().contains_key(run_id@)
                && final(self).runs()[run_id@].state.status == RuntimeStatus::Failed,
    {
        if !self.has_dag(run_id) {
            return Err(String::from_str("Run not found"));
        }
        let verdict = evaluate_output(agent_id.as_str(), response.output_text.as_str());
        match breaker_reason(response.success, verdict) {
            Some(reason) => {
                let _ = self.request_approval(run_id);
                let event = breaker_intervention(run_id, agent_id.as_str(), reason.clone());
                return Ok(ResultOutcome::Paused { reason, event });
            },
            None => {},
        }
        match &response.cached_content_id {
            Some(c) => {
                let _ = self.set_cache_resource(run_id, c.clone());
            },
            None => {},
        }
        let mut splice: Option<Splice> = None;
        match &response.delegation {
            Some(request) => {
                match self.delegate(run_id, agent_id, request) {
                    Ok(sp) => {
                        splice = Some(sp);
                    },
                    Err(_) => {
                        if self.fail_run(run_id, Some(agent_id.clone()), now) {
                            return Ok(
                                ResultOutcome::Failed {
                                    reason: String::from_str("Delegation could not be spliced"),
                                },
                            );
                        }
                        return Err(String::from_str("Delegation could not be spliced"));
                    },
                }
            },
            None => {},
        }
        match &response.thought_signature {
            Some(sig) => {
                let _ = self.set_thought_signature(run_id, agent_id.as_str(), sig.clone());
            },
            None => {},
        }
        let invocation = AgentInvocation {
            id: invocation_id,
            agent_id: agent_id.clone(),
            model_variant: model,
            thought_signature: match &response.thought_signature {
                Some(sig) => Some(sig.clone()),
                None => None,
            },
            tools_used: Vec::new(),
            tokens_used: response.tokens_used,
            latency_ms: response.latency_ms,
            status: InvocationStatus::Success,
            timestamp: now,
            error_message: None,
        };
        match response.artifact {
            Some(json) => {
                self.artifacts.store_artifact(run_id, agent_id.as_str(), json, now_secs);
            },
            None => {},
        }
        let ghost before_rec = self.runs();
        match self.record_invocation(run_id, invocation) {
            Ok(()) => {
                proof {
                    let o = before_rec[run_id@].state;
                    let n = self.runs()[run_id@].state;
                    assert(n.completed() == o.completed().insert(agent_id@));
                    assert(n.active() == o.active().remove(agent_id@));
                }
                Ok(ResultOutcome::Completed { splice })
            },
            Err(e) => Err(e),
        }
    }
    /// Stores an agent's JSON artifact under its canonical key, for an hour
    /// from `now_secs`; the runs and the other artifacts are unchanged.
    pub fn store_artifact(&mut self, run_id: &str, agent_id: &str, json: Vec<u8>, now_secs: u64)
        requires
            old(self).wf(),
        ensures
            statuses_progress(*old(self), *final(self)),
            final(self).wf(),
            final(self).runs() == old(self).runs(),
            final(self).artifact_store().entry(artifact_key_spec(run_id@, agent_id@)) == Some(
                (json@, expiry(now_secs, ARTIFACT_TTL_SECS)),
            ),
            forall|k: Seq<char>|
                k != artifact_key_spec(run_id@, agent_id@) ==> final(self).artifact_store().entry(k)
                    == old(self).artifact_store().entry(k),
    {
        self.artifacts.store_artifact(run_id, agent_id, json, now_secs);
        proof {
            assert(self.runs() == old(self).runs());
        }
    }

    /// The declared dependencies of `agent_id` in a run, in order.
    pub fn agent_dependencies(&mut self, run_id: &str, agent_id: &str) -> (r: Option<Vec<String>>)
        requires
            old(self).wf(),
        ensures
            statuses_progress(*old(self), *final(self)),
            final(self).wf(),
            final(self).runs() == old(self).runs(),
            final(self).artifact_store() == old(self).artifact_store(),
            r is Some <==> (old(self).runs().contains_key(run_id@) && exists|i: int|
                first_agent(old(self).runs()[run_id@].workflow.agents@, agent_id@, i)),
            match r {
                Some(deps) => exists|i: int|
                    #![auto]
                    first_agent(old(self).runs()[run_id@].workflow.agents@, agent_id@, i) && deps@
                        == old(self).runs()[run_id@].workflow.agents@[i].depends_on@,
                None => true,
            },
    {
        let (key, rec) = match runs_remove(&mut self.runs, run_id) {
            Some(e) => e,
            None => {
                return None;
            },
        };
        let wanted: String = agent_id.to_owned();
        let mut i: usize = 0;
        let mut found = false;
        while i < rec.workflow.agents.len() && !found
            invariant
                wanted@ == agent_id@,
                i <= rec.workflow.agents@.len(),
                found ==> i < rec.workflow.agents@.len() && rec.workflow.agents@[i as int].id@
                    == agent_id@,
                forall|j: int| 0 <= j < i ==> rec.workflow.agents@[j].id@ != agent_id@,
            decreases rec.workflow.agents@.len() - i + if found {
                0int
            } else {
                1int
            },
        {
            if rec.workflow.agents[i].id == wanted {
                found = true;
            } else {
                i = i + 1;
            }
        }
        let r = if found {
            proof {
                assert(first_agent(rec.workflow.agents@, agent_id@, i as int));
            }
            Some(copy_ids(&rec.workflow.agents[i].depends_on))
        } else {
            None
        };
        let _ = runs_insert(&mut self.runs, key, rec);
        proof {
            assert(self.runs() =~= old(self).runs());
        }
        r
    }

    /// Assembles the payload of one invocation from the artifacts its
    /// declared dependencies stored, read at `now_secs` (see `prepared`); a
    /// dependency with no live artifact adds no context.
    pub fn prepare_invocation(&mut self, run_id: &str, agent_id: &str, now_secs: u64) -> (r: Result<
        InvocationPayload,
        PrepareError,
    >)
        requires
            old(self).wf(),
        ensures
            statuses_progress(*old(self), *final(self)),
            final(self).wf(),
            !(old(self).runs().contains_key(run_id@) && exists|i: int|
                first_agent(old(self).runs()[run_id@].workflow.agents@, agent_id@, i)) ==> r
                == Err::<InvocationPayload, PrepareError>(PrepareError::NotFound) && final(
                self).runs() == old(self).runs() && final(self).artifact_store() == old(
                self).artifact_store(),
            (old(self).runs().contains_key(run_id@) && exists|i: int|
                first_agent(old(self).runs()[run_id@].workflow.agents@, agent_id@, i)) ==> exists|
                i: int,
                u: Seq<UpstreamArtifact>,
            |
                first_agent(old(self).runs()[run_id@].workflow.agents@, agent_id@, i)
                    && #[trigger] upstream_matches(
                    u,
                    live_artifacts(
                        old(self).artifact_store(),
                        run_id@,
                        old(self).runs()[run_id@].workflow.agents@[i].depends_on@,
                        now_secs,
                    ),
                ) && prepared(*old(self), *final(self), run_id@, agent_id@, u, r),
    {
        let deps = match self.agent_dependencies(run_id, agent_id) {
            Some(d) => d,
            None => {
                return Err(PrepareError::NotFound);
            },
        };
        let ghost store = self.artifact_store();
        let mut upstream: Vec<UpstreamArtifact> = Vec::new();
        let mut i: usize = 0;
        proof {
            assert(deps@.subrange(0, 0) =~= Seq::<String>::empty());
        }
        while i < deps.len()
            invariant
                store == self.artifact_store(),
                i <= deps@.len(),
                upstream_matches(
                    upstream@,
                    live_artifacts(store, run_id@, deps@.subrange(0, i as int), now_secs),
                ),
            decreases deps@.len() - i,
        {
            let ghost pre = deps@.subrange(0, i as int);
            let ghost next = deps@.subrange(0, i + 1);
            proof {
                assert(next.drop_last() =~= pre);
                assert(next.last() == deps@[i as int]);
            }
            let ghost u0 = upstream@;
            match self.artifacts.fetch_artifact(run_id, deps[i].as_str(), now_secs) {
                Some(bytes) => {
                    upstream.push(upstream_from_json(deps[i].as_str(), bytes.as_slice()));
                    proof {
                        assert forall|j: int| 0 <= j < u0.len() implies upstream@[j] == u0[j] by {}
                    }
                },
                None => {},
            }
            i = i + 1;
        }
        proof {
            assert(deps@.subrange(0, deps@.len() as int) =~= deps@);
        }
        let ghost mid = *self;
        let r = self.prepare_with_context(run_id, agent_id, &upstream);
        proof {
            assert(mid.runs() == old(self).runs());
            assert(mid.artifact_store() == old(self).artifact_store());
            let i = choose|i: int|
                #![auto]
                first_agent(old(self).runs()[run_id@].workflow.agents@, agent_id@, i) && deps@
                    == old(self).runs()[run_id@].workflow.agents@[i].depends_on@;
            assert(prepared(mid, *self, run_id@, agent_id@, upstream@, r));
            assert(prepared(*old(self), *self, run_id@, agent_id@, upstream@, r));
            assert(upstream_matches(
                upstream@,
                live_artifacts(
                    old(self).artifact_store(),
                    run_id@,
                    old(self).runs()[run_id@].workflow.agents@[i].depends_on@,
                    now_secs,
                ),
            ));
        }
        r
    }

    /// Assembles the payload of one invocation at the current time (see
    /// `prepare_invocation`).
    pub fn prepare_invocation_payload(&mut self, run_id: &str, agent_id: &str) -> (r: Result<
        InvocationPayload,
        PrepareError,
    >)
        requires
            old(self).wf(),
        ensures
            statuses_progress(*old(self), *final(self)),
            final(self).wf(),
            !(old(self).runs().contains_key(run_id@) && exists|i: int|
                first_agent(old(self).runs()[run_id@].workflow.agents@, agent_id@, i)) ==> r
                == Err::<InvocationPayload, PrepareError>(PrepareError::NotFound) && final(
                self).runs() == old(self).runs() && final(self).artifact_store() == old(
                self).artifact_store(),
            (old(self).runs().contains_key(run_id@) && exists|i: int|
                first_agent(old(self).runs()[run_id@].workflow.agents@, agent_id@, i)) ==> exists|
                i: int,
                u: Seq<UpstreamArtifact>,
                now: u64,
            |
                first_agent(old(self).runs()[run_id@].workflow.agents@, agent_id@, i)
                    && #[trigger] upstream_matches(
                    u,
                    live_artifacts(
                        old(self).artifact_store(),
                        run_id@,
                        old(self).runs()[run_id@].workflow.agents@[i].depends_on@,
                        now,
                    ),
                ) && prepared(*old(self), *final(self), run_id@, agent_id@, u, r),
    {
        let t = now_unix_secs();
        let now: u64 = if t < 0 {
            0
        } else {
            t as u64
        };
        self.prepare_invocation(run_id, agent_id, now)
    }
}

// ---------------------------------------------------------------------------
// Laws of the runtime.
// ---------------------------------------------------------------------------

/// In every run the runtime holds, no node is both active and completed (nor
/// in any two of the three id sets), the token total is the sum over the
/// log, a terminal run has its end time, and the graph is acyclic.
pub proof fn lemma_runs_keep_invariants(rt: RARORuntime, run_id: Seq<char>, n: Seq<char>)
    requires
        rt.wf(),
        rt.runs().contains_key(run_id),
    ensures
        !(rt.runs()[run_id].state.active().contains(n) && rt.runs()[run_id].state.completed().contains(
            n,
        )),
        rt.runs()[run_id].state.active().disjoint(rt.runs()[run_id].state.failed()),
        rt.runs()[run_id].state.completed().disjoint(rt.runs()[run_id].state.failed()),
        rt.runs()[run_id].state.total_tokens_used == token_sum(rt.runs()[run_id].state.invocations@),
        rt.runs()[run_id].state.status.is_terminal() ==> rt.runs()[run_id].state.end_time is Some,
        !rt.runs()[run_id].dag.reaches_strictly(n, n),
{
    lemma_wf_acyclic(rt.runs()[run_id].dag, n);
}

/// Status progress composes over a sequence of operations: a run's status
/// after any number of them follows its earlier status by allowed
/// transitions, and a terminal status never changes.
pub proof fn lemma_progress_compose(r0: RARORuntime, r1: RARORuntime, r2: RARORuntime)
    requires
        statuses_progress(r0, r1),
        statuses_progress(r1, r2),
        r0.runs().dom().subset_of(r1.runs().dom()),
    ensures
        statuses_progress(r0, r2),
        forall|k: Seq<char>|
            #[trigger] r2.runs().contains_key(k) && r0.runs().contains_key(k)
                && r0.runs()[k].state.status.is_terminal() ==> r2.runs()[k].state.status
                == r0.runs()[k].state.status,
{
    assert forall|k: Seq<char>|
        #[trigger] r2.runs().contains_key(k) && r0.runs().contains_key(k) implies status_reachable(
        r0.runs()[k].state.status,
        r2.runs()[k].state.status,
    ) by {
        assert(r1.runs().contains_key(k));
        lemma_status_closure(
            r0.runs()[k].state.status,
            r1.runs()[k].state.status,
            r2.runs()[k].state.status,
        );
    }
    assert forall|k: Seq<char>|
        #[trigger] r2.runs().contains_key(k) && r0.runs().contains_key(k)
            && r0.runs()[k].state.status.is_terminal() implies r2.runs()[k].state.status
            == r0.runs()[k].state.status by {
        lemma_status_closure(
            r0.runs()[k].state.status,
            r2.runs()[k].state.status,
            r2.runs()[k].state.status,
        );
    }
}

} // verus!
