//! The data model: node and workflow configuration, invocation records, the
//! per-run state record and the per-run signature store.
use vstd::prelude::*;

verus! {

/// The model tier a node runs on.
#[derive(Clone, Copy, Debug, PartialEq, Eq, Hash, Structural)]
pub enum ModelVariant {
    GeminiFlash,
    GeminiPro,
    GeminiDeepThink,
}

/// The role a node plays in a workflow.
#[derive(Clone, Copy, Debug, PartialEq, Eq, Hash, Structural)]
pub enum AgentRole {
    Orchestrator,
    Worker,
    Observer,
}

/// One node of a workflow.
#[derive(Clone, Debug)]
pub struct AgentNodeConfig {
    pub id: String,
    pub role: AgentRole,
    pub model: ModelVariant,
    pub tools: Vec<String>,
    pub input_schema: serde_json::Value,
    pub output_schema: serde_json::Value,
    pub cache_policy: String,
    pub depends_on: Vec<String>,
    pub prompt: String,
    pub allow_delegation: bool,
    pub user_directive: String,
}

/// A submitted workflow: its nodes and its limits.
#[derive(Clone, Debug)]
pub struct WorkflowConfig {
    pub id: String,
    pub name: String,
    pub agents: Vec<AgentNodeConfig>,
    pub max_token_budget: usize,
    pub timeout_ms: u64,
}

/// The outcome of one attempt of a node.
#[derive(Clone, Copy, Debug, PartialEq, Eq, Structural)]
pub enum InvocationStatus {
    Pending,
    Running,
    Success,
    Failed,
    Paused,
}

/// One entry of a run's invocation log.
#[derive(Clone, Debug)]
pub struct AgentInvocation {
    pub id: String,
    pub agent_id: String,
    pub model_variant: ModelVariant,
    pub thought_signature: Option<String>,
    pub tools_used: Vec<String>,
    pub tokens_used: usize,
    pub latency_ms: u64,
    pub status: InvocationStatus,
    pub timestamp: String,
    pub error_message: Option<String>,
}

/// The status of a run.
#[derive(Clone, Copy, Debug, PartialEq, Eq, Structural)]
pub enum RuntimeStatus {
    Idle,
    Running,
    AwaitingApproval,
    Completed,
    Failed,
}

/// The record of one run.
#[derive(Clone, Debug)]
pub struct RuntimeState {
    pub run_id: String,
    pub workflow_id: String,
    pub status: RuntimeStatus,
    pub active_agents: Vec<String>,
    pub completed_agents: Vec<String>,
    pub failed_agents: Vec<String>,
    pub invocations: Vec<AgentInvocation>,
    pub total_tokens_used: usize,
    pub start_time: String,
    pub end_time: Option<String>,
}

/// The thought signatures of one run, by agent id. An agent may hold one
/// signature; setting it again replaces it.
#[derive(Clone, Debug)]
pub struct ThoughtSignatureStore {
    pub signatures: Vec<(String, String)>,
}

/// The ids of a list, as a set.
pub open spec fn id_set(v: Seq<String>) -> Set<Seq<char>> {
    v.map_values(|s: String| s@).to_set()
}

/// The tokens of an invocation log, summed.
pub open spec fn token_sum(invs: Seq<AgentInvocation>) -> int
    decreases invs.len(),
{
    if invs.len() == 0 {
        0
    } else {
        token_sum(invs.drop_last()) + invs.last().tokens_used
    }
}

/// The signature stored for `k` in a list of pairs: the first pair with that
/// key decides.
pub open spec fn lookup(s: Seq<(String, String)>, k: Seq<char>) -> Option<Seq<char>>
    decreases s.len(),
{
    if s.len() == 0 {
        None
    } else if s[0].0@ == k {
        Some(s[0].1@)
    } else {
        lookup(s.drop_first(), k)
    }
}

/// `a` records the same attempt as `b`, field for field.
pub open spec fn same_invocation(a: AgentInvocation, b: AgentInvocation) -> bool {
    &&& a.id == b.id
    &&& a.agent_id == b.agent_id
    &&& a.model_variant == b.model_variant
    &&& a.thought_signature == b.thought_signature
    &&& a.tools_used@ == b.tools_used@
    &&& a.tokens_used == b.tokens_used
    &&& a.latency_ms == b.latency_ms
    &&& a.status == b.status
    &&& a.timestamp == b.timestamp
    &&& a.error_message == b.error_message
}

/// A copy of a list of ids.
pub fn copy_ids(v: &Vec<String>) -> (r: Vec<String>)
    ensures
        r@ == v@,
{
    let mut r: Vec<String> = Vec::new();
    let mut i: usize = 0;
    while i < v.len()
        invariant
            i <= v@.len(),
            r@ == v@.subrange(0, i as int),
        decreases v@.len() - i,
    {
        r.push(v[i].clone());
        proof {
            assert(r@ =~= v@.subrange(0, i + 1));
        }
        i = i + 1;
    }
    assert(r@ =~= v@);
    r
}

/// A copy of an optional string.
pub fn copy_opt(v: &Option<String>) -> (r: Option<String>)
    ensures
        r == *v,
{
    match v {
        Some(s) => Some(s.clone()),
        None => None,
    }
}

impl AgentInvocation {
    /// A copy of the record.
    pub fn duplicate(&self) -> (r: AgentInvocation)
        ensures
            same_invocation(r, *self),
    {
        AgentInvocation {
            id: self.id.clone(),
            agent_id: self.agent_id.clone(),
            model_variant: self.model_variant,
            thought_signature: copy_opt(&self.thought_signature),
            tools_used: copy_ids(&self.tools_used),
            tokens_used: self.tokens_used,
            latency_ms: self.latency_ms,
            status: self.status,
            timestamp: self.timestamp.clone(),
            error_message: copy_opt(&self.error_message),
        }
    }
}

/// A copy of an invocation log.
pub fn copy_invocations(v: &Vec<AgentInvocation>) -> (r: Vec<AgentInvocation>)
    ensures
        r@.len() == v@.len(),
        forall|i: int| 0 <= i < v@.len() ==> same_invocation(#[trigger] r@[i], v@[i]),
{
    let mut r: Vec<AgentInvocation> = Vec::new();
    let mut i: usize = 0;
    while i < v.len()
        invariant
            i <= v@.len(),
            r@.len() == i,
            forall|j: int| 0 <= j < i ==> same_invocation(#[trigger] r@[j], v@[j]),
        decreases v@.len() - i,
    {
        r.push(v[i].duplicate());
        i = i + 1;
    }
    r
}

impl RuntimeStatus {
    pub open spec fn is_terminal(self) -> bool {
        self == RuntimeStatus::Completed || self == RuntimeStatus::Failed
    }
}

impl RuntimeState {
    pub open spec fn active(&self) -> Set<Seq<char>> {
        id_set(self.active_agents@)
    }

    pub open spec fn completed(&self) -> Set<Seq<char>> {
        id_set(self.completed_agents@)
    }

    pub open spec fn failed(&self) -> Set<Seq<char>> {
        id_set(self.failed_agents@)
    }

    /// The invariants of a run record: the three id sets are pairwise
    /// disjoint, the token total is the sum over the log, and an end time is
    /// set exactly when the status is terminal.
    pub open spec fn inv(&self) -> bool {
        &&& self.active().disjoint(self.completed())
        &&& self.active().disjoint(self.failed())
        &&& self.completed().disjoint(self.failed())
        &&& self.total_tokens_used == token_sum(self.invocations@)
        &&& (self.end_time is Some <==> self.status.is_terminal())
    }
}

impl ThoughtSignatureStore {
    pub open spec fn get_spec(&self, agent_id: Seq<char>) -> Option<Seq<char>> {
        lookup(self.signatures@, agent_id)
    }

    /// An empty store.
    pub fn new() -> (r: ThoughtSignatureStore)
        ensures
            forall|k: Seq<char>| r.get_spec(k) is None,
    {
        ThoughtSignatureStore { signatures: Vec::new() }
    }

    /// The signature stored for `agent_id`.
    pub fn get(&self, agent_id: &str) -> (r: Option<String>)
        ensures
            match r {
                Some(s) => self.get_spec(agent_id@) == Some(s@),
                None => self.get_spec(agent_id@) is None,
            },
    {
        let key: String = agent_id.to_owned();
        let mut i: usize = 0;
        assert(self.signatures@.subrange(0, self.signatures@.len() as int) =~= self.signatures@);
        while i < self.signatures.len()
            invariant
                key@ == agent_id@,
                i <= self.signatures@.len(),
                lookup(self.signatures@, agent_id@) == lookup(
                    self.signatures@.subrange(i as int, self.signatures@.len() as int),
                    agent_id@,
                ),
            decreases self.signatures@.len() - i,
        {
            let ghost rest = self.signatures@.subrange(i as int, self.signatures@.len() as int);
            assert(rest[0] == self.signatures@[i as int]);
            if self.signatures[i].0 == key {
                return Some(self.signatures[i].1.clone());
            }
            assert(rest.drop_first() =~= self.signatures@.subrange(
                i + 1,
                self.signatures@.len() as int,
            ));
            i = i + 1;
        }
        None
    }

    /// Stores `signature` for `agent_id`, replacing what was there; the
    /// other agents keep theirs.
    pub fn set(&mut self, agent_id: String, signature: String)
        ensures
            final(self).get_spec(agent_id@) == Some(signature@),
            forall|k: Seq<char>| k != agent_id@ ==> final(self).get_spec(k) == old(self).get_spec(k),
    {
        let mut i: usize = 0;
        while i < self.signatures.len()
            invariant
                i <= self.signatures@.len(),
                self.signatures@ == old(self).signatures@,
                forall|j: int| 0 <= j < i ==> self.signatures@[j].0@ != agent_id@,
            decreases self.signatures@.len() - i,
        {
            if self.signatures[i].0 == agent_id {
                let ghost s0 = self.signatures@;
                self.signatures.set(i, (agent_id, signature));
                proof {
                    assert forall|k: Seq<char>| #[trigger] lookup(self.signatures@, k) == if k == agent_id@ {
                        Some(signature@)
                    } else {
                        lookup(s0, k)
                    } by {
                        lemma_lookup_update(s0, i as int, self.signatures@[i as int], k);
                    }
                }
                return;
            }
            i = i + 1;
        }
        let ghost s0 = self.signatures@;
        self.signatures.push((agent_id, signature));
        proof {
            assert(self.signatures@ == s0.push(self.signatures@[s0.len() as int]));
            assert forall|k: Seq<char>| #[trigger] lookup(self.signatures@, k) == if k == agent_id@ {
                Some(signature@)
            } else {
                lookup(s0, k)
            } by {
                lemma_lookup_push(s0, self.signatures@[s0.len() as int], k);
            }
        }
    }
}

proof fn lemma_lookup_update(s: Seq<(String, String)>, i: int, e: (String, String), k: Seq<char>)
    requires
        0 <= i < s.len(),
        s[i].0@ == e.0@,
        forall|j: int| 0 <= j < i ==> s[j].0@ != e.0@,
    ensures
        lookup(s.update(i, e), k) == if k == e.0@ {
            Some(e.1@)
        } else {
            lookup(s, k)
        },
    decreases i,
{
    let su = s.update(i, e);
    if i == 0 {
        assert(su.drop_first() =~= s.drop_first());
    } else {
        assert(su[0] == s[0]);
        assert(su.drop_first() =~= s.drop_first().update(i - 1, e));
        lemma_lookup_update(s.drop_first(), i - 1, e, k);
    }
}

proof fn lemma_lookup_push(s: Seq<(String, String)>, e: (String, String), k: Seq<char>)
    requires
        forall|j: int| 0 <= j < s.len() ==> s[j].0@ != e.0@,
    ensures
        lookup(s.push(e), k) == if k == e.0@ {
            Some(e.1@)
        } else {
            lookup(s, k)
        },
    decreases s.len(),
{
    let sp = s.push(e);
    if s.len() > 0 {
        assert(sp[0] == s[0]);
        assert(sp.drop_first() =~= s.drop_first().push(e));
        lemma_lookup_push(s.drop_first(), e, k);
    } else {
        assert(sp[0] == e);
        assert(sp.drop_first() =~= s);
    }
}

} // verus!
