//! The per-run state machine: the invocation log, the status transitions,
//! crash-time rehydration, and the keys and index of the durable replica.
use vstd::prelude::*;
use vstd::string::*;
use crate::models::{
    id_set, token_sum, AgentInvocation, InvocationStatus, ModelVariant, RuntimeState, RuntimeStatus,
};

verus! {

/// The set that indexes the runs that are not terminal.
pub const ACTIVE_RUNS_KEY: &'static str = "sys:active_runs";

/// How long a terminal run's record is kept, in seconds.
pub const TERMINAL_STATE_TTL_SECS: u64 = 86400;

/// How long an artifact is kept, in seconds.
pub const ARTIFACT_TTL_SECS: u64 = 3600;

/// The agent id under which the kernel records its own invocations.
pub const KERNEL_AGENT_ID: &'static str = "kernel";

/// The error recorded when a run is found running after a restart.
pub const KERNEL_RESTARTED: &'static str = "kernel_restarted";

/// The status changes a run may make. A terminal status has none.
pub open spec fn transition_allowed(from: RuntimeStatus, to: RuntimeStatus) -> bool {
    match from {
        RuntimeStatus::Idle => to == RuntimeStatus::Running || to == RuntimeStatus::Failed,
        RuntimeStatus::Running => to == RuntimeStatus::AwaitingApproval || to
            == RuntimeStatus::Completed || to == RuntimeStatus::Failed,
        RuntimeStatus::AwaitingApproval => to == RuntimeStatus::Running || to
            == RuntimeStatus::Failed,
        RuntimeStatus::Completed => false,
        RuntimeStatus::Failed => false,
    }
}

/// Whether `invocation` can be applied without breaking the disjointness of
/// the id sets: an agent that has finished is not started or finished again.
pub open spec fn admissible(s: RuntimeState, invocation: AgentInvocation) -> bool {
    match invocation.status {
        InvocationStatus::Running | InvocationStatus::Success | InvocationStatus::Failed => {
            !s.completed().contains(invocation.agent_id@) && !s.failed().contains(
                invocation.agent_id@,
            )
        },
        _ => true,
    }
}

/// `new` is `old` with `invocation` appended to the log, its tokens added
/// to the total, and its agent moved between the id sets by its status:
/// running joins `active`; success and failure leave `active` for
/// `completed` or `failed`; the other statuses move nothing.
pub open spec fn invocation_applied(
    old: RuntimeState,
    new: RuntimeState,
    invocation: AgentInvocation,
) -> bool {
    &&& new.invocations@ == old.invocations@.push(invocation)
    &&& new.total_tokens_used == old.total_tokens_used + invocation.tokens_used
    &&& new.run_id == old.run_id
    &&& new.workflow_id == old.workflow_id
    &&& new.status == old.status
    &&& new.start_time == old.start_time
    &&& new.end_time == old.end_time
    &&& match invocation.status {
        InvocationStatus::Running => new.active() == old.active().insert(invocation.agent_id@)
            && new.completed() == old.completed() && new.failed() == old.failed(),
        InvocationStatus::Success => new.active() == old.active().remove(invocation.agent_id@)
            && new.completed() == old.completed().insert(invocation.agent_id@) && new.failed()
            == old.failed(),
        InvocationStatus::Failed => new.active() == old.active().remove(invocation.agent_id@)
            && new.failed() == old.failed().insert(invocation.agent_id@) && new.completed()
            == old.completed(),
        _ => new.active() == old.active() && new.completed() == old.completed() && new.failed()
            == old.failed(),
    }
}

proof fn lemma_token_sum_push(invs: Seq<AgentInvocation>, x: AgentInvocation)
    ensures
        token_sum(invs.push(x)) == token_sum(invs) + x.tokens_used,
{
    assert(invs.push(x).drop_last() =~= invs);
}

proof fn lemma_id_set_push(v: Seq<String>, x: String)
    ensures
        id_set(v.push(x)) == id_set(v).insert(x@),
{
    let m = v.map_values(|s: String| s@);
    let m2 = v.push(x).map_values(|s: String| s@);
    assert(m2 =~= m.push(x@));
    assert forall|a: Seq<char>| m2.contains(a) == (m.contains(a) || a == x@) by {
        if m.contains(a) {
            let i = choose|i: int| 0 <= i < m.len() && m[i] == a;
            assert(m2[i] == a);
        }
        if a == x@ {
            assert(m2[m.len() as int] == a);
        }
        if m2.contains(a) {
            let i = choose|i: int| 0 <= i < m2.len() && m2[i] == a;
            if i < m.len() {
                assert(m[i] == a);
            }
        }
    }
    assert(id_set(v.push(x)) =~= id_set(v).insert(x@));
}

/// Whether `x` is in the list.
pub fn contains_id(v: &Vec<String>, x: &String) -> (r: bool)
    ensures
        r == id_set(v@).contains(x@),
{
    let mut i: usize = 0;
    while i < v.len()
        invariant
            i <= v@.len(),
            forall|j: int| 0 <= j < i ==> v@[j]@ != x@,
        decreases v@.len() - i,
    {
        if v[i] == *x {
            proof {
                assert(v@.map_values(|s: String| s@)[i as int] == x@);
            }
            return true;
        }
        i = i + 1;
    }
    proof {
        let m = v@.map_values(|s: String| s@);
        if m.to_set().contains(x@) {
            let j = choose|j: int| 0 <= j < m.len() && m[j] == x@;
            assert(v@[j]@ == x@);
        }
    }
    false
}

/// The list without `x`, in the same order.
pub fn remove_id(v: &Vec<String>, x: &String) -> (r: Vec<String>)
    ensures
        id_set(r@) == id_set(v@).remove(x@),
{
    let mut r: Vec<String> = Vec::new();
    let mut i: usize = 0;
    while i < v.len()
        invariant
            i <= v@.len(),
            id_set(r@) == id_set(v@.subrange(0, i as int)).remove(x@),
        decreases v@.len() - i,
    {
        let ghost r0 = r@;
        proof {
            assert(v@.subrange(0, i + 1) =~= v@.subrange(0, i as int).push(v@[i as int]));
            lemma_id_set_push(v@.subrange(0, i as int), v@[i as int]);
        }
        if v[i] != *x {
            r.push(v[i].clone());
            proof {
                lemma_id_set_push(r0, v@[i as int]);
                assert(id_set(r@) =~= id_set(v@.subrange(0, i + 1)).remove(x@));
            }
        } else {
            proof {
                assert(id_set(r@) =~= id_set(v@.subrange(0, i + 1)).remove(x@));
            }
        }
        i = i + 1;
    }
    proof {
        assert(v@.subrange(0, v@.len() as int) =~= v@);
    }
    r
}

impl RuntimeState {
    /// A fresh run record: idle, with nothing recorded.
    pub fn new_run(run_id: String, workflow_id: String, start_time: String) -> (r: RuntimeState)
        ensures
            r.inv(),
            r.run_id == run_id,
            r.workflow_id == workflow_id,
            r.start_time == start_time,
            r.status == RuntimeStatus::Idle,
            r.active_agents@.len() == 0,
            r.completed_agents@.len() == 0,
            r.failed_agents@.len() == 0,
            r.invocations@.len() == 0,
            r.total_tokens_used == 0,
            r.end_time is None,
    {
        let r = RuntimeState {
            run_id,
            workflow_id,
            status: RuntimeStatus::Idle,
            active_agents: Vec::new(),
            completed_agents: Vec::new(),
            failed_agents: Vec::new(),
            invocations: Vec::new(),
            total_tokens_used: 0,
            start_time,
            end_time: None,
        };
        proof {
            assert(r.active() =~= Set::<Seq<char>>::empty());
            assert(r.completed() =~= Set::<Seq<char>>::empty());
            assert(r.failed() =~= Set::<Seq<char>>::empty());
        }
        r
    }

    /// Appends an invocation to the log, adds its tokens to the total, and
    /// moves its agent between the id sets by its status: running joins
    /// `active`; success and failure leave `active` for `completed` or
    /// `failed`.
    pub fn apply_invocation(&mut self, invocation: AgentInvocation)
        requires
            old(self).total_tokens_used + invocation.tokens_used <= usize::MAX,
        ensures
            invocation_applied(*old(self), *final(self), invocation),
            old(self).inv() && admissible(*old(self), invocation) ==> final(self).inv(),
    {
        let agent = invocation.agent_id.clone();
        let status = invocation.status;
        let tokens = invocation.tokens_used;
        proof {
            lemma_token_sum_push(self.invocations@, invocation);
        }
        self.invocations.push(invocation);
        self.total_tokens_used = self.total_tokens_used + tokens;
        match status {
            InvocationStatus::Running => {
                if !contains_id(&self.active_agents, &agent) {
                    let ghost a0 = self.active_agents@;
                    self.active_agents.push(agent);
                    proof {
                        lemma_id_set_push(a0, self.active_agents@[a0.len() as int]);
                    }
                } else {
                    assert(self.active() =~= self.active().insert(agent@));
                }
            },
            InvocationStatus::Success => {
                self.active_agents = remove_id(&self.active_agents, &agent);
                let ghost c0 = self.completed_agents@;
                self.completed_agents.push(agent);
                proof {
                    lemma_id_set_push(c0, self.completed_agents@[c0.len() as int]);
                }
            },
            InvocationStatus::Failed => {
                self.active_agents = remove_id(&self.active_agents, &agent);
                let ghost f0 = self.failed_agents@;
                self.failed_agents.push(agent);
                proof {
                    lemma_id_set_push(f0, self.failed_agents@[f0.len() as int]);
                }
            },
            _ => {},
        }
    }

    /// Idle to running; any other status is left as it is.
    pub fn start(&mut self) -> (changed: bool)
        ensures
            changed == (old(self).status == RuntimeStatus::Idle),
            changed ==> final(self).status == RuntimeStatus::Running,
            !changed ==> *final(self) == *old(self),
            changed ==> *final(self) == (RuntimeState { status: RuntimeStatus::Running, ..*old(self) }),
            transition_allowed(old(self).status, final(self).status) || final(self).status == old(self).status,
            old(self).inv() ==> final(self).inv(),
    {
        if self.status == RuntimeStatus::Idle {
            self.status = RuntimeStatus::Running;
            true
        } else {
            false
        }
    }

    /// Running to awaiting approval: the run pauses until an operator
    /// resumes or stops it. Any other status is left as it is.
    pub fn request_approval(&mut self) -> (changed: bool)
        ensures
            changed == (old(self).status == RuntimeStatus::Running),
            changed ==> *final(self) == (RuntimeState {
                status: RuntimeStatus::AwaitingApproval,
                ..*old(self)
            }),
            !changed ==> *final(self) == *old(self),
            transition_allowed(old(self).status, final(self).status) || final(self).status == old(self).status,
            old(self).inv() ==> final(self).inv(),
    {
        if self.status == RuntimeStatus::Running {
            self.status = RuntimeStatus::AwaitingApproval;
            true
        } else {
            false
        }
    }

    /// Awaiting approval back to running; any other status is left as it is.
    pub fn resume(&mut self) -> (changed: bool)
        ensures
            changed == (old(self).status == RuntimeStatus::AwaitingApproval),
            changed ==> *final(self) == (RuntimeState { status: RuntimeStatus::Running, ..*old(self) }),
            !changed ==> *final(self) == *old(self),
            transition_allowed(old(self).status, final(self).status) || final(self).status == old(self).status,
            old(self).inv() ==> final(self).inv(),
    {
        if self.status == RuntimeStatus::AwaitingApproval {
            self.status = RuntimeStatus::Running;
            true
        } else {
            false
        }
    }

    /// Running to completed, stamping the end time; any other status is left
    /// as it is.
    pub fn complete(&mut self, now: String) -> (changed: bool)
        ensures
            changed == (old(self).status == RuntimeStatus::Running),
            changed ==> *final(self) == (RuntimeState {
                status: RuntimeStatus::Completed,
                end_time: Some(now),
                ..*old(self)
            }),
            !changed ==> *final(self) == *old(self),
            transition_allowed(old(self).status, final(self).status) || final(self).status == old(self).status,
            old(self).inv() ==> final(self).inv(),
    {
        if self.status == RuntimeStatus::Running {
            self.status = RuntimeStatus::Completed;
            self.end_time = Some(now);
            true
        } else {
            false
        }
    }

    /// Any status that is not terminal to failed, stamping the end time. The
    /// agent named, if it is active, moves to `failed`. A terminal run is
    /// left as it is.
    pub fn fail(&mut self, agent_id: Option<String>, now: String) -> (changed: bool)
        ensures
            changed == !old(self).status.is_terminal(),
            !changed ==> *final(self) == *old(self),
            changed ==> final(self).status == RuntimeStatus::Failed && final(self).end_time == Some(
                now,
            ),
            final(self).run_id == old(self).run_id,
            final(self).workflow_id == old(self).workflow_id,
            final(self).invocations == old(self).invocations,
            final(self).total_tokens_used == old(self).total_tokens_used,
            final(self).start_time == old(self).start_time,
            final(self).completed() == old(self).completed(),
            changed ==> match agent_id {
                Some(a) => if old(self).active().contains(a@) {
                    final(self).active() == old(self).active().remove(a@) && final(self).failed()
                        == old(self).failed().insert(a@)
                } else {
                    final(self).active() == old(self).active() && final(self).failed() == old(self).failed()
                },
                None => final(self).active() == old(self).active() && final(self).failed() == old(self).failed(),
            },
            transition_allowed(old(self).status, final(self).status) || final(self).status == old(self).status,
            old(self).inv() ==> final(self).inv(),
    {
        if self.status == RuntimeStatus::Completed || self.status == RuntimeStatus::Failed {
            return false;
        }
        match agent_id {
            Some(a) => {
                if contains_id(&self.active_agents, &a) {
                    self.active_agents = remove_id(&self.active_agents, &a);
                    let ghost f0 = self.failed_agents@;
                    self.failed_agents.push(a);
                    proof {
                        lemma_id_set_push(f0, self.failed_agents@[f0.len() as int]);
                    }
                }
            },
            None => {},
        }
        self.status = RuntimeStatus::Failed;
        self.end_time = Some(now);
        true
    }

    /// The record of a run loaded after a restart. A run that was running
    /// lost its in-memory graph: it becomes failed, with the end time
    /// stamped and a kernel invocation carrying `kernel_restarted` appended.
    /// Any other record is returned as it was.
    pub fn rehydrate(&mut self, invocation_id: String, now: String)
        ensures
            old(self).status != RuntimeStatus::Running ==> *final(self) == *old(self),
            old(self).status == RuntimeStatus::Running ==> {
                &&& final(self).status == RuntimeStatus::Failed
                &&& final(self).end_time == Some(now)
                &&& final(self).invocations@.len() == old(self).invocations@.len() + 1
                &&& final(self).invocations@.drop_last() == old(self).invocations@
                &&& final(self).invocations@.last().id == invocation_id
                &&& final(self).invocations@.last().agent_id@ == KERNEL_AGENT_ID@
                &&& final(self).invocations@.last().tokens_used == 0
                &&& final(self).invocations@.last().status == InvocationStatus::Failed
                &&& final(self).invocations@.last().timestamp == now
                &&& (final(self).invocations@.last().error_message matches Some(e)
                    && e@ == KERNEL_RESTARTED@)
                &&& final(self).run_id == old(self).run_id
                &&& final(self).workflow_id == old(self).workflow_id
                &&& final(self).active_agents == old(self).active_agents
                &&& final(self).completed_agents == old(self).completed_agents
                &&& final(self).failed_agents == old(self).failed_agents
                &&& final(self).total_tokens_used == old(self).total_tokens_used
                &&& final(self).start_time == old(self).start_time
            },
            old(self).inv() ==> final(self).inv(),
    {
        if self.status != RuntimeStatus::Running {
            return;
        }
        let record = AgentInvocation {
            id: invocation_id,
            agent_id: String::from_str(KERNEL_AGENT_ID),
            model_variant: ModelVariant::GeminiFlash,
            thought_signature: None,
            tools_used: Vec::new(),
            tokens_used: 0,
            latency_ms: 0,
            status: InvocationStatus::Failed,
            timestamp: now.clone(),
            error_message: Some(String::from_str(KERNEL_RESTARTED)),
        };
        proof {
            lemma_token_sum_push(self.invocations@, record);
        }
        let ghost i0 = self.invocations@;
        self.invocations.push(record);
        proof {
            assert(self.invocations@.drop_last() =~= i0);
        }
        self.status = RuntimeStatus::Failed;
        self.end_time = Some(now);
    }
}

/// The durable key of a run's record: `run:{run_id}:state`.
pub fn state_key(run_id: &str) -> (r: String)
    ensures
        r@ == "run:"@ + run_id@ + ":state"@,
{
    let mut r = String::from_str("run:");
    r.append(run_id);
    r.append(":state");
    r
}

/// The durable key of an agent's artifact: `run:{run_id}:agent:{agent_id}:output`.
pub fn artifact_key(run_id: &str, agent_id: &str) -> (r: String)
    ensures
        r@ == "run:"@ + run_id@ + ":agent:"@ + agent_id@ + ":output"@,
{
    let mut r = String::from_str("run:");
    r.append(run_id);
    r.append(":agent:");
    r.append(agent_id);
    r.append(":output");
    r
}

/// What saving a run's record does to the durable replica besides writing
/// the record.
#[derive(Clone, Copy, Debug, PartialEq, Eq, Structural)]
pub struct SavePlan {
    /// The run id joins the active-runs set (else it leaves it).
    pub keep_in_index: bool,
    /// The record expires after this many seconds, if set.
    pub expire_secs: Option<u64>,
}

/// A terminal run leaves the active-runs set and its record expires after a
/// day; any other run is kept in the set with no expiry.
pub fn save_plan(status: RuntimeStatus) -> (r: SavePlan)
    ensures
        r.keep_in_index == !status.is_terminal(),
        r.expire_secs == if status.is_terminal() {
            Some(TERMINAL_STATE_TTL_SECS)
        } else {
            None::<u64>
        },
{
    if status == RuntimeStatus::Completed || status == RuntimeStatus::Failed {
        SavePlan { keep_in_index: false, expire_secs: Some(TERMINAL_STATE_TTL_SECS) }
    } else {
        SavePlan { keep_in_index: true, expire_secs: None }
    }
}

/// Applies a save of a run with `status` to the active-runs set.
pub fn update_active_index(index: &mut Vec<String>, run_id: &String, status: RuntimeStatus)
    ensures
        status.is_terminal() ==> id_set(final(index)@) == id_set(old(index)@).remove(run_id@),
        !status.is_terminal() ==> id_set(final(index)@) == id_set(old(index)@).insert(run_id@),
{
    let plan = save_plan(status);
    if plan.keep_in_index {
        if !contains_id(index, run_id) {
            let ghost i0 = index@;
            index.push(run_id.clone());
            proof {
                lemma_id_set_push(i0, index@[i0.len() as int]);
            }
        } else {
            assert(id_set(index@) =~= id_set(index@).insert(run_id@));
        }
    } else {
        let r = remove_id(index, run_id);
        *index = r;
    }
}

// ---------------------------------------------------------------------------
// Laws of the state machine.
// ---------------------------------------------------------------------------

/// A terminal status is a sink: no transition leaves it.
pub proof fn lemma_terminal_is_sink(from: RuntimeStatus, to: RuntimeStatus)
    requires
        from.is_terminal(),
    ensures
        !transition_allowed(from, to),
{
}

/// The allowed transitions are exactly: running to awaiting approval,
/// completed or failed; awaiting approval to running or failed; idle to
/// running or failed.
pub proof fn lemma_transitions(from: RuntimeStatus, to: RuntimeStatus)
    ensures
        transition_allowed(from, to) <==> (from == RuntimeStatus::Running && (to
            == RuntimeStatus::AwaitingApproval || to == RuntimeStatus::Completed || to
            == RuntimeStatus::Failed)) || (from == RuntimeStatus::AwaitingApproval && (to
            == RuntimeStatus::Running || to == RuntimeStatus::Failed)) || (from
            == RuntimeStatus::Idle && (to == RuntimeStatus::Running || to
            == RuntimeStatus::Failed)),
{
}

/// A run record that keeps its invariants has a token total equal to the sum
/// over its log, and once terminal has its end time set.
pub proof fn lemma_terminal_state(s: RuntimeState)
    requires
        s.inv(),
        s.status.is_terminal(),
    ensures
        s.end_time is Some,
        s.total_tokens_used == token_sum(s.invocations@),
        s.active().disjoint(s.completed()),
        s.active().disjoint(s.failed()),
        s.completed().disjoint(s.failed()),
{
}

/// `b` can follow `a` by zero or more allowed transitions.
pub open spec fn status_reachable(a: RuntimeStatus, b: RuntimeStatus) -> bool {
    a == b || match a {
        RuntimeStatus::Idle => true,
        RuntimeStatus::Running => b != RuntimeStatus::Idle,
        RuntimeStatus::AwaitingApproval => b != RuntimeStatus::Idle,
        RuntimeStatus::Completed => false,
        RuntimeStatus::Failed => false,
    }
}

/// `status_reachable` is the reflexive and transitive closure of the allowed
/// transitions, and a terminal status reaches only itself.
pub proof fn lemma_status_closure(a: RuntimeStatus, b: RuntimeStatus, c: RuntimeStatus)
    ensures
        status_reachable(a, a),
        transition_allowed(a, b) ==> status_reachable(a, b),
        status_reachable(a, b) && status_reachable(b, c) ==> status_reachable(a, c),
        a.is_terminal() && status_reachable(a, b) ==> b == a,
        status_reachable(a, b) && a != b ==> exists|m: RuntimeStatus|
            transition_allowed(a, m) && status_reachable(m, b),
{
    if status_reachable(a, b) && a != b {
        match a {
            RuntimeStatus::Idle => {
                assert(transition_allowed(a, RuntimeStatus::Running) && status_reachable(
                    RuntimeStatus::Running,
                    b,
                ) || b == RuntimeStatus::Running);
                if b == RuntimeStatus::Running {
                    assert(transition_allowed(a, b) && status_reachable(b, b));
                } else {
                    assert(transition_allowed(a, RuntimeStatus::Running) && status_reachable(
                        RuntimeStatus::Running,
                        b,
                    ));
                }
            },
            RuntimeStatus::Running => {
                assert(transition_allowed(a, b) && status_reachable(b, b));
            },
            RuntimeStatus::AwaitingApproval => {
                if b == RuntimeStatus::Completed {
                    assert(transition_allowed(a, RuntimeStatus::Running) && status_reachable(
                        RuntimeStatus::Running,
                        b,
                    ));
                } else {
                    assert(transition_allowed(a, b) && status_reachable(b, b));
                }
            },
            _ => {},
        }
    }
}

/// Recording an invocation keeps the token total equal to the sum over the
/// log, whatever the invocation's status.
pub proof fn lemma_tokens_after_invocation(
    old: RuntimeState,
    new: RuntimeState,
    invocation: AgentInvocation,
)
    requires
        old.total_tokens_used == token_sum(old.invocations@),
        invocation_applied(old, new, invocation),
    ensures
        new.total_tokens_used == token_sum(new.invocations@),
{
    lemma_token_sum_push(old.invocations@, invocation);
}

} // verus!
