//! The scheduler's decisions: validating a workflow into a graph, selecting
//! the next ready node, and the step the run loop takes next.
use vstd::prelude::*;
use crate::dag::{lemma_edge_no_return, lemma_reaches_monotone, DAGError, DAG};
use crate::models::{
    id_set, AgentInvocation, AgentNodeConfig, InvocationStatus, RuntimeState, RuntimeStatus,
};
use crate::state::{admissible, contains_id};

verus! {

/// The ids of a workflow's nodes.
pub open spec fn agent_ids(agents: Seq<AgentNodeConfig>) -> Set<Seq<char>> {
    Set::new(|a: Seq<char>| exists|i: int| 0 <= i < agents.len() && #[trigger] agents[i].id@ == a)
}

/// The edges a workflow declares: from each dependency to its dependent,
/// over the first `i` nodes and the first `k` dependencies of node `i`.
pub open spec fn edges_upto(agents: Seq<AgentNodeConfig>, i: int, k: int) -> Set<
    (Seq<char>, Seq<char>),
> {
    Set::new(
        |e: (Seq<char>, Seq<char>)|
            exists|j: int, kk: int|
                0 <= j < agents.len() && 0 <= kk < agents[j].depends_on@.len() && (j < i || (j == i
                    && kk < k)) && e == (#[trigger] agents[j].depends_on@[kk]@, agents[j].id@),
    )
}

/// The edges a workflow declares.
pub open spec fn config_edges(agents: Seq<AgentNodeConfig>) -> Set<(Seq<char>, Seq<char>)> {
    edges_upto(agents, agents.len() as int, 0)
}

/// Every dependency names a node of the workflow.
pub open spec fn deps_known(agents: Seq<AgentNodeConfig>) -> bool {
    forall|i: int, k: int|
        0 <= i < agents.len() && 0 <= k < agents[i].depends_on@.len() ==> agent_ids(agents).contains(
            #[trigger] agents[i].depends_on@[k]@,
        )
}

/// The declared nodes and edges form an acyclic graph.
pub open spec fn config_acyclic(agents: Seq<AgentNodeConfig>) -> bool {
    exists|g: DAG|
        g.wf() && g.node_set() == agent_ids(agents) && #[trigger] g.edge_set() == config_edges(
            agents,
        )
}

/// Builds the graph of a workflow: one node per agent, one edge from each
/// dependency to its dependent. It succeeds exactly when every dependency
/// names a node and the declared edges hold no cycle.
pub fn build_dag(agents: &Vec<AgentNodeConfig>) -> (r: Result<DAG, DAGError>)
    ensures
        r is Ok <==> (deps_known(agents@) && config_acyclic(agents@)),
        match r {
            Ok(g) => g.wf() && g.node_set() == agent_ids(agents@) && g.edge_set() == config_edges(
                agents@,
            ),
            Err(_) => true,
        },
{
    let ghost a = agents@;
    let mut g = DAG::new();
    let mut i: usize = 0;
    proof {
        assert(g.node_set() =~= Set::new(
            |x: Seq<char>| exists|j: int| 0 <= j < i && #[trigger] a[j].id@ == x,
        ));
    }
    while i < agents.len()
        invariant
            a == agents@,
            i <= a.len(),
            g.wf(),
            g.node_set() == Set::new(
                |x: Seq<char>| exists|j: int| 0 <= j < i && #[trigger] a[j].id@ == x,
            ),
            g.edge_set() == Set::<(Seq<char>, Seq<char>)>::empty(),
        decreases a.len() - i,
    {
        let _ = g.add_node(agents[i].id.clone());
        proof {
            assert(g.node_set() =~= Set::new(
                |x: Seq<char>| exists|j: int| 0 <= j < i + 1 && #[trigger] a[j].id@ == x,
            )) by {
                assert forall|x: Seq<char>|
                    (exists|j: int| 0 <= j < i + 1 && #[trigger] a[j].id@ == x) implies g.node_set().contains(x) by {
                    let j = choose|j: int| 0 <= j < i + 1 && #[trigger] a[j].id@ == x;
                    if j < i {
                        assert(exists|j2: int| 0 <= j2 < i && #[trigger] a[j2].id@ == x);
                    }
                }
            }
        }
        i = i + 1;
    }
    proof {
        assert(g.node_set() =~= agent_ids(a));
        assert(g.edge_set() =~= edges_upto(a, 0, 0));
    }
    let mut i: usize = 0;
    while i < agents.len()
        invariant
            a == agents@,
            i <= a.len(),
            g.wf(),
            g.node_set() == agent_ids(a),
            g.edge_set() == edges_upto(a, i as int, 0),
        decreases a.len() - i,
    {
        let mut k: usize = 0;
        while k < agents[i].depends_on.len()
            invariant
                a == agents@,
                i < a.len(),
                k <= a[i as int].depends_on@.len(),
                g.wf(),
                g.node_set() == agent_ids(a),
                g.edge_set() == edges_upto(a, i as int, k as int),
            decreases a[i as int].depends_on@.len() - k,
        {
            let from = agents[i].depends_on[k].clone();
            let to = agents[i].id.clone();
            let ghost g0 = g;
            match g.add_edge(from, to) {
                Ok(()) => {
                    proof {
                        let e = (a[i as int].depends_on@[k as int]@, a[i as int].id@);
                        assert(edges_upto(a, i as int, k + 1) =~= edges_upto(
                            a,
                            i as int,
                            k as int,
                        ).insert(e)) by {
                            assert forall|x: (Seq<char>, Seq<char>)|
                                edges_upto(a, i as int, k + 1).contains(x) implies x == e
                                || edges_upto(a, i as int, k as int).contains(x) by {
                                let (j, kk) = choose|j: int, kk: int|
                                    0 <= j < a.len() && 0 <= kk < a[j].depends_on@.len() && (j < i
                                        || (j == i && kk < k + 1)) && x == (
                                    #[trigger] a[j].depends_on@[kk]@,
                                    a[j].id@,
                                );
                                if !(j == i && kk == k) {
                                    assert(edges_upto(a, i as int, k as int).contains(x));
                                }
                            }
                            assert(edges_upto(a, i as int, k + 1).contains(e));
                        }
                    }
                },
                Err(err) => {
                    proof {
                        g0.lemma_views();
                        let d = a[i as int].depends_on@[k as int]@;
                        let t = a[i as int].id@;
                        assert(agent_ids(a).contains(t));
                        if !g0.has_node(d) {
                            assert(!agent_ids(a).contains(d));
                        } else {
                            assert(g0.reaches(t, d));
                            if config_acyclic(a) {
                                let w = choose|w: DAG|
                                    w.wf() && w.node_set() == agent_ids(a) && #[trigger] w.edge_set()
                                        == config_edges(a);
                                assert(g0.edge_set().subset_of(w.edge_set())) by {
                                    assert forall|x: (Seq<char>, Seq<char>)|
                                        g0.edge_set().contains(x) implies w.edge_set().contains(
                                        x,
                                    ) by {
                                        let (j, kk) = choose|j: int, kk: int|
                                            0 <= j < a.len() && 0 <= kk < a[j].depends_on@.len()
                                                && (j < i || (j == i && kk < k)) && x == (
                                            #[trigger] a[j].depends_on@[kk]@,
                                            a[j].id@,
                                        );
                                        assert(config_edges(a).contains(x));
                                    }
                                }
                                lemma_reaches_monotone(g0, w, t, d);
                                assert(config_edges(a).contains((d, t)));
                                w.lemma_views();
                                assert(w.edge_set().contains((d, t)));
                                assert(w.has_edge(d, t));
                                lemma_edge_no_return(w, d, t);
                            }
                        }
                    }
                    return Err(err);
                },
            }
            k = k + 1;
        }
        proof {
            assert(edges_upto(a, i + 1, 0) =~= edges_upto(
                a,
                i as int,
                a[i as int].depends_on@.len() as int,
            ));
        }
        i = i + 1;
    }
    proof {
        g.lemma_views();
        assert(config_acyclic(a));
        assert forall|i: int, k: int|
            0 <= i < a.len() && 0 <= k < a[i].depends_on@.len() implies agent_ids(a).contains(
            #[trigger] a[i].depends_on@[k]@,
        ) by {
            let e = (a[i].depends_on@[k]@, a[i].id@);
            assert(config_edges(a).contains(e));
            assert(g.edge_set().contains(e));
        }
    }
    Ok(g)
}

/// A node may run: it is in the graph, has not started or finished, and
/// every one of its current dependencies has completed.
pub open spec fn is_ready(dag: DAG, s: RuntimeState, n: Seq<char>) -> bool {
    &&& dag.has_node(n)
    &&& !s.completed().contains(n)
    &&& !s.failed().contains(n)
    &&& !s.active().contains(n)
    &&& dag.parents(n).subset_of(s.completed())
}

/// `x` comes first among the ready nodes of some topological order.
pub open spec fn first_ready_in_order(dag: DAG, s: RuntimeState, x: Seq<char>) -> bool {
    exists|order: Seq<Seq<char>>, i: int|
        #![trigger dag.is_topological_order(order), order[i]]
        dag.is_topological_order(order) && 0 <= i < order.len() && order[i] == x && forall|j: int|
            0 <= j < i ==> !is_ready(dag, s, #[trigger] order[j])
}

/// Whether every id of `ids` is in `done`.
pub fn all_in(ids: &Vec<String>, done: &Vec<String>) -> (r: bool)
    ensures
        r == id_set(ids@).subset_of(id_set(done@)),
{
    let mut i: usize = 0;
    while i < ids.len()
        invariant
            i <= ids@.len(),
            forall|j: int| 0 <= j < i ==> id_set(done@).contains(#[trigger] ids@[j]@),
        decreases ids@.len() - i,
    {
        if !contains_id(done, &ids[i]) {
            proof {
                assert(ids@.map_values(|s: String| s@)[i as int] == ids@[i as int]@);
                assert(id_set(ids@).contains(ids@[i as int]@));
            }
            return false;
        }
        i = i + 1;
    }
    proof {
        let m = ids@.map_values(|s: String| s@);
        assert forall|x: Seq<char>| id_set(ids@).contains(x) implies id_set(done@).contains(x) by {
            let j = choose|j: int| 0 <= j < m.len() && m[j] == x;
            assert(ids@[j]@ == x);
        }
    }
    true
}

/// The first node, in a topological order, that is ready to run.
pub fn select_next_node(dag: &DAG, state: &RuntimeState) -> (r: Option<String>)
    requires
        dag.wf(),
    ensures
        match r {
            Some(x) => is_ready(*dag, *state, x@) && first_ready_in_order(*dag, *state, x@),
            None => forall|n: Seq<char>| !is_ready(*dag, *state, n),
        },
{
    let order = match dag.topological_sort() {
        Ok(order) => order,
        Err(_) => {
            return None;
        },
    };
    let ghost o = order@.map_values(|s: String| s@);
    let mut i: usize = 0;
    while i < order.len()
        invariant
            dag.wf(),
            o == order@.map_values(|s: String| s@),
            dag.is_topological_order(o),
            i <= order@.len(),
            forall|j: int| 0 <= j < i ==> !is_ready(*dag, *state, #[trigger] o[j]),
        decreases order@.len() - i,
    {
        let id = &order[i];
        assert(o[i as int] == id@);
        proof {
            dag.lemma_views();
        }
        if !contains_id(&state.completed_agents, id) && !contains_id(&state.failed_agents, id)
            && !contains_id(&state.active_agents, id) {
            let deps = dag.get_dependencies(id.as_str());
            if all_in(&deps, &state.completed_agents) {
                proof {
                    assert(o.to_set().contains(id@));
                    assert(dag.is_topological_order(o) && 0 <= i < o.len() && o[i as int] == id@);
                }
                return Some(id.clone());
            }
        }
        i = i + 1;
    }
    proof {
        dag.lemma_views();
        assert forall|n: Seq<char>| !is_ready(*dag, *state, n) by {
            if dag.has_node(n) {
                assert(dag.node_set().contains(n));
                assert(o.to_set().contains(n));
                let j = choose|j: int| 0 <= j < o.len() && o[j] == n;
            }
        }
    }
    None
}

/// What the run loop does next.
#[derive(Debug)]
pub enum SchedulerStep {
    /// The run is paused, finished or gone: leave the loop.
    Halt,
    /// Nothing is ready but a node is still active: sleep and look again.
    Wait,
    /// Nothing is ready and nothing is active: the run is complete.
    Complete,
    /// Invoke this node.
    Dispatch(String),
}

/// One decision of the run loop: only a running run dispatches, and only a
/// ready node.
pub fn next_step(dag: &DAG, state: &RuntimeState) -> (r: SchedulerStep)
    requires
        dag.wf(),
    ensures
        state.status != RuntimeStatus::Running ==> r is Halt,
        state.status == RuntimeStatus::Running ==> match r {
            SchedulerStep::Dispatch(x) => is_ready(*dag, *state, x@) && first_ready_in_order(
                *dag,
                *state,
                x@,
            ),
            SchedulerStep::Wait => (forall|n: Seq<char>| !is_ready(*dag, *state, n))
                && state.active_agents@.len() > 0,
            SchedulerStep::Complete => (forall|n: Seq<char>| !is_ready(*dag, *state, n))
                && state.active_agents@.len() == 0,
            SchedulerStep::Halt => false,
        },
{
    if state.status != RuntimeStatus::Running {
        return SchedulerStep::Halt;
    }
    match select_next_node(dag, state) {
        Some(x) => SchedulerStep::Dispatch(x),
        None => {
            if state.active_agents.len() > 0 {
                SchedulerStep::Wait
            } else {
                SchedulerStep::Complete
            }
        },
    }
}

// ---------------------------------------------------------------------------
// Laws of the scheduler.
// ---------------------------------------------------------------------------

/// A node the scheduler dispatches has all of its dependencies completed,
/// and recording it as running keeps the id sets disjoint: it is in neither
/// `completed` nor `failed`, so the invocation is admissible.
pub proof fn lemma_dispatch_keeps_disjoint(dag: DAG, s: RuntimeState, invocation: AgentInvocation)
    requires
        s.inv(),
        is_ready(dag, s, invocation.agent_id@),
        invocation.status == InvocationStatus::Running,
    ensures
        dag.parents(invocation.agent_id@).subset_of(s.completed()),
        admissible(s, invocation),
{
}

} // verus!
