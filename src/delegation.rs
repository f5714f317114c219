//! Delegation splicing: the graph surgery by which a running node adds nodes
//! to its run's topology.
use vstd::prelude::*;
use vstd::string::*;
use crate::context::push_unique;
use crate::dag::{lemma_edge_no_return, lemma_reaches_monotone, DAGError, DAG};
use crate::models::{copy_ids, id_set, AgentNodeConfig, RuntimeState};
use crate::state::{contains_id, remove_id};

verus! {

/// Where the new nodes go.
#[derive(Clone, Copy, Debug, PartialEq, Eq, Structural)]
pub enum DelegationStrategy {
    /// Between the delegating node and its current dependents.
    Child,
    /// Beside the current dependents, blocking none of them.
    Sibling,
}

/// What a splice did: the suffix of its renamings, the id each node of the
/// batch took, its dependencies read through the renamings, and whether it
/// replaced a pending node.
#[derive(Clone, Debug)]
pub struct Splice {
    pub suffix: String,
    pub ids: Vec<String>,
    pub deps: Vec<Vec<String>>,
    pub replaced: Vec<bool>,
}

/// A node's request to add nodes to the run.
#[derive(Clone, Debug)]
pub struct DelegationRequest {
    pub reason: String,
    pub new_nodes: Vec<AgentNodeConfig>,
    pub strategy: DelegationStrategy,
}

/// A node that has not started: neither active, completed nor failed.
pub open spec fn is_pending(s: RuntimeState, id: Seq<char>) -> bool {
    !s.active().contains(id) && !s.completed().contains(id) && !s.failed().contains(id)
}

/// The id an incoming node takes: its own, unless a node that has started
/// already holds it; then its own with `_` and the suffix appended.
pub open spec fn resolved_id(dag: DAG, s: RuntimeState, id: Seq<char>, suffix: Seq<char>) -> Seq<
    char,
> {
    if dag.has_node(id) && !is_pending(s, id) {
        id + "_"@ + suffix
    } else {
        id
    }
}

/// A dependency of an incoming node, read through the renamings of the
/// batch: the first incoming node of that id that was renamed gives its new
/// id.
pub open spec fn remap(olds: Seq<Seq<char>>, news: Seq<Seq<char>>, d: Seq<char>) -> Seq<char>
    decreases olds.len(),
{
    if olds.len() == 0 || news.len() == 0 {
        d
    } else if olds[0] == d && news[0] != olds[0] {
        news[0]
    } else {
        remap(olds.drop_first(), news.drop_first(), d)
    }
}

/// The id an incoming node takes in the graph.
pub fn resolve_id(dag: &DAG, state: &RuntimeState, id: &String, suffix: &str) -> (r: String)
    requires
        dag.wf(),
    ensures
        r@ == resolved_id(*dag, *state, id@, suffix@),
{
    if dag.contains_node(id.as_str()) && (contains_id(&state.active_agents, id) || contains_id(
        &state.completed_agents,
        id,
    ) || contains_id(&state.failed_agents, id)) {
        let mut r = id.clone();
        r.append("_");
        r.append(suffix);
        r
    } else {
        id.clone()
    }
}

/// A dependency read through the renamings of the batch.
pub fn remap_dep(olds: &Vec<String>, news: &Vec<String>, d: &String) -> (r: String)
    requires
        olds@.len() == news@.len(),
    ensures
        r@ == remap(olds@.map_values(|s: String| s@), news@.map_values(|s: String| s@), d@),
{
    let ghost o = olds@.map_values(|s: String| s@);
    let ghost n = news@.map_values(|s: String| s@);
    let mut j: usize = 0;
    proof {
        assert(o.subrange(0, o.len() as int) =~= o);
        assert(n.subrange(0, n.len() as int) =~= n);
    }
    while j < olds.len()
        invariant
            olds@.len() == news@.len(),
            o == olds@.map_values(|s: String| s@),
            n == news@.map_values(|s: String| s@),
            j <= olds@.len(),
            remap(o, n, d@) == remap(
                o.subrange(j as int, o.len() as int),
                n.subrange(j as int, n.len() as int),
                d@,
            ),
        decreases olds@.len() - j,
    {
        let ghost os = o.subrange(j as int, o.len() as int);
        let ghost ns = n.subrange(j as int, n.len() as int);
        assert(os[0] == olds@[j as int]@);
        assert(ns[0] == news@[j as int]@);
        assert(os.drop_first() =~= o.subrange(j + 1, o.len() as int));
        assert(ns.drop_first() =~= n.subrange(j + 1, n.len() as int));
        if olds[j] == *d && news[j] != olds[j] {
            return news[j].clone();
        }
        j = j + 1;
    }
    proof {
        assert(o.subrange(j as int, o.len() as int).len() == 0);
    }
    d.clone()
}

/// `new` has the nodes of `old` and at least its edges.
pub open spec fn grows(old: DAG, new: DAG) -> bool {
    new.node_set() == old.node_set() && old.edge_set().subset_of(new.edge_set())
}

/// Adds or resets the incoming nodes: a replaced pending node loses its
/// incoming edges, any other is added.
fn prepare_nodes(dag: &mut DAG, ids: &Vec<String>, updates: &Vec<bool>)
    requires
        old(dag).wf(),
        ids@.len() == updates@.len(),
    ensures
        final(dag).wf(),
        old(dag).node_set().subset_of(final(dag).node_set()),
        final(dag).edge_set().subset_of(old(dag).edge_set()),
        forall|i: int| 0 <= i < ids@.len() ==> final(dag).node_set().contains(#[trigger] ids@[i]@),
        forall|i: int, a: Seq<char>|
            0 <= i < ids@.len() && updates@[i] ==> !#[trigger] final(dag).edge_set().contains(
                (a, ids@[i]@),
            ),
        forall|x: Seq<char>|
            #[trigger] final(dag).node_set().contains(x) ==> old(dag).node_set().contains(x)
                || id_set(ids@).contains(x),
        forall|a: Seq<char>, b: Seq<char>|
            #[trigger] old(dag).edge_set().contains((a, b)) && !updated_target(ids@, updates@, b)
                ==> final(dag).edge_set().contains((a, b)),
{
    let mut i: usize = 0;
    while i < ids.len()
        invariant
            dag.wf(),
            ids@.len() == updates@.len(),
            i <= ids@.len(),
            old(dag).node_set().subset_of(dag.node_set()),
            dag.edge_set().subset_of(old(dag).edge_set()),
            forall|j: int| 0 <= j < i ==> dag.node_set().contains(#[trigger] ids@[j]@),
            forall|j: int, a: Seq<char>|
                0 <= j < i && updates@[j] ==> !#[trigger] dag.edge_set().contains((a, ids@[j]@)),
            forall|x: Seq<char>|
                #[trigger] dag.node_set().contains(x) ==> old(dag).node_set().contains(x) || id_set(
                    ids@.subrange(0, i as int),
                ).contains(x),
            forall|a: Seq<char>, b: Seq<char>|
                #[trigger] old(dag).edge_set().contains((a, b)) && !(exists|j: int|
                    0 <= j < i && updates@[j] && ids@[j]@ == b) ==> dag.edge_set().contains((a, b)),
        decreases ids@.len() - i,
    {
        proof {
            assert(ids@.subrange(0, i + 1) =~= ids@.subrange(0, i as int).push(ids@[i as int]));
            lemma_id_set_push(ids@.subrange(0, i as int), ids@[i as int]);
        }
        let ghost before = *dag;
        if updates[i] && dag.contains_node(ids[i].as_str()) {
            proof {
                dag.lemma_views();
            }
            dag.clear_incoming_edges(ids[i].as_str());
            proof {
                dag.lemma_views();
                assert forall|a: Seq<char>| !dag.edge_set().contains((a, ids@[i as int]@)) by {}
            }
            proof {
                assert forall|a: Seq<char>, b: Seq<char>|
                    #[trigger] old(dag).edge_set().contains((a, b)) && !(exists|j: int|
                        0 <= j < i + 1 && updates@[j] && ids@[j]@ == b) implies dag.edge_set().contains(
                    (a, b),
                ) by {
                    assert(before.edge_set().contains((a, b)));
                }
            }
        } else {
            proof {
                before.lemma_views();
            }
            let _ = dag.add_node(ids[i].clone());
            proof {
                if updates@[i as int] {
                    assert forall|a: Seq<char>| !dag.edge_set().contains((a, ids@[i as int]@)) by {
                        assert(!before.has_node(ids@[i as int]@));
                    }
                }
            }
        }
        i = i + 1;
    }
    proof {
        assert(ids@.subrange(0, ids@.len() as int) =~= ids@);
    }
}

/// Some node of the batch that replaces a pending node has the id `b`.
pub open spec fn updated_target(ids: Seq<String>, updates: Seq<bool>, b: Seq<char>) -> bool {
    exists|j: int| 0 <= j < ids.len() && updates[j] && ids[j]@ == b
}

/// Adds an edge from each declared dependency to its node.
fn add_dep_edges(dag: &mut DAG, ids: &Vec<String>, deps: &Vec<Vec<String>>) -> (r: Result<
    (),
    DAGError,
>)
    requires
        old(dag).wf(),
        ids@.len() == deps@.len(),
    ensures
        final(dag).wf(),
        r is Ok ==> grows(*old(dag), *final(dag)),
        r is Ok ==> forall|i: int, k: int|
            0 <= i < ids@.len() && 0 <= k < deps@[i]@.len() ==> final(dag).edge_set().contains(
                (#[trigger] deps@[i]@[k]@, ids@[i]@),
            ),
        r is Ok ==> forall|a: Seq<char>, b: Seq<char>|
            #[trigger] final(dag).edge_set().contains((a, b)) ==> old(dag).edge_set().contains((a, b))
                || exists|j: int, k: int|
                0 <= j < ids@.len() && 0 <= k < deps@[j]@.len() && b == ids@[j]@ && a
                    == #[trigger] deps@[j]@[k]@,
{
    let mut i: usize = 0;
    while i < ids.len()
        invariant
            dag.wf(),
            ids@.len() == deps@.len(),
            i <= ids@.len(),
            grows(*old(dag), *dag),
            forall|a: Seq<char>, b: Seq<char>|
                #[trigger] dag.edge_set().contains((a, b)) ==> old(dag).edge_set().contains((a, b))
                    || exists|j: int, k: int|
                    0 <= j < ids@.len() && 0 <= k < deps@[j]@.len() && b == ids@[j]@ && a
                        == #[trigger] deps@[j]@[k]@,
            forall|j: int, k: int|
                0 <= j < i && 0 <= k < deps@[j]@.len() ==> dag.edge_set().contains(
                    (#[trigger] deps@[j]@[k]@, ids@[j]@),
                ),
        decreases ids@.len() - i,
    {
        let mut k: usize = 0;
        while k < deps[i].len()
            invariant
                dag.wf(),
                ids@.len() == deps@.len(),
                i < ids@.len(),
                k <= deps@[i as int]@.len(),
                grows(*old(dag), *dag),
                forall|j: int, kk: int|
                    0 <= j < i && 0 <= kk < deps@[j]@.len() ==> dag.edge_set().contains(
                        (#[trigger] deps@[j]@[kk]@, ids@[j]@),
                    ),
                forall|kk: int|
                    0 <= kk < k ==> dag.edge_set().contains(
                        (#[trigger] deps@[i as int]@[kk]@, ids@[i as int]@),
                    ),
                forall|a: Seq<char>, b: Seq<char>|
                    #[trigger] dag.edge_set().contains((a, b)) ==> old(dag).edge_set().contains((a, b))
                        || exists|j: int, kx: int|
                        0 <= j < ids@.len() && 0 <= kx < deps@[j]@.len() && b == ids@[j]@ && a
                            == #[trigger] deps@[j]@[kx]@,
            decreases deps@[i as int]@.len() - k,
        {
            match dag.add_edge(deps[i][k].clone(), ids[i].clone()) {
                Ok(()) => {
                    proof {
                        assert forall|a: Seq<char>, b: Seq<char>|
                            #[trigger] dag.edge_set().contains((a, b)) implies old(dag).edge_set().contains((a, b))
                                || exists|j: int, kx: int|
                                0 <= j < ids@.len() && 0 <= kx < deps@[j]@.len() && b == ids@[j]@
                                    && a == #[trigger] deps@[j]@[kx]@ by {
                            if a == deps@[i as int]@[k as int]@ && b == ids@[i as int]@ {
                                assert(0 <= i < ids@.len() && 0 <= k < deps@[i as int]@.len());
                            }
                        }
                    }
                },
                Err(e) => {
                    return Err(e);
                },
            }
            k = k + 1;
        }
        i = i + 1;
    }
    Ok(())
}

/// The node declares no dependency, or declares the delegating node.
pub open spec fn links_to_parent(deps: Seq<String>, parent: Seq<char>) -> bool {
    deps.len() == 0 || id_set(deps).contains(parent)
}

/// Adds `parent -> node` for each incoming node that declares no other
/// parent.
fn link_parent(dag: &mut DAG, parent: &String, ids: &Vec<String>, deps: &Vec<Vec<String>>) -> (r:
    Result<(), DAGError>)
    requires
        old(dag).wf(),
        ids@.len() == deps@.len(),
    ensures
        final(dag).wf(),
        r is Ok ==> grows(*old(dag), *final(dag)),
        r is Ok ==> forall|i: int|
            0 <= i < ids@.len() && links_to_parent(#[trigger] deps@[i]@, parent@) ==> final(dag).edge_set().contains((parent@, ids@[i]@)),
        r is Ok ==> forall|a: Seq<char>, b: Seq<char>|
            #[trigger] final(dag).edge_set().contains((a, b)) ==> old(dag).edge_set().contains((a, b))
                || (a == parent@ && exists|j: int| 0 <= j < ids@.len() && b == #[trigger] ids@[j]@),
{
    let mut i: usize = 0;
    while i < ids.len()
        invariant
            dag.wf(),
            ids@.len() == deps@.len(),
            i <= ids@.len(),
            grows(*old(dag), *dag),
            forall|j: int|
                0 <= j < i && links_to_parent(#[trigger] deps@[j]@, parent@)
                    ==> dag.edge_set().contains((parent@, ids@[j]@)),
            forall|a: Seq<char>, b: Seq<char>|
                #[trigger] dag.edge_set().contains((a, b)) ==> old(dag).edge_set().contains((a, b))
                    || (a == parent@ && exists|j: int| 0 <= j < ids@.len() && b == #[trigger] ids@[j]@),
        decreases ids@.len() - i,
    {
        if deps[i].len() == 0 || contains_id(&deps[i], parent) {
            match dag.add_edge(parent.clone(), ids[i].clone()) {
                Ok(()) => {
                    proof {
                        assert forall|a: Seq<char>, b: Seq<char>|
                            #[trigger] dag.edge_set().contains((a, b)) implies old(dag).edge_set().contains((a, b))
                                || (a == parent@ && exists|j: int|
                                0 <= j < ids@.len() && b == #[trigger] ids@[j]@) by {
                            if a == parent@ && b == ids@[i as int]@ {
                                assert(0 <= i < ids@.len());
                            }
                        }
                    }
                },
                Err(e) => {
                    return Err(e);
                },
            }
        }
        i = i + 1;
    }
    Ok(())
}

/// Adds `node -> child` for each incoming node and each existing dependent.
fn link_children(dag: &mut DAG, ids: &Vec<String>, children: &Vec<String>) -> (r: Result<
    (),
    DAGError,
>)
    requires
        old(dag).wf(),
    ensures
        final(dag).wf(),
        r is Ok ==> grows(*old(dag), *final(dag)),
        r is Ok ==> forall|i: int, c: int|
            0 <= i < ids@.len() && 0 <= c < children@.len() ==> final(dag).edge_set().contains(
                (#[trigger] ids@[i]@, #[trigger] children@[c]@),
            ),
        r is Ok ==> forall|a: Seq<char>, b: Seq<char>|
            #[trigger] final(dag).edge_set().contains((a, b)) ==> old(dag).edge_set().contains((a, b))
                || exists|c: int| 0 <= c < children@.len() && b == #[trigger] children@[c]@,
{
    let mut c: usize = 0;
    while c < children.len()
        invariant
            dag.wf(),
            c <= children@.len(),
            grows(*old(dag), *dag),
            forall|i: int, cc: int|
                0 <= i < ids@.len() && 0 <= cc < c ==> dag.edge_set().contains(
                    (#[trigger] ids@[i]@, #[trigger] children@[cc]@),
                ),
            forall|a: Seq<char>, b: Seq<char>|
                #[trigger] dag.edge_set().contains((a, b)) ==> old(dag).edge_set().contains((a, b))
                    || exists|cx: int| 0 <= cx < children@.len() && b == #[trigger] children@[cx]@,
        decreases children@.len() - c,
    {
        let mut i: usize = 0;
        while i < ids.len()
            invariant
                dag.wf(),
                c < children@.len(),
                i <= ids@.len(),
                grows(*old(dag), *dag),
                forall|ii: int, cc: int|
                    0 <= ii < ids@.len() && 0 <= cc < c ==> dag.edge_set().contains(
                        (#[trigger] ids@[ii]@, #[trigger] children@[cc]@),
                    ),
                forall|ii: int|
                    0 <= ii < i ==> dag.edge_set().contains(
                        (#[trigger] ids@[ii]@, children@[c as int]@),
                    ),
                forall|a: Seq<char>, b: Seq<char>|
                    #[trigger] dag.edge_set().contains((a, b)) ==> old(dag).edge_set().contains((a, b))
                        || exists|cx: int| 0 <= cx < children@.len() && b == #[trigger] children@[cx]@,
            decreases ids@.len() - i,
        {
            match dag.add_edge(ids[i].clone(), children[c].clone()) {
                Ok(()) => {
                    proof {
                        assert forall|a: Seq<char>, b: Seq<char>|
                            #[trigger] dag.edge_set().contains((a, b)) implies old(dag).edge_set().contains((a, b))
                                || exists|cx: int|
                                0 <= cx < children@.len() && b == #[trigger] children@[cx]@ by {
                            if b == children@[c as int]@ {
                                assert(0 <= c < children@.len());
                            }
                        }
                    }
                },
                Err(e) => {
                    return Err(e);
                },
            }
            i = i + 1;
        }
        c = c + 1;
    }
    Ok(())
}

/// Removes `parent -> child` for each existing dependent.
fn unlink_parent(dag: &mut DAG, parent: &String, children: &Vec<String>)
    requires
        old(dag).wf(),
    ensures
        final(dag).wf(),
        final(dag).node_set() == old(dag).node_set(),
        forall|a: Seq<char>, b: Seq<char>|
            #[trigger] final(dag).edge_set().contains((a, b)) == (old(dag).edge_set().contains((a, b))
                && !(a == parent@ && id_set(children@).contains(b))),
{
    let mut c: usize = 0;
    while c < children.len()
        invariant
            dag.wf(),
            c <= children@.len(),
            dag.node_set() == old(dag).node_set(),
            forall|a: Seq<char>, b: Seq<char>|
                #[trigger] dag.edge_set().contains((a, b)) == (old(dag).edge_set().contains((a, b))
                    && !(a == parent@ && id_set(children@.subrange(0, c as int)).contains(b))),
        decreases children@.len() - c,
    {
        let ghost before = *dag;
        let _ = dag.remove_edge(parent.as_str(), children[c].as_str());
        proof {
            before.lemma_views();
            dag.lemma_views();
            let pre = children@.subrange(0, c as int);
            let next = children@.subrange(0, c + 1);
            assert(next =~= pre.push(children@[c as int]));
            assert(next.map_values(|s: String| s@) =~= pre.map_values(|s: String| s@).push(
                children@[c as int]@,
            ));
            assert forall|b: Seq<char>| id_set(next).contains(b) == (id_set(pre).contains(b) || b
                == children@[c as int]@) by {
                let m = pre.map_values(|s: String| s@);
                let m2 = next.map_values(|s: String| s@);
                if m.contains(b) {
                    let t = choose|t: int| 0 <= t < m.len() && m[t] == b;
                    assert(m2[t] == b);
                }
                if b == children@[c as int]@ {
                    assert(m2[m.len() as int] == b);
                }
                if m2.contains(b) {
                    let t = choose|t: int| 0 <= t < m2.len() && m2[t] == b;
                    if t < m.len() {
                        assert(m[t] == b);
                    }
                }
            }
        }
        c = c + 1;
    }
    proof {
        assert(children@.subrange(0, children@.len() as int) =~= children@);
    }
}

/// The views of a list of pairs of ids.
pub open spec fn pair_views(p: Seq<(String, String)>) -> Seq<(Seq<char>, Seq<char>)> {
    p.map_values(|e: (String, String)| (e.0@, e.1@))
}

/// Adding the edge `a -> b` to `h` fails: an end is not a node, or `a` is
/// reachable from `b`.
pub open spec fn fails_on(h: DAG, a: Seq<char>, b: Seq<char>) -> bool {
    !h.has_node(a) || !h.has_node(b) || h.reaches(b, a)
}

proof fn lemma_pair_views_push(p: Seq<(String, String)>, e: (String, String))
    ensures
        forall|x: (Seq<char>, Seq<char>)|
            #[trigger] pair_views(p.push(e)).contains(x) <==> pair_views(p).contains(x) || x == (
                e.0@,
                e.1@,
            ),
{
    let m = pair_views(p);
    let m2 = pair_views(p.push(e));
    assert(m2 =~= m.push((e.0@, e.1@)));
    assert forall|x: (Seq<char>, Seq<char>)| m2.contains(x) <==> m.contains(x) || x == (e.0@, e.1@) by {
        if m.contains(x) {
            let t = choose|t: int| 0 <= t < m.len() && m[t] == x;
            assert(m2[t] == x);
        }
        if x == (e.0@, e.1@) {
            assert(m2[m.len() as int] == x);
        }
        if m2.contains(x) {
            let t = choose|t: int| 0 <= t < m2.len() && m2[t] == x;
            if t < m.len() {
                assert(m[t] == x);
            }
        }
    }
}

/// Adds the pairs as edges, in order. On failure the graph is left as the
/// failing addition found it.
fn add_edges(dag: &mut DAG, pairs: &Vec<(String, String)>) -> (r: Result<(), DAGError>)
    requires
        old(dag).wf(),
    ensures
        final(dag).wf(),
        final(dag).node_set() == old(dag).node_set(),
        forall|a: Seq<char>, b: Seq<char>|
            #[trigger] final(dag).edge_set().contains((a, b)) ==> old(dag).edge_set().contains((a, b))
                || pair_views(pairs@).contains((a, b)),
        r is Ok ==> forall|a: Seq<char>, b: Seq<char>|
            pair_views(pairs@).contains((a, b)) ==> #[trigger] final(dag).edge_set().contains((a, b)),
        r is Ok ==> old(dag).edge_set().subset_of(final(dag).edge_set()),
        r is Err ==> exists|t: int|
            0 <= t < pairs@.len() && fails_on(*final(dag), #[trigger] pairs@[t].0@, pairs@[t].1@),
{
    let ghost pv = pair_views(pairs@);
    let mut i: usize = 0;
    while i < pairs.len()
        invariant
            dag.wf(),
            pv == pair_views(pairs@),
            i <= pairs@.len(),
            dag.node_set() == old(dag).node_set(),
            old(dag).edge_set().subset_of(dag.edge_set()),
            forall|a: Seq<char>, b: Seq<char>|
                #[trigger] dag.edge_set().contains((a, b)) ==> old(dag).edge_set().contains((a, b))
                    || pv.contains((a, b)),
            forall|t: int| 0 <= t < i ==> dag.edge_set().contains(#[trigger] pv[t]),
        decreases pairs@.len() - i,
    {
        proof {
            dag.lemma_views();
        }
        let ghost before = *dag;
        match dag.add_edge(pairs[i].0.clone(), pairs[i].1.clone()) {
            Ok(()) => {
                proof {
                    assert(pv[i as int] == (pairs@[i as int].0@, pairs@[i as int].1@));
                    assert forall|a: Seq<char>, b: Seq<char>|
                        #[trigger] dag.edge_set().contains((a, b)) implies old(dag).edge_set().contains(
                        (a, b),
                    ) || pv.contains((a, b)) by {
                        if (a, b) == pv[i as int] {
                            assert(pv.contains(pv[i as int]));
                        }
                    }
                    assert forall|t: int| 0 <= t < i + 1 implies dag.edge_set().contains(
                        #[trigger] pv[t],
                    ) by {
                        if t < i {
                            assert(before.edge_set().contains(pv[t]));
                        }
                    }
                }
            },
            Err(e) => {
                proof {
                    assert(fails_on(*dag, pairs@[i as int].0@, pairs@[i as int].1@));
                }
                return Err(e);
            },
        }
        i = i + 1;
    }
    proof {
        assert forall|a: Seq<char>, b: Seq<char>|
            pv.contains((a, b)) implies #[trigger] dag.edge_set().contains((a, b)) by {
            let t = choose|t: int| 0 <= t < pv.len() && pv[t] == (a, b);
        }
    }
    Ok(())
}

/// The pairs `dep -> node` of the declared dependencies.
fn dep_pairs(ids: &Vec<String>, deps: &Vec<Vec<String>>) -> (r: Vec<(String, String)>)
    requires
        ids@.len() == deps@.len(),
    ensures
        forall|a: Seq<char>, b: Seq<char>|
            #[trigger] pair_views(r@).contains((a, b)) <==> exists|j: int, k: int|
                0 <= j < ids@.len() && 0 <= k < deps@[j]@.len() && a == #[trigger] deps@[j]@[k]@
                    && b == ids@[j]@,
{
    let mut r: Vec<(String, String)> = Vec::new();
    let mut j: usize = 0;
    proof {
        assert(pair_views(r@) =~= Seq::<(Seq<char>, Seq<char>)>::empty());
    }
    while j < ids.len()
        invariant
            ids@.len() == deps@.len(),
            j <= ids@.len(),
            forall|a: Seq<char>, b: Seq<char>|
                #[trigger] pair_views(r@).contains((a, b)) <==> exists|jj: int, k: int|
                    0 <= jj < j && 0 <= k < deps@[jj]@.len() && a == #[trigger] deps@[jj]@[k]@ && b
                        == ids@[jj]@,
        decreases ids@.len() - j,
    {
        let mut k: usize = 0;
        while k < deps[j].len()
            invariant
                ids@.len() == deps@.len(),
                j < ids@.len(),
                k <= deps@[j as int]@.len(),
                forall|a: Seq<char>, b: Seq<char>|
                    #[trigger] pair_views(r@).contains((a, b)) <==> (exists|jj: int, kx: int|
                        0 <= jj < j && 0 <= kx < deps@[jj]@.len() && a == #[trigger] deps@[jj]@[kx]@
                            && b == ids@[jj]@) || (exists|kx: int|
                        0 <= kx < k && a == #[trigger] deps@[j as int]@[kx]@ && b == ids@[j as int]@),
            decreases deps@[j as int]@.len() - k,
        {
            let ghost r0 = r@;
            let e = (deps[j][k].clone(), ids[j].clone());
            proof {
                lemma_pair_views_push(r0, e);
            }
            r.push(e);
            proof {
                assert forall|a: Seq<char>, b: Seq<char>|
                    #[trigger] pair_views(r@).contains((a, b)) <==> (exists|jj: int, kx: int|
                        0 <= jj < j && 0 <= kx < deps@[jj]@.len() && a == #[trigger] deps@[jj]@[kx]@
                            && b == ids@[jj]@) || (exists|kx: int|
                        0 <= kx < k + 1 && a == #[trigger] deps@[j as int]@[kx]@ && b
                            == ids@[j as int]@) by {
                    if a == deps@[j as int]@[k as int]@ && b == ids@[j as int]@ {
                        assert(pair_views(r@).contains((a, b)));
                    }
                    if exists|kx: int|
                        0 <= kx < k + 1 && a == #[trigger] deps@[j as int]@[kx]@ && b
                            == ids@[j as int]@ {
                        let kx = choose|kx: int|
                            0 <= kx < k + 1 && a == #[trigger] deps@[j as int]@[kx]@ && b
                                == ids@[j as int]@;
                        if kx < k {
                            assert(pair_views(r0).contains((a, b)));
                        }
                    }
                }
            }
            k = k + 1;
        }
        proof {
            assert forall|a: Seq<char>, b: Seq<char>|
                #[trigger] pair_views(r@).contains((a, b)) <==> exists|jj: int, kx: int|
                    0 <= jj < j + 1 && 0 <= kx < deps@[jj]@.len() && a == #[trigger] deps@[jj]@[kx]@
                        && b == ids@[jj]@ by {
                if exists|jj: int, kx: int|
                    0 <= jj < j + 1 && 0 <= kx < deps@[jj]@.len() && a == #[trigger] deps@[jj]@[kx]@
                        && b == ids@[jj]@ {
                    let (jj, kx) = choose|jj: int, kx: int|
                        0 <= jj < j + 1 && 0 <= kx < deps@[jj]@.len() && a
                            == #[trigger] deps@[jj]@[kx]@ && b == ids@[jj]@;
                    if jj < j {
                        assert(exists|jy: int, ky: int|
                            0 <= jy < j && 0 <= ky < deps@[jy]@.len() && a
                                == #[trigger] deps@[jy]@[ky]@ && b == ids@[jy]@);
                    } else {
                        assert(exists|ky: int|
                            0 <= ky < deps@[j as int]@.len() && a == #[trigger] deps@[j as int]@[ky]@
                                && b == ids@[j as int]@);
                    }
                }
            }
        }
        j = j + 1;
    }
    r
}

/// The pairs `parent -> node` of the nodes that declare no other parent.
fn parent_pairs(parent: &String, ids: &Vec<String>, deps: &Vec<Vec<String>>) -> (r: Vec<
    (String, String),
>)
    requires
        ids@.len() == deps@.len(),
    ensures
        forall|a: Seq<char>, b: Seq<char>|
            #[trigger] pair_views(r@).contains((a, b)) <==> a == parent@ && exists|j: int|
                0 <= j < ids@.len() && links_to_parent(#[trigger] deps@[j]@, parent@) && b
                    == ids@[j]@,
{
    let mut r: Vec<(String, String)> = Vec::new();
    let mut j: usize = 0;
    proof {
        assert(pair_views(r@) =~= Seq::<(Seq<char>, Seq<char>)>::empty());
    }
    while j < ids.len()
        invariant
            ids@.len() == deps@.len(),
            j <= ids@.len(),
            forall|a: Seq<char>, b: Seq<char>|
                #[trigger] pair_views(r@).contains((a, b)) <==> a == parent@ && exists|jj: int|
                    0 <= jj < j && links_to_parent(#[trigger] deps@[jj]@, parent@) && b
                        == ids@[jj]@,
        decreases ids@.len() - j,
    {
        if deps[j].len() == 0 || contains_id(&deps[j], parent) {
            let ghost r0 = r@;
            let e = (parent.clone(), ids[j].clone());
            proof {
                lemma_pair_views_push(r0, e);
            }
            r.push(e);
            proof {
                assert(links_to_parent(deps@[j as int]@, parent@));
            }
        }
        proof {
            assert forall|a: Seq<char>, b: Seq<char>|
                #[trigger] pair_views(r@).contains((a, b)) <==> a == parent@ && exists|jj: int|
                    0 <= jj < j + 1 && links_to_parent(#[trigger] deps@[jj]@, parent@) && b
                        == ids@[jj]@ by {
                if a == parent@ && exists|jj: int|
                    0 <= jj < j + 1 && links_to_parent(#[trigger] deps@[jj]@, parent@) && b
                        == ids@[jj]@ {
                    let jj = choose|jj: int|
                        0 <= jj < j + 1 && links_to_parent(#[trigger] deps@[jj]@, parent@) && b
                            == ids@[jj]@;
                    if jj < j {
                        assert(exists|jy: int|
                            0 <= jy < j && links_to_parent(#[trigger] deps@[jy]@, parent@) && b
                                == ids@[jy]@);
                    }
                }
            }
        }
        j = j + 1;
    }
    r
}

/// The pairs `node -> child` of every new node and existing dependent.
fn child_pairs(ids: &Vec<String>, children: &Vec<String>) -> (r: Vec<(String, String)>)
    ensures
        forall|a: Seq<char>, b: Seq<char>|
            #[trigger] pair_views(r@).contains((a, b)) <==> id_set(children@).contains(b)
                && id_set(ids@).contains(a),
{
    let mut r: Vec<(String, String)> = Vec::new();
    let mut c: usize = 0;
    proof {
        assert(pair_views(r@) =~= Seq::<(Seq<char>, Seq<char>)>::empty());
    }
    while c < children.len()
        invariant
            c <= children@.len(),
            forall|a: Seq<char>, b: Seq<char>|
                #[trigger] pair_views(r@).contains((a, b)) <==> id_set(
                    children@.subrange(0, c as int),
                ).contains(b) && id_set(ids@).contains(a),
        decreases children@.len() - c,
    {
        let mut j: usize = 0;
        while j < ids.len()
            invariant
                c < children@.len(),
                j <= ids@.len(),
                forall|a: Seq<char>, b: Seq<char>|
                    #[trigger] pair_views(r@).contains((a, b)) <==> (id_set(
                        children@.subrange(0, c as int),
                    ).contains(b) && id_set(ids@).contains(a)) || (b == children@[c as int]@
                        && id_set(ids@.subrange(0, j as int)).contains(a)),
            decreases ids@.len() - j,
        {
            let ghost r0 = r@;
            let e = (ids[j].clone(), children[c].clone());
            proof {
                lemma_pair_views_push(r0, e);
                assert(ids@.subrange(0, j + 1) =~= ids@.subrange(0, j as int).push(ids@[j as int]));
                lemma_id_set_push(ids@.subrange(0, j as int), ids@[j as int]);
            }
            r.push(e);
            j = j + 1;
        }
        proof {
            assert(ids@.subrange(0, ids@.len() as int) =~= ids@);
            assert(children@.subrange(0, c + 1) =~= children@.subrange(0, c as int).push(
                children@[c as int],
            ));
            lemma_id_set_push(children@.subrange(0, c as int), children@[c as int]);
        }
        c = c + 1;
    }
    proof {
        assert(children@.subrange(0, children@.len() as int) =~= children@);
    }
    r
}

/// The entries of `v` whose id is not in `ex`, in order.
fn without_ids(v: &Vec<String>, ex: &Vec<String>) -> (r: Vec<String>)
    ensures
        id_set(r@) == id_set(v@).difference(id_set(ex@)),
{
    let mut r: Vec<String> = Vec::new();
    let mut i: usize = 0;
    while i < v.len()
        invariant
            i <= v@.len(),
            id_set(r@) == id_set(v@.subrange(0, i as int)).difference(id_set(ex@)),
        decreases v@.len() - i,
    {
        let ghost r0 = r@;
        proof {
            assert(v@.subrange(0, i + 1) =~= v@.subrange(0, i as int).push(v@[i as int]));
            lemma_id_set_push(v@.subrange(0, i as int), v@[i as int]);
        }
        if !contains_id(ex, &v[i]) {
            r.push(v[i].clone());
            proof {
                lemma_id_set_push(r0, v@[i as int]);
                assert(id_set(r@) =~= id_set(v@.subrange(0, i + 1)).difference(id_set(ex@)));
            }
        } else {
            proof {
                assert(id_set(r@) =~= id_set(v@.subrange(0, i + 1)).difference(id_set(ex@)));
            }
        }
        i = i + 1;
    }
    proof {
        assert(v@.subrange(0, v@.len() as int) =~= v@);
    }
    r
}

proof fn lemma_id_set_push(v: Seq<String>, x: String)
    ensures
        id_set(v.push(x)) == id_set(v).insert(x@),
{
    let m = v.map_values(|s: String| s@);
    let m2 = v.push(x).map_values(|s: String| s@);
    assert(m2 =~= m.push(x@));
    assert forall|a: Seq<char>| m2.contains(a) == (m.contains(a) || a == x@) by {
        if m.contains(a) {
            let i = choose|i: int| 0 <= i < m.len() && m[i] == a;
            assert(m2[i] == a);
        }
        if a == x@ {
            assert(m2[m.len() as int] == a);
        }
        if m2.contains(a) {
            let i = choose|i: int| 0 <= i < m2.len() && m2[i] == a;
            if i < m.len() {
                assert(m[i] == a);
            }
        }
    }
    assert(id_set(v.push(x)) =~= id_set(v).insert(x@));
}

/// The nodes after a splice: the old nodes and the incoming ones.
pub open spec fn spliced_nodes(old: DAG, ids: Seq<String>) -> Set<Seq<char>> {
    old.node_set().union(id_set(ids))
}

/// The edge `a -> b` after a splice: an old edge not into a replaced node
/// and, under the child strategy, not from the parent to a moved
/// dependent; or a declared dependency; or a link from the parent to a node
/// that declares no other parent; or, under the child strategy, a link from
/// a new node to a moved dependent.
pub open spec fn spliced_edge(
    old: DAG,
    parent: Seq<char>,
    ids: Seq<String>,
    deps: Seq<Vec<String>>,
    updates: Seq<bool>,
    kids: Set<Seq<char>>,
    child: bool,
    a: Seq<char>,
    b: Seq<char>,
) -> bool {
    ||| (old.edge_set().contains((a, b)) && !updated_target(ids, updates, b) && !(child && a
        == parent && kids.contains(b)))
    ||| (exists|j: int, k: int|
        0 <= j < ids.len() && 0 <= k < deps[j]@.len() && a == #[trigger] deps[j]@[k]@ && b
            == ids[j]@)
    ||| (a == parent && exists|j: int|
        0 <= j < ids.len() && links_to_parent(#[trigger] deps[j]@, parent) && b == ids[j]@)
    ||| (child && kids.contains(b) && id_set(ids).contains(a))
}

pub open spec fn spliced_edges(
    old: DAG,
    parent: Seq<char>,
    ids: Seq<String>,
    deps: Seq<Vec<String>>,
    updates: Seq<bool>,
    kids: Set<Seq<char>>,
    child: bool,
) -> Set<(Seq<char>, Seq<char>)> {
    Set::new(
        |e: (Seq<char>, Seq<char>)| spliced_edge(old, parent, ids, deps, updates, kids, child, e.0, e.1),
    )
}

/// A splice can be made: every declared dependency names a node after it,
/// and its nodes and edges form a well-formed (so acyclic) graph.
pub open spec fn splice_possible(
    old: DAG,
    parent: Seq<char>,
    ids: Seq<String>,
    deps: Seq<Vec<String>>,
    updates: Seq<bool>,
    kids: Set<Seq<char>>,
    child: bool,
) -> bool {
    &&& forall|j: int, k: int|
        0 <= j < ids.len() && 0 <= k < deps[j]@.len() ==> spliced_nodes(old, ids).contains(
            #[trigger] deps[j]@[k]@,
        )
    &&& exists|w: DAG|
        w.wf() && w.node_set() == spliced_nodes(old, ids) && #[trigger] w.edge_set()
            == spliced_edges(old, parent, ids, deps, updates, kids, child)
}

proof fn lemma_failure_impossible(
    old: DAG,
    h: DAG,
    parent: Seq<char>,
    ids: Seq<String>,
    deps: Seq<Vec<String>>,
    updates: Seq<bool>,
    kids: Set<Seq<char>>,
    child: bool,
    a: Seq<char>,
    b: Seq<char>,
)
    requires
        h.wf(),
        h.node_set() == spliced_nodes(old, ids),
        h.edge_set().subset_of(spliced_edges(old, parent, ids, deps, updates, kids, child)),
        spliced_nodes(old, ids).contains(a),
        spliced_nodes(old, ids).contains(b),
        spliced_edge(old, parent, ids, deps, updates, kids, child, a, b),
        fails_on(h, a, b),
    ensures
        !(exists|w: DAG|
            w.wf() && w.node_set() == spliced_nodes(old, ids) && #[trigger] w.edge_set()
                == spliced_edges(old, parent, ids, deps, updates, kids, child)),
{
    h.lemma_views();
    if exists|w: DAG|
        w.wf() && w.node_set() == spliced_nodes(old, ids) && #[trigger] w.edge_set()
            == spliced_edges(old, parent, ids, deps, updates, kids, child) {
        let w = choose|w: DAG|
            w.wf() && w.node_set() == spliced_nodes(old, ids) && #[trigger] w.edge_set()
                == spliced_edges(old, parent, ids, deps, updates, kids, child);
        w.lemma_views();
        assert(h.reaches(b, a));
        lemma_reaches_monotone(h, w, b, a);
        assert(w.edge_set().contains((a, b)));
        lemma_edge_no_return(w, a, b);
    }
}

/// Splices the graph: resets or adds the incoming nodes; under the child
/// strategy removes the parent's edges to the moved dependents; then adds
/// the declared dependency edges, the parent links and, under the child
/// strategy, the links from the new nodes to the moved dependents. Every
/// intermediate graph lies within the result, so the splice fails exactly
/// when the result would not be a well-formed graph.
fn splice_graph(
    dag: &mut DAG,
    parent: &String,
    ids: &Vec<String>,
    deps: &Vec<Vec<String>>,
    updates: &Vec<bool>,
    children: &Vec<String>,
    child: bool,
) -> (r: Result<(), DAGError>)
    requires
        old(dag).wf(),
        old(dag).has_node(parent@),
        forall|c: int| 0 <= c < children@.len() ==> old(dag).has_node(#[trigger] children@[c]@),
        ids@.len() == deps@.len(),
        ids@.len() == updates@.len(),
        !id_set(ids@).contains(parent@),
        id_set(children@).disjoint(id_set(ids@)),
    ensures
        final(dag).wf(),
        r is Ok <==> splice_possible(
            *old(dag),
            parent@,
            ids@,
            deps@,
            updates@,
            id_set(children@),
            child,
        ),
        r is Ok ==> final(dag).node_set() == spliced_nodes(*old(dag), ids@),
        r is Ok ==> final(dag).edge_set() == spliced_edges(
            *old(dag),
            parent@,
            ids@,
            deps@,
            updates@,
            id_set(children@),
            child,
        ),
{
    let ghost kids = id_set(children@);
    let ghost nodes = spliced_nodes(*old(dag), ids@);
    let ghost edges = spliced_edges(*old(dag), parent@, ids@, deps@, updates@, kids, child);
    proof {
        old(dag).lemma_views();
    }
    prepare_nodes(dag, ids, updates);
    if child {
        unlink_parent(dag, parent, children);
    }
    let ghost d1 = *dag;
    proof {
        assert(d1.node_set() =~= nodes);
        assert forall|a: Seq<char>, b: Seq<char>|
            #[trigger] d1.edge_set().contains((a, b)) <==> old(dag).edge_set().contains((a, b))
                && !updated_target(ids@, updates@, b) && !(child && a == parent@ && kids.contains(
                b,
            )) by {
            if old(dag).edge_set().contains((a, b)) && updated_target(ids@, updates@, b) {
                let j = choose|j: int| 0 <= j < ids@.len() && updates@[j] && ids@[j]@ == b;
            }
        }
        assert(d1.edge_set().subset_of(edges));
    }
    let dp = dep_pairs(ids, deps);
    match add_edges(dag, &dp) {
        Ok(()) => {},
        Err(e) => {
            proof {
                let t = choose|t: int|
                    0 <= t < dp@.len() && fails_on(*dag, #[trigger] dp@[t].0@, dp@[t].1@);
                let (a, b) = (dp@[t].0@, dp@[t].1@);
                assert(pair_views(dp@)[t] == (a, b));
                assert(pair_views(dp@).contains((a, b)));
                assert(dag.edge_set().subset_of(edges));
                if forall|j: int, k: int|
                    0 <= j < ids@.len() && 0 <= k < deps@[j]@.len() ==> nodes.contains(
                        #[trigger] deps@[j]@[k]@,
                    ) {
                    let (j, k) = choose|j: int, k: int|
                        0 <= j < ids@.len() && 0 <= k < deps@[j]@.len() && a
                            == #[trigger] deps@[j]@[k]@ && b == ids@[j]@;
                    assert(id_set(ids@).contains(b)) by {
                        assert(ids@.map_values(|x: String| x@)[j] == b);
                    }
                    lemma_failure_impossible(
                        *old(dag),
                        *dag,
                        parent@,
                        ids@,
                        deps@,
                        updates@,
                        kids,
                        child,
                        a,
                        b,
                    );
                }
            }
            return Err(e);
        },
    }
    let ghost d2 = *dag;
    let pp = parent_pairs(parent, ids, deps);
    match add_edges(dag, &pp) {
        Ok(()) => {},
        Err(e) => {
            proof {
                let t = choose|t: int|
                    0 <= t < pp@.len() && fails_on(*dag, #[trigger] pp@[t].0@, pp@[t].1@);
                let (a, b) = (pp@[t].0@, pp@[t].1@);
                assert(pair_views(pp@)[t] == (a, b));
                assert(pair_views(pp@).contains((a, b)));
                assert(dag.edge_set().subset_of(edges));
                let j = choose|j: int|
                    0 <= j < ids@.len() && links_to_parent(#[trigger] deps@[j]@, parent@) && b
                        == ids@[j]@;
                assert(id_set(ids@).contains(b)) by {
                    assert(ids@.map_values(|x: String| x@)[j] == b);
                }
                lemma_failure_impossible(
                    *old(dag),
                    *dag,
                    parent@,
                    ids@,
                    deps@,
                    updates@,
                    kids,
                    child,
                    a,
                    b,
                );
            }
            return Err(e);
        },
    }
    if child {
        let cp = child_pairs(ids, children);
        match add_edges(dag, &cp) {
            Ok(()) => {},
            Err(e) => {
                proof {
                    let t = choose|t: int|
                        0 <= t < cp@.len() && fails_on(*dag, #[trigger] cp@[t].0@, cp@[t].1@);
                    let (a, b) = (cp@[t].0@, cp@[t].1@);
                    assert(pair_views(cp@)[t] == (a, b));
                    assert(pair_views(cp@).contains((a, b)));
                    assert(dag.edge_set().subset_of(edges));
                    let m = children@.map_values(|x: String| x@);
                    let c = choose|c: int| 0 <= c < m.len() && m[c] == b;
                    assert(children@[c]@ == b);
                    assert(old(dag).node_set().contains(b));
                    lemma_failure_impossible(
                        *old(dag),
                        *dag,
                        parent@,
                        ids@,
                        deps@,
                        updates@,
                        kids,
                        child,
                        a,
                        b,
                    );
                }
                return Err(e);
            },
        }
        proof {
            assert forall|a: Seq<char>, b: Seq<char>|
                kids.contains(b) && id_set(ids@).contains(a) implies #[trigger] dag.edge_set().contains(
                (a, b),
            ) by {
                assert(pair_views(cp@).contains((a, b)));
            }
        }
    }
    proof {
        assert(dag.node_set() =~= nodes);
        assert forall|a: Seq<char>, b: Seq<char>|
            #[trigger] dag.edge_set().contains((a, b)) <==> edges.contains((a, b)) by {
            if pair_views(dp@).contains((a, b)) {
            }
            if pair_views(pp@).contains((a, b)) {
            }
        }
        assert(dag.edge_set() =~= edges);
        dag.lemma_views();
        assert forall|j: int, k: int|
            0 <= j < ids@.len() && 0 <= k < deps@[j]@.len() implies nodes.contains(
            #[trigger] deps@[j]@[k]@,
        ) by {
            assert(pair_views(dp@).contains((deps@[j]@[k]@, ids@[j]@)));
            assert(dag.edge_set().contains((deps@[j]@[k]@, ids@[j]@)));
        }
        assert(splice_possible(*old(dag), parent@, ids@, deps@, updates@, kids, child));
    }
    Ok(())
}

/// `ids`, `deps` and `updates` are, for each node of the batch, its
/// resolved id, its dependencies read through the renamings, and whether it
/// replaces a pending node.
pub open spec fn batch_views(
    old: DAG,
    state: RuntimeState,
    nodes: Seq<AgentNodeConfig>,
    suffix: Seq<char>,
    ids: Seq<String>,
    deps: Seq<Vec<String>>,
    updates: Seq<bool>,
) -> bool {
    &&& ids.len() == nodes.len()
    &&& deps.len() == nodes.len()
    &&& updates.len() == nodes.len()
    &&& forall|i: int|
        0 <= i < nodes.len() ==> #[trigger] ids[i]@ == resolved_id(old, state, nodes[i].id@, suffix)
    &&& forall|i: int| 0 <= i < nodes.len() ==> (#[trigger] deps[i])@.len() == nodes[i].depends_on@.len()
    &&& forall|i: int, k: int|
        0 <= i < nodes.len() && 0 <= k < deps[i]@.len() ==> #[trigger] deps[i]@[k]@ == remap(
            batch_ids(nodes),
            ids.map_values(|s: String| s@),
            nodes[i].depends_on@[k]@,
        )
    &&& forall|i: int|
        0 <= i < nodes.len() ==> #[trigger] updates[i] == (old.has_node(nodes[i].id@) && is_pending(
            state,
            nodes[i].id@,
        ))
}

/// The dependents of the parent that move behind the new nodes: under the
/// child strategy its children that are not themselves in the batch.
pub open spec fn moved_kids(old: DAG, parent: Seq<char>, ids: Seq<String>, child: bool) -> Set<
    Seq<char>,
> {
    if child {
        old.children(parent).difference(id_set(ids))
    } else {
        Set::empty()
    }
}

/// A delegation can be spliced: no resolved id is the parent's, no renamed
/// id is already a node, and the splice is possible.
pub open spec fn splice_allowed(
    old: DAG,
    parent: Seq<char>,
    nodes: Seq<AgentNodeConfig>,
    ids: Seq<String>,
    deps: Seq<Vec<String>>,
    updates: Seq<bool>,
    child: bool,
) -> bool {
    &&& !id_set(ids).contains(parent)
    &&& forall|i: int|
        0 <= i < ids.len() && #[trigger] ids[i]@ != nodes[i].id@ ==> !old.has_node(ids[i]@)
    &&& splice_possible(old, parent, ids, deps, updates, moved_kids(old, parent, ids, child), child)
}

proof fn lemma_splice_congruent(
    old: DAG,
    state: RuntimeState,
    nodes: Seq<AgentNodeConfig>,
    suffix: Seq<char>,
    parent: Seq<char>,
    child: bool,
    ids1: Seq<String>,
    deps1: Seq<Vec<String>>,
    upd1: Seq<bool>,
    ids2: Seq<String>,
    deps2: Seq<Vec<String>>,
    upd2: Seq<bool>,
)
    requires
        batch_views(old, state, nodes, suffix, ids1, deps1, upd1),
        batch_views(old, state, nodes, suffix, ids2, deps2, upd2),
    ensures
        splice_allowed(old, parent, nodes, ids1, deps1, upd1, child) == splice_allowed(
            old,
            parent,
            nodes,
            ids2,
            deps2,
            upd2,
            child,
        ),
{
    let n = nodes.len();
    assert(ids1.map_values(|s: String| s@) =~= ids2.map_values(|s: String| s@));
    assert(upd1 =~= upd2);
    assert(id_set(ids1) == id_set(ids2));
    assert forall|j: int| 0 <= j < n implies id_set(deps1[j]@) == id_set(deps2[j]@) && deps1[j]@.len()
        == deps2[j]@.len() by {
        assert(deps1[j]@.map_values(|s: String| s@) =~= deps2[j]@.map_values(|s: String| s@)) by {
            assert forall|k: int| 0 <= k < deps1[j]@.len() implies deps1[j]@[k]@ == deps2[j]@[k]@ by {}
        }
    }
    let kids = moved_kids(old, parent, ids1, child);
    assert(kids == moved_kids(old, parent, ids2, child));
    assert(spliced_nodes(old, ids1) == spliced_nodes(old, ids2));
    assert forall|a: Seq<char>, b: Seq<char>|
        spliced_edge(old, parent, ids1, deps1, upd1, kids, child, a, b) == spliced_edge(
            old,
            parent,
            ids2,
            deps2,
            upd2,
            kids,
            child,
            a,
            b,
        ) by {
        if updated_target(ids1, upd1, b) {
            let j = choose|j: int| 0 <= j < ids1.len() && upd1[j] && ids1[j]@ == b;
            assert(updated_target(ids2, upd2, b));
        }
        if updated_target(ids2, upd2, b) {
            let j = choose|j: int| 0 <= j < ids2.len() && upd2[j] && ids2[j]@ == b;
            assert(updated_target(ids1, upd1, b));
        }
        if exists|j: int, k: int|
            0 <= j < ids1.len() && 0 <= k < deps1[j]@.len() && a == #[trigger] deps1[j]@[k]@ && b
                == ids1[j]@ {
            let (j, k) = choose|j: int, k: int|
                0 <= j < ids1.len() && 0 <= k < deps1[j]@.len() && a == #[trigger] deps1[j]@[k]@
                    && b == ids1[j]@;
            assert(a == deps2[j]@[k]@);
        }
        if exists|j: int, k: int|
            0 <= j < ids2.len() && 0 <= k < deps2[j]@.len() && a == #[trigger] deps2[j]@[k]@ && b
                == ids2[j]@ {
            let (j, k) = choose|j: int, k: int|
                0 <= j < ids2.len() && 0 <= k < deps2[j]@.len() && a == #[trigger] deps2[j]@[k]@
                    && b == ids2[j]@;
            assert(a == deps1[j]@[k]@);
        }
        if exists|j: int| 0 <= j < ids1.len() && links_to_parent(#[trigger] deps1[j]@, parent) && b == ids1[j]@ {
            let j = choose|j: int|
                0 <= j < ids1.len() && links_to_parent(#[trigger] deps1[j]@, parent) && b == ids1[j]@;
            assert(links_to_parent(deps2[j]@, parent));
        }
        if exists|j: int| 0 <= j < ids2.len() && links_to_parent(#[trigger] deps2[j]@, parent) && b == ids2[j]@ {
            let j = choose|j: int|
                0 <= j < ids2.len() && links_to_parent(#[trigger] deps2[j]@, parent) && b == ids2[j]@;
            assert(links_to_parent(deps1[j]@, parent));
        }
    }
    assert(spliced_edges(old, parent, ids1, deps1, upd1, kids, child) =~= spliced_edges(
        old,
        parent,
        ids2,
        deps2,
        upd2,
        kids,
        child,
    ));
    assert((forall|j: int, k: int|
        0 <= j < ids1.len() && 0 <= k < deps1[j]@.len() ==> spliced_nodes(old, ids1).contains(
            #[trigger] deps1[j]@[k]@,
        )) == (forall|j: int, k: int|
        0 <= j < ids2.len() && 0 <= k < deps2[j]@.len() ==> spliced_nodes(old, ids2).contains(
            #[trigger] deps2[j]@[k]@,
        ))) by {
        if forall|j: int, k: int|
            0 <= j < ids1.len() && 0 <= k < deps1[j]@.len() ==> spliced_nodes(old, ids1).contains(
                #[trigger] deps1[j]@[k]@,
            ) {
            assert forall|j: int, k: int|
                0 <= j < ids2.len() && 0 <= k < deps2[j]@.len() implies spliced_nodes(
                old,
                ids2,
            ).contains(#[trigger] deps2[j]@[k]@) by {
                assert(deps1[j]@[k]@ == deps2[j]@[k]@);
            }
        }
        if forall|j: int, k: int|
            0 <= j < ids2.len() && 0 <= k < deps2[j]@.len() ==> spliced_nodes(old, ids2).contains(
                #[trigger] deps2[j]@[k]@,
            ) {
            assert forall|j: int, k: int|
                0 <= j < ids1.len() && 0 <= k < deps1[j]@.len() implies spliced_nodes(
                old,
                ids1,
            ).contains(#[trigger] deps1[j]@[k]@) by {
                assert(deps1[j]@[k]@ == deps2[j]@[k]@);
            }
        }
    }
    assert forall|i: int| 0 <= i < ids1.len() implies ids1[i]@ == ids2[i]@ by {}
    let e1 = spliced_edges(old, parent, ids1, deps1, upd1, kids, child);
    let e2 = spliced_edges(old, parent, ids2, deps2, upd2, moved_kids(old, parent, ids2, child), child);
    assert(e1 == e2);
    assert(splice_possible(old, parent, ids1, deps1, upd1, kids, child) == splice_possible(
        old,
        parent,
        ids2,
        deps2,
        upd2,
        moved_kids(old, parent, ids2, child),
        child,
    ));
}
proof fn lemma_splice_facts(
    old: DAG,
    dag: DAG,
    parent: Seq<char>,
    ids: Seq<String>,
    deps: Seq<Vec<String>>,
    updates: Seq<bool>,
    kids: Set<Seq<char>>,
    child: bool,
)
    requires
        dag.wf(),
        ids.len() == deps.len(),
        ids.len() == updates.len(),
        !id_set(ids).contains(parent),
        kids.disjoint(id_set(ids)),
        dag.node_set() == spliced_nodes(old, ids),
        dag.edge_set() == spliced_edges(old, parent, ids, deps, updates, kids, child),
    ensures
        forall|i: int| 0 <= i < ids.len() ==> dag.has_node(#[trigger] ids[i]@),
        forall|i: int, k: int|
            0 <= i < ids.len() && 0 <= k < deps[i]@.len() ==> dag.has_edge(
                #[trigger] deps[i]@[k]@,
                ids[i]@,
            ),
        forall|i: int|
            0 <= i < ids.len() && links_to_parent(#[trigger] deps[i]@, parent) ==> dag.has_edge(
                parent,
                ids[i]@,
            ),
        child ==> forall|i: int, c: Seq<char>|
            0 <= i < ids.len() && #[trigger] kids.contains(c) ==> dag.has_edge(#[trigger] ids[i]@, c)
                && !dag.has_edge(parent, c),
        forall|i: int, a: Seq<char>|
            0 <= i < ids.len() && updates[i] && #[trigger] dag.has_edge(a, ids[i]@) ==> a == parent
                || exists|j: int, k: int|
                0 <= j < ids.len() && 0 <= k < deps[j]@.len() && ids[j]@ == ids[i]@ && a
                    == #[trigger] deps[j]@[k]@,
{
    dag.lemma_views();
        assert forall|i: int| 0 <= i < ids.len() implies dag.has_node(#[trigger] ids[i]@) by {
            assert(ids.map_values(|x: String| x@)[i] == ids[i]@);
            assert(id_set(ids).contains(ids[i]@));
            assert(spliced_nodes(old, ids).contains(ids[i]@));
            assert(dag.node_set().contains(ids[i]@));
            assert(ids.map_values(|x: String| x@)[i] == ids[i]@);
            assert(id_set(ids).contains(ids[i]@));
        }
        assert forall|i: int, k: int| 0 <= i < ids.len() && 0 <= k < deps[i]@.len() implies dag.has_edge(
            #[trigger] deps[i]@[k]@,
            ids[i]@,
        ) by {
            assert(dag.edge_set().contains((deps[i]@[k]@, ids[i]@)));
        }
        assert forall|i: int|
            0 <= i < ids.len() && links_to_parent(#[trigger] deps[i]@, parent) implies dag.has_edge(
            parent,
            ids[i]@,
        ) by {
            assert(dag.edge_set().contains((parent, ids[i]@)));
        }
        if child {
            assert forall|i: int, c: Seq<char>|
                0 <= i < ids.len() && #[trigger] kids.contains(c) implies dag.has_edge(
                #[trigger] ids[i]@,
                c,
            ) && !dag.has_edge(parent, c) by {
                assert(ids.map_values(|x: String| x@)[i] == ids[i]@);
                assert(id_set(ids).contains(ids[i]@));
                assert(dag.edge_set().contains((ids[i]@, c)));
                if dag.edge_set().contains((parent, c)) {
                    if exists|j: int, k: int|
                        0 <= j < ids.len() && 0 <= k < deps[j]@.len() && parent
                            == #[trigger] deps[j]@[k]@ && c == ids[j]@ {
                        let (j, k) = choose|j: int, k: int|
                            0 <= j < ids.len() && 0 <= k < deps[j]@.len() && parent
                                == #[trigger] deps[j]@[k]@ && c == ids[j]@;
                        assert(ids.map_values(|x: String| x@)[j] == c);
                    }
                    if exists|j: int|
                        0 <= j < ids.len() && links_to_parent(#[trigger] deps[j]@, parent) && c
                            == ids[j]@ {
                        let j = choose|j: int|
                            0 <= j < ids.len() && links_to_parent(#[trigger] deps[j]@, parent)
                                && c == ids[j]@;
                        assert(ids.map_values(|x: String| x@)[j] == c);
                    }
                }
            }
        }
        assert forall|i: int, a: Seq<char>|
            0 <= i < ids.len() && updates[i] && #[trigger] dag.has_edge(a, ids[i]@) implies a
                == parent || exists|j: int, k: int|
                0 <= j < ids.len() && 0 <= k < deps[j]@.len() && ids[j]@ == ids[i]@ && a
                    == #[trigger] deps[j]@[k]@ by {
            assert(dag.edge_set().contains((a, ids[i]@)));
            assert(updated_target(ids, updates, ids[i]@));
            assert(ids.map_values(|x: String| x@)[i] == ids[i]@);
            assert(id_set(ids).contains(ids[i]@));
            if exists|j: int|
                0 <= j < ids.len() && links_to_parent(#[trigger] deps[j]@, parent) && ids[i]@
                    == ids[j]@ {
            }
        }
    }

/// The ids of a batch of nodes.
pub open spec fn batch_ids(nodes: Seq<AgentNodeConfig>) -> Seq<Seq<char>> {
    nodes.map_values(|n: AgentNodeConfig| n.id@)
}

/// Resolves the ids of a batch, refuses a batch whose ids clash with the
/// parent or whose renamed ids are already nodes, and reads the declared
/// dependencies through the renamings.
fn resolve_batch(
    dag: &DAG,
    state: &RuntimeState,
    parent: &String,
    nodes: &Vec<AgentNodeConfig>,
    suffix: &str,
    child: bool,
) -> (r: Result<(Vec<String>, Vec<Vec<String>>, Vec<bool>), DAGError>)
    requires
        dag.wf(),
    ensures
        match r {
            Ok((ids, deps, updates)) => batch_views(*dag, *state, nodes@, suffix@, ids@, deps@, updates@)
                && !id_set(ids@).contains(parent@) && forall|i: int|
                0 <= i < ids@.len() && #[trigger] ids@[i]@ != nodes@[i].id@ ==> !dag.has_node(
                    ids@[i]@,
                ),
            Err(_) => forall|ids: Seq<String>, deps: Seq<Vec<String>>, updates: Seq<bool>|
                #[trigger] batch_views(*dag, *state, nodes@, suffix@, ids, deps, updates)
                    ==> !splice_allowed(*dag, parent@, nodes@, ids, deps, updates, child),
        },
{
    let ghost olds_v = batch_ids(nodes@);
    let mut olds: Vec<String> = Vec::new();
    let mut ids: Vec<String> = Vec::new();
    let mut updates: Vec<bool> = Vec::new();
    let mut i: usize = 0;
    while i < nodes.len()
        invariant
            dag.wf(),
            i <= nodes@.len(),
            olds@.len() == i,
            ids@.len() == i,
            updates@.len() == i,
            forall|j: int| 0 <= j < i ==> #[trigger] olds@[j]@ == nodes@[j].id@,
            forall|j: int|
                0 <= j < i ==> #[trigger] ids@[j]@ == resolved_id(*dag, *state, nodes@[j].id@, suffix@),
            forall|j: int|
                0 <= j < i ==> #[trigger] updates@[j] == (dag.has_node(nodes@[j].id@) && is_pending(
                    *state,
                    nodes@[j].id@,
                )),
        decreases nodes@.len() - i,
    {
        let id = resolve_id(dag, state, &nodes[i].id, suffix);
        let upd = dag.contains_node(nodes[i].id.as_str()) && id == nodes[i].id;
        proof {
            reveal_strlit("_");
            let x = nodes@[i as int].id@;
            if dag.has_node(x) && !is_pending(*state, x) {
                assert((x + "_"@ + suffix@).len() > x.len());
            }
        }
        olds.push(nodes[i].id.clone());
        ids.push(id);
        updates.push(upd);
        i = i + 1;
    }
    let ghost news_v = ids@.map_values(|s: String| s@);
    proof {
        assert(olds@.map_values(|s: String| s@) =~= olds_v);
    }
    if contains_id(&ids, parent) {
        proof {
            assert forall|ids2: Seq<String>, deps2: Seq<Vec<String>>, upd2: Seq<bool>|
                #[trigger] batch_views(*dag, *state, nodes@, suffix@, ids2, deps2, upd2) implies !splice_allowed(
                *dag,
                parent@,
                nodes@,
                ids2,
                deps2,
                upd2,
                child,
            ) by {
                assert(ids2.map_values(|x: String| x@) =~= ids@.map_values(|x: String| x@));
            }
        }
        return Err(DAGError::InvalidNode(parent.clone()));
    }
    let mut i: usize = 0;
    while i < ids.len()
        invariant
            dag.wf(),
            ids@.len() == nodes@.len(),
            i <= ids@.len(),
            forall|j: int|
                0 <= j < i && #[trigger] ids@[j]@ != nodes@[j].id@ ==> !dag.has_node(ids@[j]@),
            forall|j: int|
                0 <= j < ids@.len() ==> #[trigger] ids@[j]@ == resolved_id(
                    *dag,
                    *state,
                    nodes@[j].id@,
                    suffix@,
                ),
        decreases ids@.len() - i,
    {
        if ids[i] != nodes[i].id && dag.contains_node(ids[i].as_str()) {
            proof {
                assert forall|ids2: Seq<String>, deps2: Seq<Vec<String>>, upd2: Seq<bool>|
                    #[trigger] batch_views(*dag, *state, nodes@, suffix@, ids2, deps2, upd2) implies !splice_allowed(
                    *dag,
                    parent@,
                    nodes@,
                    ids2,
                    deps2,
                    upd2,
                    child,
                ) by {
                    assert(ids2[i as int]@ == ids@[i as int]@);
                }
            }
            return Err(DAGError::InvalidNode(ids[i].clone()));
        }
        i = i + 1;
    }
    let mut deps: Vec<Vec<String>> = Vec::new();
    let mut i: usize = 0;
    while i < nodes.len()
        invariant
            olds@.len() == nodes@.len(),
            ids@.len() == nodes@.len(),
            olds@.map_values(|s: String| s@) == olds_v,
            ids@.map_values(|s: String| s@) == news_v,
            i <= nodes@.len(),
            deps@.len() == i,
            forall|j: int| 0 <= j < i ==> (#[trigger] deps@[j])@.len() == nodes@[j].depends_on@.len(),
            forall|j: int, k: int|
                0 <= j < i && 0 <= k < deps@[j]@.len() ==> #[trigger] deps@[j]@[k]@ == remap(
                    olds_v,
                    news_v,
                    nodes@[j].depends_on@[k]@,
                ),
        decreases nodes@.len() - i,
    {
        let mut di: Vec<String> = Vec::new();
        let mut k: usize = 0;
        while k < nodes[i].depends_on.len()
            invariant
                olds@.len() == nodes@.len(),
                ids@.len() == nodes@.len(),
                olds@.map_values(|s: String| s@) == olds_v,
                ids@.map_values(|s: String| s@) == news_v,
                i < nodes@.len(),
                k <= nodes@[i as int].depends_on@.len(),
                di@.len() == k,
                forall|kk: int|
                    0 <= kk < k ==> #[trigger] di@[kk]@ == remap(
                        olds_v,
                        news_v,
                        nodes@[i as int].depends_on@[kk]@,
                    ),
            decreases nodes@[i as int].depends_on@.len() - k,
        {
            di.push(remap_dep(&olds, &ids, &nodes[i].depends_on[k]));
            k = k + 1;
        }
        let ghost deps0 = deps@;
        deps.push(di);
        proof {
            assert forall|j: int| 0 <= j < i implies deps@[j] == deps0[j] by {}
        }
        i = i + 1;
    }
    proof {
        assert(batch_views(*dag, *state, nodes@, suffix@, ids@, deps@, updates@));
    }
    Ok((ids, deps, updates))
}

/// Some configuration has this id, the prompt of `node` and the
/// dependencies `deps`.
pub open spec fn holds_config(
    agents: Seq<AgentNodeConfig>,
    id: Seq<char>,
    node: AgentNodeConfig,
    deps: Seq<String>,
) -> bool {
    exists|j: int|
        0 <= j < agents.len() && agents[j].id@ == id && agents[j].prompt == node.prompt
            && agents[j].depends_on@ == deps
}

/// Rewrites the configurations: under the child strategy the moved
/// dependents wait on the new nodes instead of the parent; each new node's
/// configuration replaces the pending one of its id, or is added.
fn rewrite_configs(
    agents: &mut Vec<AgentNodeConfig>,
    parent: &String,
    nodes: &Vec<AgentNodeConfig>,
    ids: &Vec<String>,
    deps: &Vec<Vec<String>>,
    updates: &Vec<bool>,
    children: &Vec<String>,
    child: bool,
)
    requires
        ids@.len() == nodes@.len(),
        deps@.len() == nodes@.len(),
        updates@.len() == nodes@.len(),
        id_set(children@).disjoint(id_set(ids@)),
    ensures
        child ==> forall|j: int|
            0 <= j < old(agents)@.len() && #[trigger] id_set(children@).contains(old(agents)@[j].id@)
                ==> final(agents)@[j].id == old(agents)@[j].id && id_set(final(agents)@[j].depends_on@)
                == id_set(old(agents)@[j].depends_on@).remove(parent@).union(id_set(ids@)),
        forall|i: int| 0 <= i < ids@.len() ==> batch_ids(final(agents)@).contains(#[trigger] ids@[i]@),
        forall|i: int|
            0 <= i < ids@.len() && (forall|j: int| i < j < ids@.len() ==> ids@[j]@ != ids@[i]@)
                ==> #[trigger] holds_config(final(agents)@, ids@[i]@, nodes@[i], deps@[i]@),
{
    // The configurations: the moved dependents wait on the new nodes, and the
    // new nodes' configurations are added or replace a pending one.
    let ghost agents0 = agents@;
    if child {
        let mut j: usize = 0;
        while j < agents.len()
            invariant
                agents@.len() == agents0.len(),
                j <= agents@.len(),
                forall|jj: int| j <= jj < agents@.len() ==> agents@[jj] == agents0[jj],
                forall|jj: int|
                    0 <= jj < j && #[trigger] id_set(children@).contains(agents0[jj].id@)
                        ==> agents@[jj].id == agents0[jj].id && id_set(agents@[jj].depends_on@)
                        == id_set(agents0[jj].depends_on@).remove(parent@).union(id_set(ids@)),
                forall|jj: int|
                    0 <= jj < j && !id_set(children@).contains(#[trigger] agents0[jj].id@)
                        ==> agents@[jj] == agents0[jj],
            decreases agents@.len() - j,
        {
            if contains_id(&children, &agents[j].id) {
                let mut d = remove_id(&agents[j].depends_on, parent);
                let mut k: usize = 0;
                proof {
                    assert(id_set(ids@.subrange(0, 0)) =~= Set::<Seq<char>>::empty());
                    assert(id_set(d@) =~= id_set(agents0[j as int].depends_on@).remove(parent@).union(
                        id_set(ids@.subrange(0, 0)),
                    ));
                }
                while k < ids.len()
                    invariant
                        k <= ids@.len(),
                        j < agents0.len(),
                        id_set(d@) == id_set(agents0[j as int].depends_on@).remove(parent@).union(
                            id_set(ids@.subrange(0, k as int)),
                        ),
                    decreases ids@.len() - k,
                {
                    proof {
                        assert(ids@.subrange(0, k + 1) =~= ids@.subrange(0, k as int).push(
                            ids@[k as int],
                        ));
                        lemma_id_set_push(ids@.subrange(0, k as int), ids@[k as int]);
                    }
                    push_unique(&mut d, ids[k].clone());
                    proof {
                        assert(id_set(d@) =~= id_set(agents0[j as int].depends_on@).remove(
                            parent@,
                        ).union(id_set(ids@.subrange(0, k + 1))));
                    }
                    k = k + 1;
                }
                proof {
                    assert(ids@.subrange(0, ids@.len() as int) =~= ids@);
                }
                let ghost a0 = agents@;
                agents[j].depends_on = d;
                proof {
                    assert forall|jj: int| 0 <= jj < agents@.len() && jj != j implies agents@[jj]
                        == a0[jj] by {}
                }
            }
            j = j + 1;
        }
    }
    let ghost agents1 = agents@;
    let mut i: usize = 0;
    while i < nodes.len()
        invariant
            deps@.len() == nodes@.len(),
            ids@.len() == nodes@.len(),
            updates@.len() == nodes@.len(),
            i <= nodes@.len(),
            agents@.len() >= agents1.len(),
            forall|jj: int|
                0 <= jj < agents1.len() && !id_set(ids@).contains(#[trigger] agents1[jj].id@)
                    ==> agents@[jj] == agents1[jj],
            forall|ii: int|
                0 <= ii < i ==> exists|j: int|
                    0 <= j < agents@.len() && #[trigger] agents@[j].id@ == #[trigger] ids@[ii]@,
            forall|ii: int|
                0 <= ii < i && (forall|jj: int| ii < jj < i ==> ids@[jj]@ != ids@[ii]@)
                    ==> #[trigger] holds_config(agents@, ids@[ii]@, nodes@[ii], deps@[ii]@),
        decreases nodes@.len() - i,
    {
        let ghost agents_before = agents@;
        let n = &nodes[i];
        let cfg = AgentNodeConfig {
            id: ids[i].clone(),
            role: n.role,
            model: n.model,
            tools: copy_ids(&n.tools),
            input_schema: n.input_schema.clone(),
            output_schema: n.output_schema.clone(),
            cache_policy: n.cache_policy.clone(),
            depends_on: copy_ids(&deps[i]),
            prompt: n.prompt.clone(),
            allow_delegation: n.allow_delegation,
            user_directive: n.user_directive.clone(),
        };
        let mut slot: Option<usize> = None;
        if updates[i] {
            let mut j: usize = 0;
            while j < agents.len() && slot.is_none()
                invariant
                    agents@ == agents_before,
                    j <= agents@.len(),
                    ids@.len() == nodes@.len(),
                    i < ids@.len(),
                    match slot {
                        Some(x) => x < agents@.len() && agents@[x as int].id@ == ids@[i as int]@,
                        None => true,
                    },
                decreases agents@.len() - j + if slot is None {
                    1int
                } else {
                    0int
                },
            {
                if agents[j].id == ids[i] {
                    slot = Some(j);
                } else {
                    j = j + 1;
                }
            }
        }
        match slot {
            Some(j) => {
                proof {
                    assert(ids@.map_values(|s: String| s@)[i as int] == ids@[i as int]@);
                    assert(id_set(ids@).contains(ids@[i as int]@));
                }
                agents.set(j, cfg);
                proof {
                    assert(agents@[j as int].id@ == ids@[i as int]@);
                    assert forall|jj: int|
                        0 <= jj < agents1.len() && !id_set(ids@).contains(
                            #[trigger] agents1[jj].id@,
                        ) implies agents@[jj] == agents1[jj] by {
                        assert(agents_before[jj] == agents1[jj]);
                        if jj == j {
                            assert(id_set(ids@).contains(agents_before[jj].id@));
                        }
                    }
                    assert forall|jj: int| 0 <= jj < agents_before.len() implies agents@[jj].id@
                        == agents_before[jj].id@ by {}
                }
            },
            None => {
                agents.push(cfg);
                proof {
                    assert(agents@[agents_before.len() as int].id@ == ids@[i as int]@);
                    assert forall|jj: int| 0 <= jj < agents_before.len() implies agents@[jj].id@
                        == agents_before[jj].id@ by {}
                }
            },
        }
        proof {
            let w = match slot {
                Some(x) => x as int,
                None => agents_before.len() as int,
            };
            assert(agents@[w].id@ == ids@[i as int]@ && agents@[w].prompt == nodes@[i as int].prompt
                && agents@[w].depends_on@ == deps@[i as int]@);
            assert(holds_config(agents@, ids@[i as int]@, nodes@[i as int], deps@[i as int]@));
            assert forall|ii: int|
                0 <= ii < i + 1 && (forall|jj: int| ii < jj < i + 1 ==> ids@[jj]@ != ids@[ii]@)
                    implies #[trigger] holds_config(agents@, ids@[ii]@, nodes@[ii], deps@[ii]@) by {
                if ii < i {
                    assert(ids@[i as int]@ != ids@[ii]@);
                    assert(holds_config(agents_before, ids@[ii]@, nodes@[ii], deps@[ii]@));
                    let j = choose|j: int|
                        0 <= j < agents_before.len() && agents_before[j].id@ == ids@[ii]@
                            && agents_before[j].prompt == nodes@[ii].prompt
                            && agents_before[j].depends_on@ == deps@[ii]@;
                    assert(j != w);
                    assert(agents@[j] == agents_before[j]);
                }
            }
            assert forall|ii: int| 0 <= ii < i + 1 implies exists|j: int|
                0 <= j < agents@.len() && #[trigger] agents@[j].id@ == #[trigger] ids@[ii]@ by {
                if ii < i {
                    let j = choose|j: int|
                        0 <= j < agents_before.len() && #[trigger] agents_before[j].id@
                            == #[trigger] ids@[ii]@;
                    assert(agents@[j].id@ == ids@[ii]@);
                } else {
                    let w = match slot {
                        Some(x) => x as int,
                        None => agents_before.len() as int,
                    };
                    assert(agents@[w].id@ == ids@[ii]@);
                }
            }
        }
        i = i + 1;
    }
    proof {
        assert forall|jj: int|
            0 <= jj < agents0.len() && #[trigger] id_set(children@).contains(agents0[jj].id@)
                implies !id_set(ids@).contains(agents1[jj].id@) by {
            assert(agents1[jj].id == agents0[jj].id);
        }
    }
    proof {
        assert forall|k: int| 0 <= k < ids@.len() implies batch_ids(agents@).contains(
            #[trigger] ids@[k]@,
        ) by {
            let j = choose|j: int|
                0 <= j < agents@.len() && #[trigger] agents@[j].id@ == #[trigger] ids@[k]@;
            assert(batch_ids(agents@)[j] == ids@[k]@);
        }
    }
}


/// Splices the nodes of a delegation into the run: resolves id collisions
/// (a pending node of the same id is replaced and loses its incoming edges;
/// a started one keeps its id and the incoming node is renamed
/// `{id}_{suffix}`), reads dependencies through the renamings, adds the
/// nodes and their edges, links each node that declares no other parent to
/// the delegating node, and under the child strategy moves the delegating
/// node's dependents behind the new nodes, in the graph and in their
/// configurations. The new ids are returned.
#[verifier::rlimit(100)]
pub fn splice_delegation(
    dag: &mut DAG,
    agents: &mut Vec<AgentNodeConfig>,
    state: &RuntimeState,
    parent: &String,
    request: &DelegationRequest,
    suffix: &str,
) -> (r: Result<Splice, DAGError>)
    requires
        old(dag).wf(),
        old(dag).has_node(parent@),
        !is_pending(*state, parent@),
    ensures
        final(dag).wf(),
        r is Ok ==> final(dag).node_set() == spliced_nodes(*old(dag), r->Ok_0.ids@),
        r is Ok ==> r->Ok_0.suffix@ == suffix@,
        r is Err ==> forall|ids: Seq<String>, deps: Seq<Vec<String>>, updates: Seq<bool>|
            #[trigger] batch_views(*old(dag), *state, request.new_nodes@, suffix@, ids, deps, updates)
                ==> !splice_allowed(
                *old(dag),
                parent@,
                request.new_nodes@,
                ids,
                deps,
                updates,
                request.strategy == DelegationStrategy::Child,
            ),
        r is Ok ==> batch_views(
            *old(dag),
            *state,
            request.new_nodes@,
            suffix@,
            r->Ok_0.ids@,
            r->Ok_0.deps@,
            r->Ok_0.replaced@,
        ) && splice_allowed(
            *old(dag),
            parent@,
            request.new_nodes@,
            r->Ok_0.ids@,
            r->Ok_0.deps@,
            r->Ok_0.replaced@,
            request.strategy == DelegationStrategy::Child,
        ) && final(dag).edge_set() == spliced_edges(
            *old(dag),
            parent@,
            r->Ok_0.ids@,
            r->Ok_0.deps@,
            r->Ok_0.replaced@,
            moved_kids(*old(dag), parent@, r->Ok_0.ids@, request.strategy == DelegationStrategy::Child),
            request.strategy == DelegationStrategy::Child,
        ),
        r is Ok ==> forall|k: int|
            #![trigger r->Ok_0.ids@[k]]
            0 <= k < r->Ok_0.ids@.len() && (forall|m: int|
                k < m < r->Ok_0.ids@.len() ==> r->Ok_0.ids@[m]@ != r->Ok_0.ids@[k]@) ==> holds_config(
                final(agents)@,
                r->Ok_0.ids@[k]@,
                request.new_nodes@[k],
                r->Ok_0.deps@[k]@,
            ),
        match r {
            Ok(sp) => {
                let ids = sp.ids;
                let olds = batch_ids(request.new_nodes@);
                let news = ids@.map_values(|s: String| s@);
                let child = request.strategy == DelegationStrategy::Child;
                let moved = old(dag).children(parent@).difference(id_set(ids@));
                &&& ids@.len() == request.new_nodes@.len()
                &&& forall|i: int|
                    0 <= i < ids@.len() ==> #[trigger] ids@[i]@ == resolved_id(
                        *old(dag),
                        *state,
                        request.new_nodes@[i].id@,
                        suffix@,
                    )
                &&& forall|i: int| 0 <= i < ids@.len() ==> final(dag).has_node(#[trigger] ids@[i]@)
                &&& forall|i: int, k: int|
                    0 <= i < ids@.len() && 0 <= k < request.new_nodes@[i].depends_on@.len()
                        ==> final(dag).has_edge(
                        remap(olds, news, #[trigger] request.new_nodes@[i].depends_on@[k]@),
                        ids@[i]@,
                    )
                &&& forall|i: int|
                    0 <= i < ids@.len() && (request.new_nodes@[i].depends_on@.len() == 0 || exists|
                        k: int,
                    |
                        0 <= k < request.new_nodes@[i].depends_on@.len() && remap(
                            olds,
                            news,
                            #[trigger] request.new_nodes@[i].depends_on@[k]@,
                        ) == parent@) ==> final(dag).has_edge(parent@, #[trigger] ids@[i]@)
                &&& child ==> forall|i: int, c: Seq<char>|
                    0 <= i < ids@.len() && #[trigger] moved.contains(c) ==> final(dag).has_edge(
                        #[trigger] ids@[i]@,
                        c,
                    ) && !final(dag).has_edge(parent@, c)
                &&& forall|i: int, a: Seq<char>|
                    0 <= i < ids@.len() && old(dag).has_node(request.new_nodes@[i].id@) && is_pending(
                        *state,
                        request.new_nodes@[i].id@,
                    ) && #[trigger] final(dag).has_edge(a, ids@[i]@) ==> a == parent@ || exists|
                        j: int,
                        k: int,
                    |
                        0 <= j < ids@.len() && 0 <= k < request.new_nodes@[j].depends_on@.len()
                            && ids@[j]@ == ids@[i]@ && a == remap(
                            olds,
                            news,
                            #[trigger] request.new_nodes@[j].depends_on@[k]@,
                        )
                &&& child ==> forall|j: int|
                    0 <= j < old(agents)@.len() && #[trigger] moved.contains(old(agents)@[j].id@)
                        ==> final(agents)@[j].id == old(agents)@[j].id && id_set(
                        final(agents)@[j].depends_on@,
                    ) == id_set(old(agents)@[j].depends_on@).remove(parent@).union(id_set(ids@))
            },
            Err(_) => true,
        },
        r is Ok ==> forall|i: int|
            0 <= i < r->Ok_0.ids@.len() ==> batch_ids(final(agents)@).contains(
                #[trigger] r->Ok_0.ids@[i]@,
            ),
{
    let nodes = &request.new_nodes;
    let ghost olds_v = batch_ids(nodes@);
    let child = request.strategy == DelegationStrategy::Child;
    let (ids, deps, updates) = match resolve_batch(dag, state, parent, nodes, suffix, child) {
        Ok(t) => t,
        Err(e) => {
            return Err(e);
        },
    };
    let ghost news_v = ids@.map_values(|s: String| s@);
    let children_all = match dag.get_dependents(parent.as_str()) {
        Some(v) => v,
        None => Vec::new(),
    };
    proof {
        assert(id_set(children_all@) =~= dag.children(parent@));
    }
    let children = if child {
        without_ids(&children_all, &ids)
    } else {
        Vec::new()
    };
    proof {
        if !child {
            assert(id_set(children@) =~= Set::<Seq<char>>::empty());
        }
    }
    proof {
        assert(id_set(children@).disjoint(id_set(ids@)));
    }
    rewrite_configs(agents, parent, nodes, &ids, &deps, &updates, &children, child);
    let ghost agents2 = agents@;
    let ghost kids = moved_kids(*old(dag), parent@, ids@, child);
    proof {
        old(dag).lemma_views();
        assert(id_set(children@) =~= kids);
        assert forall|c: int| 0 <= c < children@.len() implies old(dag).has_node(
            #[trigger] children@[c]@,
        ) by {
            assert(children@.map_values(|x: String| x@)[c] == children@[c]@);
            assert(id_set(children@).contains(children@[c]@));
        }
        assert(batch_views(*old(dag), *state, nodes@, suffix@, ids@, deps@, updates@));
    }
    match splice_graph(dag, parent, &ids, &deps, &updates, &children, child) {
        Ok(()) => {},
        Err(e) => {
            proof {
                assert(!splice_allowed(*old(dag), parent@, nodes@, ids@, deps@, updates@, child));
                assert forall|ids2: Seq<String>, deps2: Seq<Vec<String>>, upd2: Seq<bool>|
                    #[trigger] batch_views(*old(dag), *state, nodes@, suffix@, ids2, deps2, upd2) implies !splice_allowed(
                    *old(dag),
                    parent@,
                    nodes@,
                    ids2,
                    deps2,
                    upd2,
                    child,
                ) by {
                    lemma_splice_congruent(
                        *old(dag),
                        *state,
                        nodes@,
                        suffix@,
                        parent@,
                        child,
                        ids@,
                        deps@,
                        updates@,
                        ids2,
                        deps2,
                        upd2,
                    );
                }
            }
            return Err(e);
        },
    }
    match dag.topological_sort() {
        Ok(_) => {},
        Err(e) => {
            return Err(e);
        },
    }
    proof {
        dag.lemma_views();
        assert(splice_allowed(*old(dag), parent@, nodes@, ids@, deps@, updates@, child));
        assert(batch_views(*old(dag), *state, request.new_nodes@, suffix@, ids@, deps@, updates@)
            && splice_allowed(
            *old(dag),
            parent@,
            request.new_nodes@,
            ids@,
            deps@,
            updates@,
            request.strategy == DelegationStrategy::Child,
        ) && dag.edge_set() == spliced_edges(
            *old(dag),
            parent@,
            ids@,
            deps@,
            updates@,
            moved_kids(*old(dag), parent@, ids@, request.strategy == DelegationStrategy::Child),
            request.strategy == DelegationStrategy::Child,
        ));
        lemma_splice_facts(
            *old(dag),
            *dag,
            parent@,
            ids@,
            deps@,
            updates@,
            kids,
            child,
        );
    }
    proof {
        let moved = old(dag).children(parent@).difference(id_set(ids@));
        if child {
            assert(id_set(children@) =~= moved);
        }
        assert forall|i: int|
            0 <= i < ids@.len() && (request.new_nodes@[i].depends_on@.len() == 0 || exists|k: int|
                0 <= k < request.new_nodes@[i].depends_on@.len() && remap(
                    olds_v,
                    news_v,
                    #[trigger] request.new_nodes@[i].depends_on@[k]@,
                ) == parent@) implies links_to_parent(#[trigger] deps@[i]@, parent@) by {
            if request.new_nodes@[i].depends_on@.len() != 0 {
                let k = choose|k: int|
                    0 <= k < request.new_nodes@[i].depends_on@.len() && remap(
                        olds_v,
                        news_v,
                        #[trigger] request.new_nodes@[i].depends_on@[k]@,
                    ) == parent@;
                assert(deps@[i]@[k]@ == parent@);
                assert(deps@[i]@.map_values(|s: String| s@)[k] == parent@);
            }
        }
        assert forall|k: int| 0 <= k < ids@.len() implies batch_ids(agents@).contains(
            #[trigger] ids@[k]@,
        ) by {
            let j = choose|j: int|
                0 <= j < agents2.len() && #[trigger] agents2[j].id@ == #[trigger] ids@[k]@;
            assert(batch_ids(agents@)[j] == ids@[k]@);
        }
        assert forall|i: int, a: Seq<char>|
            0 <= i < ids@.len() && old(dag).has_node(request.new_nodes@[i].id@) && is_pending(
                *state,
                request.new_nodes@[i].id@,
            ) && #[trigger] dag.has_edge(a, ids@[i]@) implies a == parent@ || exists|j: int, k: int|
                0 <= j < ids@.len() && 0 <= k < request.new_nodes@[j].depends_on@.len() && ids@[j]@
                    == ids@[i]@ && a == remap(
                    olds_v,
                    news_v,
                    #[trigger] request.new_nodes@[j].depends_on@[k]@,
                ) by {
            assert(updates@[i]);
            if a != parent@ {
                let (j, k) = choose|j: int, k: int|
                    0 <= j < ids@.len() && 0 <= k < deps@[j]@.len() && ids@[j]@ == ids@[i]@ && a
                        == #[trigger] deps@[j]@[k]@;
                assert(deps@[j]@[k]@ == remap(olds_v, news_v, request.new_nodes@[j].depends_on@[k]@));
            }
        }
        assert forall|i: int, k: int|
            0 <= i < ids@.len() && 0 <= k < request.new_nodes@[i].depends_on@.len() implies dag.has_edge(
            remap(olds_v, news_v, #[trigger] request.new_nodes@[i].depends_on@[k]@),
            ids@[i]@,
        ) by {
            assert(deps@[i]@[k]@ == remap(olds_v, news_v, request.new_nodes@[i].depends_on@[k]@));
        }
        assert forall|i: int|
            0 <= i < ids@.len() && (request.new_nodes@[i].depends_on@.len() == 0 || exists|k: int|
                0 <= k < request.new_nodes@[i].depends_on@.len() && remap(
                    olds_v,
                    news_v,
                    #[trigger] request.new_nodes@[i].depends_on@[k]@,
                ) == parent@) implies dag.has_edge(parent@, #[trigger] ids@[i]@) by {
            assert(links_to_parent(deps@[i]@, parent@));
        }
    }
    Ok(Splice { suffix: suffix.to_owned(), ids, deps, replaced: updates })
}

} // verus!
