//! A mutable directed acyclic graph of node ids.
//!
//! Nodes are interned: each id is stored once, and edges are kept as
//! adjacency lists of indices. A ghost rank orders every edge strictly,
//! which is the witness that the graph never holds a cycle.
use vstd::prelude::*;

verus! {

/// Errors of graph construction and mutation.
#[derive(Debug)]
pub enum DAGError {
    CycleDetected,
    InvalidNode(String),
    DependencyNotFound(String),
    EdgeNotFound(String, String),
}

// ---------------------------------------------------------------------------
// Index-level graph theory over adjacency lists.
// ---------------------------------------------------------------------------

/// There is an edge from index `i` to index `j`.
pub open spec fn succ(g: Seq<Seq<usize>>, i: int, j: int) -> bool {
    0 <= i < g.len() && 0 <= j < g.len() && g[i].contains(j as usize)
}

/// There is a walk of exactly `k` edges from `i` to `j`.
pub open spec fn reach_n(g: Seq<Seq<usize>>, i: int, j: int, k: nat) -> bool
    decreases k,
{
    if k == 0 {
        0 <= i < g.len() && i == j
    } else {
        exists|m: int| #[trigger] succ(g, i, m) && reach_n(g, m, j, (k - 1) as nat)
    }
}

/// `j` can be reached from `i` by zero or more edges.
pub open spec fn reach(g: Seq<Seq<usize>>, i: int, j: int) -> bool {
    exists|k: nat| reach_n(g, i, j, k)
}

/// `rank` strictly increases along every edge.
pub open spec fn ranked(g: Seq<Seq<usize>>, rank: Seq<nat>) -> bool {
    &&& rank.len() == g.len()
    &&& forall|i: int, j: int| #[trigger] succ(g, i, j) ==> rank[i] < rank[j]
}

/// The number of `false` entries.
pub open spec fn count_false(v: Seq<bool>) -> nat
    decreases v.len(),
{
    if v.len() == 0 {
        0
    } else {
        count_false(v.drop_last()) + if v.last() {
            0nat
        } else {
            1nat
        }
    }
}

proof fn lemma_reach_extend(g: Seq<Seq<usize>>, i: int, j: int, m: int, k: nat)
    requires
        reach_n(g, i, j, k),
        succ(g, j, m),
    ensures
        reach_n(g, i, m, k + 1),
    decreases k,
{
    if k == 0 {
        assert(reach_n(g, m, m, 0));
        assert(succ(g, i, m) && reach_n(g, m, m, 0));
    } else {
        let w = choose|w: int| #[trigger] succ(g, i, w) && reach_n(g, w, j, (k - 1) as nat);
        lemma_reach_extend(g, w, j, m, (k - 1) as nat);
        assert(succ(g, i, w) && reach_n(g, w, m, k));
    }
}

proof fn lemma_reach_concat(g: Seq<Seq<usize>>, i: int, j: int, m: int, k1: nat, k2: nat)
    requires
        reach_n(g, i, j, k1),
        reach_n(g, j, m, k2),
    ensures
        reach_n(g, i, m, k1 + k2),
    decreases k1,
{
    if k1 > 0 {
        let w = choose|w: int| #[trigger] succ(g, i, w) && reach_n(g, w, j, (k1 - 1) as nat);
        lemma_reach_concat(g, w, j, m, (k1 - 1) as nat, k2);
        assert(succ(g, i, w) && reach_n(g, w, m, (k1 + k2 - 1) as nat));
    }
}

proof fn lemma_reach_rank(g: Seq<Seq<usize>>, rank: Seq<nat>, i: int, j: int, k: nat)
    requires
        ranked(g, rank),
        reach_n(g, i, j, k),
    ensures
        0 <= i < g.len(),
        0 <= j < g.len(),
        rank[i] + k <= rank[j],
    decreases k,
{
    if k > 0 {
        let w = choose|w: int| #[trigger] succ(g, i, w) && reach_n(g, w, j, (k - 1) as nat);
        lemma_reach_rank(g, rank, w, j, (k - 1) as nat);
    }
}

/// Everything reachable from a member of a successor-closed set is in it.
proof fn lemma_closed_reach(g: Seq<Seq<usize>>, vis: Seq<bool>, i: int, j: int, k: nat)
    requires
        vis.len() == g.len(),
        vis[i],
        forall|x: int, m: int| 0 <= x < g.len() && vis[x] && #[trigger] succ(g, x, m) ==> vis[m],
        reach_n(g, i, j, k),
    ensures
        vis[j],
    decreases k,
{
    if k > 0 {
        let w = choose|w: int| #[trigger] succ(g, i, w) && reach_n(g, w, j, (k - 1) as nat);
        lemma_closed_reach(g, vis, w, j, (k - 1) as nat);
    }
}

proof fn lemma_count_false_set(v: Seq<bool>, i: int)
    requires
        0 <= i < v.len(),
        !v[i],
    ensures
        count_false(v.update(i, true)) + 1 == count_false(v),
    decreases v.len(),
{
    if i == v.len() - 1 {
        assert(v.update(i, true).drop_last() =~= v.drop_last());
    } else {
        lemma_count_false_set(v.drop_last(), i);
        assert(v.update(i, true).drop_last() =~= v.drop_last().update(i, true));
    }
}

proof fn lemma_count_false_all(v: Seq<bool>)
    requires
        forall|i: int| 0 <= i < v.len() ==> !v[i],
    ensures
        count_false(v) == v.len(),
    decreases v.len(),
{
    if v.len() > 0 {
        lemma_count_false_all(v.drop_last());
    }
}

proof fn lemma_count_false_zero(v: Seq<bool>)
    requires
        count_false(v) == 0,
    ensures
        forall|i: int| 0 <= i < v.len() ==> v[i],
    decreases v.len(),
{
    if v.len() > 0 {
        lemma_count_false_zero(v.drop_last());
        assert forall|i: int| 0 <= i < v.len() implies v[i] by {
            if i < v.len() - 1 {
                assert(v.drop_last()[i] == v[i]);
            }
        }
    }
}

proof fn lemma_count_false_witness(v: Seq<bool>) -> (i: int)
    requires
        count_false(v) > 0,
    ensures
        0 <= i < v.len(),
        !v[i],
    decreases v.len(),
{
    if v.last() {
        let i = lemma_count_false_witness(v.drop_last());
        i
    } else {
        v.len() - 1
    }
}

/// A ranked graph has no node every member of which has a predecessor inside
/// a nonempty set: induction on the rank bound.
proof fn lemma_rank_floor(g: Seq<Seq<usize>>, rank: Seq<nat>, done: Seq<bool>, b: nat)
    requires
        ranked(g, rank),
        done.len() == g.len(),
        forall|x: int|
            0 <= x < g.len() && !done[x] ==> exists|p: int| #[trigger] succ(g, p, x) && !done[p],
    ensures
        forall|x: int| 0 <= x < g.len() && !done[x] ==> rank[x] >= b,
    decreases b,
{
    if b > 0 {
        lemma_rank_floor(g, rank, done, (b - 1) as nat);
        assert forall|x: int| 0 <= x < g.len() && !done[x] implies rank[x] >= b by {
            let p = choose|p: int| #[trigger] succ(g, p, x) && !done[p];
        }
    }
}

/// Inserting the edge `u -> v`, where `u` is not reachable from `v`, keeps a
/// ranking: everything reachable from `v` is lifted above `u`.
proof fn lemma_rank_after_insert(
    g: Seq<Seq<usize>>,
    g2: Seq<Seq<usize>>,
    rank: Seq<nat>,
    u: int,
    v: int,
) -> (r: Seq<nat>)
    requires
        ranked(g, rank),
        g2.len() == g.len(),
        0 <= u < g.len(),
        0 <= v < g.len(),
        !reach(g, v, u),
        forall|i: int, j: int| #[trigger] succ(g2, i, j) ==> succ(g, i, j) || (i == u && j == v),
    ensures
        ranked(g2, r),
{
    let r = Seq::new(
        rank.len(),
        |x: int|
            if reach(g, v, x) {
                rank[x] + rank[u] + 1
            } else {
                rank[x]
            },
    );
    assert(reach_n(g, v, v, 0));
    assert forall|i: int, j: int| #[trigger] succ(g2, i, j) implies r[i] < r[j] by {
        if succ(g, i, j) {
            if reach(g, v, i) {
                let k = choose|k: nat| reach_n(g, v, i, k);
                lemma_reach_extend(g, v, i, j, k);
                assert(reach(g, v, j));
            }
        }
    }
    r
}

fn all_false(n: usize) -> (v: Vec<bool>)
    ensures
        v@.len() == n,
        forall|i: int| 0 <= i < n ==> !v@[i],
{
    let mut v: Vec<bool> = Vec::new();
    let mut i: usize = 0;
    while i < n
        invariant
            i <= n,
            v@.len() == i,
            forall|j: int| 0 <= j < i ==> !v@[j],
        decreases n - i,
    {
        v.push(false);
        i = i + 1;
    }
    v
}

fn vec_has(v: &Vec<usize>, x: usize) -> (r: bool)
    ensures
        r == v@.contains(x),
{
    let mut i: usize = 0;
    while i < v.len()
        invariant
            i <= v@.len(),
            forall|j: int| 0 <= j < i ==> v@[j] != x,
        decreases v.len() - i,
    {
        if v[i] == x {
            return true;
        }
        i = i + 1;
    }
    false
}

/// `v` without the entry `x`.
fn without(v: &Vec<usize>, x: usize) -> (r: Vec<usize>)
    ensures
        forall|y: usize| r@.contains(y) == (v@.contains(y) && y != x),
        v@.no_duplicates() ==> r@.no_duplicates(),
{
    let mut r: Vec<usize> = Vec::new();
    let ghost mut src: Seq<int> = Seq::empty();
    let mut i: usize = 0;
    while i < v.len()
        invariant
            i <= v@.len(),
            src.len() == r@.len(),
            forall|t: int| 0 <= t < src.len() ==> 0 <= #[trigger] src[t] < i && r@[t] == v@[src[t]] && r@[t] != x,
            forall|t1: int, t2: int| 0 <= t1 < t2 < src.len() ==> src[t1] < src[t2],
            forall|j: int| 0 <= j < i && v@[j] != x ==> #[trigger] r@.contains(v@[j]),
        decreases v@.len() - i,
    {
        if v[i] != x {
            let ghost r0 = r@;
            r.push(v[i]);
            proof {
                src = src.push(i as int);
                assert(r@[r0.len() as int] == v@[i as int]);
                assert forall|j: int| 0 <= j < i && v@[j] != x implies #[trigger] r@.contains(v@[j]) by {
                    assert(r0.contains(v@[j]));
                    let t = choose|t: int| 0 <= t < r0.len() && r0[t] == v@[j];
                    assert(r@[t] == v@[j]);
                }
                assert(r@.contains(v@[i as int]));
            }
        }
        i = i + 1;
    }
    proof {
        assert forall|y: usize| r@.contains(y) == (v@.contains(y) && y != x) by {
            if r@.contains(y) {
                let t = choose|t: int| 0 <= t < r@.len() && r@[t] == y;
                assert(v@[src[t]] == y);
            }
            if v@.contains(y) && y != x {
                let j = choose|j: int| 0 <= j < v@.len() && v@[j] == y;
                assert(r@.contains(v@[j]));
            }
        }
        if v@.no_duplicates() {
            assert forall|p: int, q: int| 0 <= p < r@.len() && 0 <= q < r@.len() && p != q implies r@[p] != r@[q] by {
                assert(src[p] != src[q]);
            }
        }
    }
    r
}

// ---------------------------------------------------------------------------
// The graph.
// ---------------------------------------------------------------------------

/// A directed acyclic graph over string ids.
pub struct DAG {
    nodes: Vec<String>,
    adj: Vec<Vec<usize>>,
    rank: Ghost<Seq<nat>>,
}

impl DAG {
    /// The ids, in insertion order.
    pub closed spec fn ids(&self) -> Seq<Seq<char>> {
        self.nodes@.map_values(|s: String| s@)
    }

    /// The adjacency lists, as index sequences.
    pub closed spec fn adj_view(&self) -> Seq<Seq<usize>> {
        self.adj@.map_values(|v: Vec<usize>| v@)
    }

    /// The position of an id.
    pub closed spec fn idx(&self, a: Seq<char>) -> int {
        self.ids().index_of(a)
    }

    pub closed spec fn has_node(&self, a: Seq<char>) -> bool {
        self.ids().contains(a)
    }

    pub closed spec fn has_edge(&self, a: Seq<char>, b: Seq<char>) -> bool {
        &&& self.has_node(a)
        &&& self.has_node(b)
        &&& succ(self.adj_view(), self.idx(a), self.idx(b))
    }

    /// `b` is reachable from `a` by zero or more edges.
    pub closed spec fn reaches(&self, a: Seq<char>, b: Seq<char>) -> bool {
        &&& self.has_node(a)
        &&& self.has_node(b)
        &&& reach(self.adj_view(), self.idx(a), self.idx(b))
    }

    /// `b` is reachable from `a` by one or more edges.
    pub closed spec fn reaches_strictly(&self, a: Seq<char>, b: Seq<char>) -> bool {
        &&& self.has_node(a)
        &&& self.has_node(b)
        &&& exists|k: nat| k > 0 && reach_n(self.adj_view(), self.idx(a), self.idx(b), k)
    }

    pub closed spec fn node_set(&self) -> Set<Seq<char>> {
        self.ids().to_set()
    }

    pub closed spec fn edge_set(&self) -> Set<(Seq<char>, Seq<char>)> {
        Set::new(|e: (Seq<char>, Seq<char>)| self.has_edge(e.0, e.1))
    }

    /// The sources of the edges into `n`.
    pub open spec fn parents(&self, n: Seq<char>) -> Set<Seq<char>> {
        Set::new(|a: Seq<char>| self.has_edge(a, n))
    }

    /// The targets of the edges out of `n`.
    pub open spec fn children(&self, n: Seq<char>) -> Set<Seq<char>> {
        Set::new(|b: Seq<char>| self.has_edge(n, b))
    }

    pub closed spec fn wf(&self) -> bool {
        &&& self.nodes@.len() == self.adj@.len()
        &&& self.ids().no_duplicates()
        &&& forall|i: int, k: int|
            0 <= i < self.adj@.len() && 0 <= k < self.adj@[i]@.len() ==> #[trigger] self.adj@[i]@[k]
                < self.nodes@.len()
        &&& forall|i: int| 0 <= i < self.adj@.len() ==> (#[trigger] self.adj@[i])@.no_duplicates()
        &&& ranked(self.adj_view(), self.rank@)
    }

    proof fn lemma_idx(&self, i: int)
        requires
            self.wf(),
            0 <= i < self.nodes@.len(),
        ensures
            self.idx(self.ids()[i]) == i,
            self.has_node(self.ids()[i]),
    {
        let a = self.ids()[i];
        assert(self.ids().contains(a));
        let j = self.idx(a);
        assert(0 <= j < self.ids().len() && self.ids()[j] == a);
    }

    proof fn lemma_has_node(&self, a: Seq<char>)
        requires
            self.wf(),
            self.has_node(a),
        ensures
            0 <= self.idx(a) < self.nodes@.len(),
            self.ids()[self.idx(a)] == a,
    {
    }

    /// The node and edge sets hold exactly the nodes and edges.
    pub proof fn lemma_views(&self)
        ensures
            forall|a: Seq<char>| #[trigger] self.node_set().contains(a) == self.has_node(a),
            forall|a: Seq<char>, b: Seq<char>| #[trigger] self.edge_set().contains((a, b)) == self.has_edge(a, b),
            forall|a: Seq<char>, b: Seq<char>| #[trigger] self.has_edge(a, b) ==> self.has_node(a) && self.has_node(b),
    {
    }

    /// Creates an empty graph.
    pub fn new() -> (r: DAG)
        ensures
            r.wf(),
            r.node_set() == Set::<Seq<char>>::empty(),
            r.edge_set() == Set::<(Seq<char>, Seq<char>)>::empty(),
    {
        let r = DAG { nodes: Vec::new(), adj: Vec::new(), rank: Ghost(Seq::empty()) };
        assert(r.node_set() =~= Set::<Seq<char>>::empty());
        assert(r.edge_set() =~= Set::<(Seq<char>, Seq<char>)>::empty());
        r
    }

    /// The index of an id, if it is a node.
    fn find_index(&self, id: &str) -> (r: Option<usize>)
        requires
            self.wf(),
        ensures
            match r {
                Some(i) => i < self.nodes@.len() && self.ids()[i as int] == id@ && self.idx(id@)
                    == i && self.has_node(id@),
                None => !self.has_node(id@),
            },
    {
        let key: String = id.to_owned();
        let mut i: usize = 0;
        while i < self.nodes.len()
            invariant
                self.wf(),
                key@ == id@,
                i <= self.nodes@.len(),
                forall|j: int| 0 <= j < i ==> self.ids()[j] != id@,
            decreases self.nodes@.len() - i,
        {
            if self.nodes[i] == key {
                proof {
                    self.lemma_idx(i as int);
                }
                return Some(i);
            }
            i = i + 1;
        }
        None
    }
    /// Adds a node; adding an id that is already a node changes nothing.
    pub fn add_node(&mut self, node_id: String) -> (r: Result<(), DAGError>)
        requires
            old(self).wf(),
        ensures
            final(self).wf(),
            r is Ok,
            final(self).node_set() == old(self).node_set().insert(node_id@),
            final(self).edge_set() == old(self).edge_set(),
    {
        match self.find_index(node_id.as_str()) {
            Some(_) => {
                proof {
                    assert(self.node_set() =~= self.node_set().insert(node_id@));
                }
                Ok(())
            },
            None => {
                let ghost old_self = *self;
                let ghost n = self.nodes@.len();
                self.nodes.push(node_id);
                self.adj.push(Vec::new());
                self.rank = Ghost(self.rank@.push(0));
                let n_new = self.nodes.len();
                proof {
                    let g0 = old_self.adj_view();
                    let g1 = self.adj_view();
                    assert(self.ids() =~= old_self.ids().push(node_id@));
                    assert(g1 =~= g0.push(Seq::empty()));
                    assert forall|i: int, j: int| #[trigger] succ(g1, i, j) implies self.rank@[i]
                        < self.rank@[j] by {
                        if i == n {
                            assert(g1[i] =~= Seq::<usize>::empty());
                        }
                        let t = choose|t: int| 0 <= t < g1[i].len() && g1[i][t] == j as usize;
                        assert(g1[i] == g0[i]);
                        assert(old_self.adj@[i]@[t] < n);
                        assert(j < n_new);
                        assert(succ(g0, i, j));
                    }
                    assert(self.ids().no_duplicates());
                    assert forall|a: Seq<char>, b: Seq<char>|
                        self.has_edge(a, b) == old_self.has_edge(a, b) by {
                        if old_self.has_node(a) {
                            let i = old_self.idx(a);
                            old_self.lemma_idx(i);
                            self.lemma_idx(i);
                        }
                        if old_self.has_node(b) {
                            let j = old_self.idx(b);
                            old_self.lemma_idx(j);
                            self.lemma_idx(j);
                        }
                        if self.has_node(a) && !old_self.has_node(a) {
                            self.lemma_idx(n as int);
                        }
                        if self.has_node(b) && !old_self.has_node(b) {
                            self.lemma_idx(n as int);
                        }
                    }
                    assert forall|a: Seq<char>|
                        self.ids().contains(a) == (old_self.ids().contains(a) || a == node_id@) by {
                        if old_self.ids().contains(a) {
                            let i = choose|i: int| 0 <= i < n && old_self.ids()[i] == a;
                            assert(self.ids()[i] == a);
                        }
                        if a == node_id@ {
                            assert(self.ids()[n as int] == a);
                        }
                    }
                    assert(self.node_set() =~= old_self.node_set().insert(node_id@));
                    assert(self.edge_set() =~= old_self.edge_set());
                }
                Ok(())
            },
        }
    }

    /// Whether `target` is reachable from `current`, by a depth-first walk.
    fn has_path_dfs(&self, current: usize, target: usize) -> (r: bool)
        requires
            self.wf(),
            current < self.nodes@.len(),
            target < self.nodes@.len(),
        ensures
            r == reach(self.adj_view(), current as int, target as int),
    {
        let ghost g = self.adj_view();
        if current == target {
            proof {
                assert(reach_n(g, current as int, target as int, 0));
            }
            return true;
        }
        let n = self.nodes.len();
        let mut visited = all_false(n);
        proof {
            lemma_count_false_all(visited@);
            assert(reach_n(g, current as int, current as int, 0));
        }
        visited.set(current, true);
        let mut stack: Vec<usize> = Vec::new();
        stack.push(current);
        proof {
            assert(stack@[0] == current);
            assert forall|x: int| 0 <= x < n && visited@[x] implies x == current && stack@.contains(
                x as usize,
            ) by {}
        }
        while stack.len() > 0
            invariant
                visited@[current as int],
                self.wf(),
                g == self.adj_view(),
                n == self.nodes@.len(),
                g.len() == n,
                current < n,
                target < n,
                visited@.len() == n,
                !visited@[target as int],
                forall|x: int| 0 <= x < n && visited@[x] ==> reach(g, current as int, x),
                forall|t: int| 0 <= t < stack@.len() ==> stack@[t] < n && visited@[stack@[t] as int],
                forall|x: int, m: int|
                    0 <= x < n && visited@[x] && !stack@.contains(x as usize) && #[trigger] succ(
                        g,
                        x,
                        m,
                    ) ==> visited@[m],
            decreases 2 * count_false(visited@) + stack@.len(),
        {
            let ghost measure0 = 2 * count_false(visited@) + stack@.len();
            let ghost stack0 = stack@;
            let x = stack.pop().unwrap();
            proof {
                assert(stack0 =~= stack@.push(x));
            }
            let mut k: usize = 0;
            while k < self.adj[x].len()
                invariant
                    self.wf(),
                    g == self.adj_view(),
                    n == self.nodes@.len(),
                    g.len() == n,
                    x < n,
                    target < n,
                    visited@[current as int],
                    k <= self.adj@[x as int]@.len(),
                    visited@.len() == n,
                    visited@[x as int],
                    !visited@[target as int],
                    forall|y: int| 0 <= y < n && visited@[y] ==> reach(g, current as int, y),
                    forall|t: int|
                        0 <= t < stack@.len() ==> stack@[t] < n && visited@[stack@[t] as int],
                    forall|y: int, m: int|
                        0 <= y < n && y != x && visited@[y] && !stack@.contains(y as usize)
                            && #[trigger] succ(g, y, m) ==> visited@[m],
                    forall|t: int| 0 <= t < k ==> visited@[self.adj@[x as int]@[t] as int],
                    2 * count_false(visited@) + stack@.len() < measure0,
                decreases self.adj@[x as int]@.len() - k,
            {
                let m = self.adj[x][k];
                if !visited[m] {
                    proof {
                        assert(g[x as int][k as int] == m);
                        assert(succ(g, x as int, m as int));
                        let kk = choose|kk: nat| reach_n(g, current as int, x as int, kk);
                        lemma_reach_extend(g, current as int, x as int, m as int, kk);
                        assert(reach(g, current as int, m as int));
                    }
                    if m == target {
                        return true;
                    }
                    proof {
                        lemma_count_false_set(visited@, m as int);
                    }
                    let ghost stack1 = stack@;
                    visited.set(m, true);
                    stack.push(m);
                    proof {
                        assert forall|y: int| 0 <= y < n && stack1.contains(y as usize) implies
                            #[trigger] stack@.contains(y as usize) by {
                            let t = choose|t: int| 0 <= t < stack1.len() && stack1[t] == y as usize;
                            assert(stack@[t] == y as usize);
                        }
                        assert(stack@[stack1.len() as int] == m);
                        assert forall|y: int| 0 <= y < n && !stack1.contains(y as usize) implies
                            !(#[trigger] stack@.contains(y as usize)) || y == m by {
                            if stack@.contains(y as usize) {
                                let t = choose|t: int| 0 <= t < stack@.len() && stack@[t] == y as usize;
                                if t < stack1.len() {
                                    assert(stack1[t] == y as usize);
                                }
                            }
                        }
                    }
                }
                k = k + 1;
            }
            proof {
                assert forall|m: int| #[trigger] succ(g, x as int, m) implies visited@[m] by {
                    let t = choose|t: int| 0 <= t < g[x as int].len() && g[x as int][t] == m as usize;
                }
            }
        }
        proof {
            if reach(g, current as int, target as int) {
                let kk = choose|kk: nat| reach_n(g, current as int, target as int, kk);
                lemma_closed_reach(g, visited@, current as int, target as int, kk);
            }
        }
        false
    }

    /// Whether the edge `from -> to` would close a cycle: `from` is reachable
    /// from `to`.
    fn would_create_cycle(&self, from: usize, to: usize) -> (r: bool)
        requires
            self.wf(),
            from < self.nodes@.len(),
            to < self.nodes@.len(),
        ensures
            r == reach(self.adj_view(), to as int, from as int),
    {
        self.has_path_dfs(to, from)
    }

    /// Adds the edge `from -> to`. Both must be nodes, and the edge must not
    /// close a cycle; an edge that is already present is left as it is.
    pub fn add_edge(&mut self, from: String, to: String) -> (r: Result<(), DAGError>)
        requires
            old(self).wf(),
        ensures
            final(self).wf(),
            r is Ok <==> (old(self).has_node(from@) && old(self).has_node(to@) && !old(self).reaches(to@, from@)),
            r is Ok ==> final(self).node_set() == old(self).node_set() && final(self).edge_set()
                == old(self).edge_set().insert((from@, to@)),
            !old(self).has_node(from@) ==> r == Err::<(), DAGError>(DAGError::InvalidNode(from)),
            old(self).has_node(from@) && !old(self).has_node(to@) ==> r == Err::<(), DAGError>(
                DAGError::InvalidNode(to),
            ),
            old(self).has_node(from@) && old(self).has_node(to@) && old(self).reaches(to@, from@)
                ==> r == Err::<(), DAGError>(DAGError::CycleDetected),
            r is Err ==> *final(self) == *old(self),
    {
        let fi = match self.find_index(from.as_str()) {
            Some(i) => i,
            None => {
                return Err(DAGError::InvalidNode(from));
            },
        };
        let ti = match self.find_index(to.as_str()) {
            Some(i) => i,
            None => {
                return Err(DAGError::InvalidNode(to));
            },
        };
        if self.would_create_cycle(fi, ti) {
            return Err(DAGError::CycleDetected);
        }
        let ghost old_self = *self;
        let n_adj = self.adj.len();
        if !vec_has(&self.adj[fi], ti) {
            let ghost g0 = self.adj_view();
            self.adj[fi].push(ti);
            proof {
                let g1 = self.adj_view();
                assert(g1 =~= g0.update(fi as int, g0[fi as int].push(ti)));
                assert forall|i: int, j: int| #[trigger] succ(g1, i, j) implies succ(g0, i, j) || (
                i == fi && j == ti) by {
                    assert(j < n_adj);
                    if i == fi {
                        let t = choose|t: int| 0 <= t < g1[i].len() && g1[i][t] == j as usize;
                        if t < g0[i].len() {
                            assert(g0[i][t] == g1[i][t]);
                        }
                    } else {
                        assert(g1[i] == g0[i]);
                    }
                }
                let r = lemma_rank_after_insert(g0, g1, self.rank@, fi as int, ti as int);
                self.rank = Ghost(r);
                assert(g1[fi as int][g0[fi as int].len() as int] == ti);
                assert forall|i: int, j: int| succ(g0, i, j) || (i == fi && j == ti) implies #[trigger] succ(g1, i, j) by {
                    if succ(g0, i, j) {
                        let t = choose|t: int| 0 <= t < g0[i].len() && g0[i][t] == j as usize;
                        assert(g1[i][t] == j as usize);
                    }
                }
            }
        }
        proof {
            let g0 = old_self.adj_view();
            let g1 = self.adj_view();
            assert(self.ids() == old_self.ids());
            assert(succ(g1, fi as int, ti as int)) by {
                if g0[fi as int].contains(ti) {
                    let t = choose|t: int| 0 <= t < g0[fi as int].len() && g0[fi as int][t] == ti;
                    assert(g1[fi as int][t] == ti);
                }
            }
            assert forall|a: Seq<char>, b: Seq<char>|
                self.has_edge(a, b) == (old_self.has_edge(a, b) || (a == from@ && b == to@)) by {
                if self.has_node(a) && self.has_node(b) {
                    assert(succ(g1, self.idx(a), self.idx(b)) == (succ(g0, self.idx(a), self.idx(b)) || (self.idx(a) == fi && self.idx(b) == ti)));
                    if self.idx(a) == fi {
                        self.lemma_idx(fi as int);
                    }
                    if self.idx(b) == ti {
                        self.lemma_idx(ti as int);
                    }
                }
            }
            assert(self.edge_set() =~= old_self.edge_set().insert((from@, to@)));
        }
        Ok(())
    }
    /// `order` lists every node once, and no edge points backwards in it.
    pub open spec fn is_topological_order(&self, order: Seq<Seq<char>>) -> bool {
        &&& order.len() == self.node_set().len()
        &&& order.no_duplicates()
        &&& order.to_set() == self.node_set()
        &&& forall|p: int, q: int| 0 <= p < q < order.len() ==> !self.has_edge(order[q], order[p])
    }

    /// Whether every predecessor of index `x` is marked done.
    fn preds_done(&self, x: usize, done: &Vec<bool>) -> (r: bool)
        requires
            self.wf(),
            x < self.nodes@.len(),
            done@.len() == self.nodes@.len(),
        ensures
            r == forall|p: int| #[trigger] succ(self.adj_view(), p, x as int) ==> done@[p],
    {
        let ghost g = self.adj_view();
        let mut i: usize = 0;
        while i < self.adj.len()
            invariant
                self.wf(),
                g == self.adj_view(),
                x < self.nodes@.len(),
                done@.len() == self.nodes@.len(),
                i <= self.adj@.len(),
                forall|p: int| 0 <= p < i && #[trigger] succ(g, p, x as int) ==> done@[p],
            decreases self.adj@.len() - i,
        {
            if !done[i] && vec_has(&self.adj[i], x) {
                proof {
                    assert(succ(g, i as int, x as int));
                }
                return false;
            }
            i = i + 1;
        }
        true
    }

    /// The first index that is not done and whose predecessors all are.
    fn find_ready(&self, done: &Vec<bool>) -> (r: Option<usize>)
        requires
            self.wf(),
            done@.len() == self.nodes@.len(),
        ensures
            match r {
                Some(x) => x < self.nodes@.len() && !done@[x as int] && forall|p: int|
                    #[trigger] succ(self.adj_view(), p, x as int) ==> done@[p],
                None => forall|y: int|
                    0 <= y < self.nodes@.len() && !done@[y] ==> exists|p: int|
                        #[trigger] succ(self.adj_view(), p, y) && !done@[p],
            },
    {
        let mut x: usize = 0;
        while x < self.nodes.len()
            invariant
                self.wf(),
                done@.len() == self.nodes@.len(),
                x <= self.nodes@.len(),
                forall|y: int|
                    0 <= y < x && !done@[y] ==> exists|p: int|
                        #[trigger] succ(self.adj_view(), p, y) && !done@[p],
            decreases self.nodes@.len() - x,
        {
            if !done[x] && self.preds_done(x, done) {
                return Some(x);
            }
            x = x + 1;
        }
        None
    }

    /// A topological order of all nodes (Kahn's method: repeatedly take a
    /// node whose predecessors are all taken). A graph that is not acyclic
    /// yields `CycleDetected`; this type never holds one.
    pub fn topological_sort(&self) -> (r: Result<Vec<String>, DAGError>)
        requires
            self.wf(),
        ensures
            match r {
                Ok(order) => self.is_topological_order(order@.map_values(|s: String| s@)),
                Err(_) => false,
            },
    {
        let ghost g = self.adj_view();
        let n = self.nodes.len();
        let mut done = all_false(n);
        let mut order: Vec<usize> = Vec::new();
        proof {
            lemma_count_false_all(done@);
        }
        while order.len() < n
            invariant
                self.wf(),
                g == self.adj_view(),
                n == self.nodes@.len(),
                done@.len() == n,
                count_false(done@) + order@.len() == n,
                forall|t: int| 0 <= t < order@.len() ==> order@[t] < n && done@[order@[t] as int],
                forall|x: int| 0 <= x < n && done@[x] ==> order@.contains(x as usize),
                order@.no_duplicates(),
                forall|a: int, b: int| #[trigger] succ(g, a, b) && done@[b] ==> done@[a],
                forall|p: int, q: int|
                    0 <= p < q < order@.len() ==> !succ(g, order@[q] as int, order@[p] as int),
            decreases n - order@.len(),
        {
            match self.find_ready(&done) {
                Some(x) => {
                    proof {
                        lemma_count_false_set(done@, x as int);
                        assert(!order@.contains(x));
                    }
                    let ghost order0 = order@;
                    let ghost done0 = done@;
                    done.set(x, true);
                    order.push(x);
                    proof {
                        assert forall|t: int| 0 <= t < order@.len() implies order@[t] < n
                            && done@[order@[t] as int] by {
                            if t < order0.len() {
                                assert(order@[t] == order0[t]);
                            }
                        }
                        assert forall|y: int| 0 <= y < n && done@[y] implies order@.contains(
                            y as usize,
                        ) by {
                            if y == x {
                                assert(order@[order0.len() as int] == x);
                            } else {
                                let t = choose|t: int| 0 <= t < order0.len() && order0[t] == y as usize;
                                assert(order@[t] == y as usize);
                            }
                        }
                        assert forall|p: int, q: int|
                            0 <= p < q < order@.len() implies !succ(
                            g,
                            order@[q] as int,
                            order@[p] as int,
                        ) by {
                            if q == order0.len() {
                                assert(done0[order0[p] as int]);
                                if succ(g, x as int, order0[p] as int) {
                                    assert(done0[x as int]);
                                }
                            }
                        }
                    }
                },
                None => {
                    proof {
                        let w = lemma_count_false_witness(done@);
                        lemma_rank_floor(g, self.rank@, done@, self.rank@[w] + 1);
                    }
                    return Err(DAGError::CycleDetected);
                },
            }
        }
        proof {
            lemma_count_false_zero(done@);
            assert forall|y: int| 0 <= y < n implies #[trigger] order@.contains(y as usize) by {
                assert(done@[y]);
            }
        }
        let mut names: Vec<String> = Vec::new();
        let mut t: usize = 0;
        while t < n
            invariant
                self.wf(),
                n == self.nodes@.len(),
                order@.len() == n,
                forall|u: int| 0 <= u < n ==> order@[u] < n,
                forall|y: int| 0 <= y < n ==> #[trigger] order@.contains(y as usize),
                order@.no_duplicates(),
                t <= n,
                names@.len() == t,
                forall|u: int| 0 <= u < t ==> names@[u]@ == self.ids()[order@[u] as int],
            decreases n - t,
        {
            names.push(self.nodes[order[t]].clone());
            t = t + 1;
        }
        proof {
            let o = names@.map_values(|s: String| s@);
            assert forall|u: int| 0 <= u < n implies o[u] == self.ids()[order@[u] as int]
                && self.idx(o[u]) == order@[u] as int by {
                self.lemma_idx(order@[u] as int);
            }
            assert(o.no_duplicates()) by {
                assert forall|p: int, q: int| 0 <= p < n && 0 <= q < n && p != q implies o[p]
                    != o[q] by {
                    assert(order@[p] != order@[q]);
                }
            }
            assert forall|a: Seq<char>| o.contains(a) == self.ids().contains(a) by {
                if self.ids().contains(a) {
                    let i = choose|i: int| 0 <= i < n && self.ids()[i] == a;
                    assert(order@.contains(i as usize));
                    let u = choose|u: int| 0 <= u < n && order@[u] == i as usize;
                    assert(o[u] == a);
                }
                if o.contains(a) {
                    let u = choose|u: int| 0 <= u < n && o[u] == a;
                    assert(self.ids()[order@[u] as int] == a);
                }
            }
            assert(o.to_set() =~= self.node_set());
            self.ids().unique_seq_to_set();
            o.unique_seq_to_set();
        }
        Ok(names)
    }

    /// The nodes with an edge into `node_id`, each once.
    pub fn get_dependencies(&self, node_id: &str) -> (r: Vec<String>)
        requires
            self.wf(),
        ensures
            r@.map_values(|s: String| s@).no_duplicates(),
            r@.map_values(|s: String| s@).to_set() == self.parents(node_id@),
    {
        let mut deps: Vec<String> = Vec::new();
        let x = match self.find_index(node_id) {
            Some(x) => x,
            None => {
                proof {
                    assert(self.parents(node_id@) =~= Set::<Seq<char>>::empty());
                    assert(deps@.map_values(|s: String| s@) =~= Seq::<Seq<char>>::empty());
                }
                return deps;
            },
        };
        let ghost g = self.adj_view();
        let ghost mut idxs: Seq<int> = Seq::empty();
        let mut i: usize = 0;
        while i < self.nodes.len()
            invariant
                self.wf(),
                g == self.adj_view(),
                x < self.nodes@.len(),
                i <= self.nodes@.len(),
                idxs.len() == deps@.len(),
                forall|t: int|
                    0 <= t < idxs.len() ==> 0 <= #[trigger] idxs[t] < i && deps@[t]@ == self.ids()[idxs[t]]
                        && succ(g, idxs[t], x as int),
                forall|t1: int, t2: int| 0 <= t1 < t2 < idxs.len() ==> idxs[t1] < idxs[t2],
                forall|j: int| 0 <= j < i && #[trigger] succ(g, j, x as int) ==> idxs.contains(j),
            decreases self.nodes@.len() - i,
        {
            if vec_has(&self.adj[i], x) {
                deps.push(self.nodes[i].clone());
                proof {
                    let idxs0 = idxs;
                    idxs = idxs.push(i as int);
                    assert(idxs[idxs.len() - 1] == i);
                    assert forall|j: int| idxs0.contains(j) implies #[trigger] idxs.contains(j) by {
                        let t = choose|t: int| 0 <= t < idxs0.len() && idxs0[t] == j;
                        assert(idxs[t] == j);
                    }
                }
            }
            i = i + 1;
        }
        proof {
            let o = deps@.map_values(|s: String| s@);
            assert forall|p: int, q: int| 0 <= p < o.len() && 0 <= q < o.len() && p != q implies o[p]
                != o[q] by {
                assert(idxs[p] != idxs[q]);
            }
            assert forall|a: Seq<char>| o.contains(a) == self.has_edge(a, node_id@) by {
                if o.contains(a) {
                    let t = choose|t: int| 0 <= t < o.len() && o[t] == a;
                    self.lemma_idx(idxs[t]);
                }
                if self.has_edge(a, node_id@) {
                    let j = self.idx(a);
                    let t = choose|t: int| 0 <= t < idxs.len() && idxs[t] == j;
                    assert(o[t] == a);
                }
            }
            assert(o.to_set() =~= self.parents(node_id@));
        }
        deps
    }

    /// The targets of the edges out of `node_id`, each once; `None` where it
    /// is not a node or has no outgoing edge.
    pub fn get_dependents(&self, node_id: &str) -> (r: Option<Vec<String>>)
        requires
            self.wf(),
        ensures
            r is None <==> (!self.has_node(node_id@) || self.children(node_id@) == Set::<
                Seq<char>,
            >::empty()),
            match r {
                Some(v) => v@.map_values(|s: String| s@).no_duplicates() && v@.map_values(
                    |s: String| s@,
                ).to_set() == self.children(node_id@),
                None => true,
            },
    {
        let x = match self.find_index(node_id) {
            Some(x) => x,
            None => {
                return None;
            },
        };
        let ghost g = self.adj_view();
        let mut out: Vec<String> = Vec::new();
        let mut k: usize = 0;
        while k < self.adj[x].len()
            invariant
                self.wf(),
                g == self.adj_view(),
                x < self.nodes@.len(),
                k <= self.adj@[x as int]@.len(),
                out@.len() == k,
                forall|t: int| 0 <= t < k ==> out@[t]@ == self.ids()[g[x as int][t] as int],
            decreases self.adj@[x as int]@.len() - k,
        {
            let y = self.adj[x][k];
            out.push(self.nodes[y].clone());
            k = k + 1;
        }
        let n = self.nodes.len();
        proof {
            let o = out@.map_values(|s: String| s@);
            let row = g[x as int];
            assert forall|t: int| 0 <= t < o.len() implies o[t] == self.ids()[row[t] as int]
                && self.idx(o[t]) == row[t] as int by {
                self.lemma_idx(row[t] as int);
            }
            assert forall|p: int, q: int| 0 <= p < o.len() && 0 <= q < o.len() && p != q implies o[p]
                != o[q] by {
                assert(row[p] != row[q]);
            }
            assert forall|b: Seq<char>| o.contains(b) == self.has_edge(node_id@, b) by {
                if o.contains(b) {
                    let t = choose|t: int| 0 <= t < o.len() && o[t] == b;
                    assert(row.contains(row[t]));
                }
                if self.has_edge(node_id@, b) {
                    self.lemma_has_node(b);
                    let t = choose|t: int| 0 <= t < row.len() && row[t] == self.idx(b) as usize;
                    assert(self.idx(b) < n);
                    assert(row[t] as int == self.idx(b));
                    assert(o[t] == b);
                }
            }
            assert(o.to_set() =~= self.children(node_id@));
        }
        if out.len() == 0 {
            proof {
                assert(out@.map_values(|s: String| s@) =~= Seq::<Seq<char>>::empty());
                assert(self.children(node_id@) =~= Set::<Seq<char>>::empty());
            }
            return None;
        }
        proof {
            let o = out@.map_values(|s: String| s@);
            assert(o.to_set().contains(o[0]));
            assert(self.children(node_id@).contains(o[0]));
        }
        Some(out)
    }
    /// Replaces the row of `i` by a row with the same entries but `x`.
    fn drop_target(&mut self, i: usize, x: usize)
        requires
            old(self).wf(),
            i < old(self).nodes@.len(),
        ensures
            final(self).wf(),
            final(self).ids() == old(self).ids(),
            final(self).nodes@ == old(self).nodes@,
            final(self).adj@.len() == old(self).adj@.len(),
            forall|a: int, b: int|
                #[trigger] succ(final(self).adj_view(), a, b) == (succ(old(self).adj_view(), a, b)
                    && !(a == i && b == x)),
    {
        let ghost g0 = self.adj_view();
        let row = without(&self.adj[i], x);
        self.adj.set(i, row);
        let n_adj = self.adj.len();
        proof {
            let g1 = self.adj_view();
            assert forall|a: int, b: int| #[trigger] succ(g1, a, b) == (succ(g0, a, b) && !(a == i
                && b == x)) by {
                if 0 <= a < g1.len() && a != i {
                    assert(g1[a] == g0[a]);
                }
                if 0 <= b < g1.len() {
                    assert(b < n_adj);
                }
            }
            assert forall|a: int, k: int|
                0 <= a < self.adj@.len() && 0 <= k < self.adj@[a]@.len() implies #[trigger] self.adj@[a]@[k]
                < self.nodes@.len() by {
                if a == i {
                    assert(g1[a].contains(self.adj@[a]@[k]));
                    let t = choose|t: int| 0 <= t < g0[a].len() && g0[a][t] == self.adj@[a]@[k];
                }
            }
            assert forall|a: int, b: int| #[trigger] succ(g1, a, b) implies self.rank@[a] < self.rank@[b] by {
                assert(succ(g0, a, b));
            }
        }
    }

    /// Removes the edge `from -> to`; `EdgeNotFound` where it is absent.
    pub fn remove_edge(&mut self, from: &str, to: &str) -> (r: Result<(), DAGError>)
        requires
            old(self).wf(),
        ensures
            final(self).wf(),
            r is Ok <==> old(self).has_edge(from@, to@),
            r is Ok ==> final(self).node_set() == old(self).node_set() && final(self).edge_set()
                == old(self).edge_set().remove((from@, to@)),
            match r {
                Ok(_) => true,
                Err(DAGError::EdgeNotFound(a, b)) => a@ == from@ && b@ == to@ && *final(self)
                    == *old(self),
                Err(_) => false,
            },
    {
        let fi = self.find_index(from);
        let ti = self.find_index(to);
        if fi.is_none() || ti.is_none() {
            return Err(DAGError::EdgeNotFound(from.to_owned(), to.to_owned()));
        }
        let fi = fi.unwrap();
        let ti = ti.unwrap();
        if !vec_has(&self.adj[fi], ti) {
            return Err(DAGError::EdgeNotFound(from.to_owned(), to.to_owned()));
        }
        let ghost old_self = *self;
        self.drop_target(fi, ti);
        proof {
            assert forall|a: Seq<char>, b: Seq<char>|
                self.has_edge(a, b) == (old_self.has_edge(a, b) && !(a == from@ && b == to@)) by {
                if self.has_node(a) && self.has_node(b) {
                    self.lemma_has_node(a);
                    self.lemma_has_node(b);
                    if self.idx(a) == fi {
                        self.lemma_idx(fi as int);
                    }
                    if self.idx(b) == ti {
                        self.lemma_idx(ti as int);
                    }
                }
            }
            assert(self.edge_set() =~= old_self.edge_set().remove((from@, to@)));
        }
        Ok(())
    }

    /// Removes every edge whose target is `node_id`, and only those.
    pub fn clear_incoming_edges(&mut self, node_id: &str)
        requires
            old(self).wf(),
        ensures
            final(self).wf(),
            final(self).node_set() == old(self).node_set(),
            final(self).edge_set() == old(self).edge_set().filter(
                |e: (Seq<char>, Seq<char>)| e.1 != node_id@,
            ),
    {
        let x = match self.find_index(node_id) {
            Some(x) => x,
            None => {
                proof {
                    assert(self.edge_set() =~= self.edge_set().filter(
                        |e: (Seq<char>, Seq<char>)| e.1 != node_id@,
                    ));
                }
                return;
            },
        };
        let ghost old_self = *self;
        let ghost g0 = self.adj_view();
        let mut i: usize = 0;
        while i < self.adj.len()
            invariant
                self.wf(),
                self.ids() == old_self.ids(),
                x < self.nodes@.len(),
                i <= self.adj@.len(),
                g0.len() == self.adj@.len(),
                forall|a: int, b: int|
                    #[trigger] succ(self.adj_view(), a, b) == (succ(g0, a, b) && !(a < i && b == x)),
            decreases self.adj@.len() - i,
        {
            let ghost g1 = self.adj_view();
            self.drop_target(i, x);
            proof {
                assert forall|a: int, b: int|
                    #[trigger] succ(self.adj_view(), a, b) == (succ(g0, a, b) && !(a < i + 1 && b == x)) by {
                    assert(succ(self.adj_view(), a, b) == (succ(g1, a, b) && !(a == i && b == x)));
                }
            }
            i = i + 1;
        }
        proof {
            assert forall|a: Seq<char>, b: Seq<char>|
                self.has_edge(a, b) == (old_self.has_edge(a, b) && b != node_id@) by {
                if self.has_node(b) {
                    self.lemma_has_node(b);
                    if self.idx(b) == x {
                        self.lemma_idx(x as int);
                    }
                }
            }
            assert(self.edge_set() =~= old_self.edge_set().filter(
                |e: (Seq<char>, Seq<char>)| e.1 != node_id@,
            ));
        }
    }

    /// Whether `node_id` is a node.
    pub fn contains_node(&self, node_id: &str) -> (r: bool)
        requires
            self.wf(),
        ensures
            r == self.has_node(node_id@),
    {
        self.find_index(node_id).is_some()
    }

    /// The edges, as pairs of ids.
    pub fn export_edges(&self) -> (r: Vec<(String, String)>)
        requires
            self.wf(),
        ensures
            forall|a: Seq<char>, b: Seq<char>|
                r@.map_values(|e: (String, String)| (e.0@, e.1@)).contains((a, b)) <==> self.has_edge(
                    a,
                    b,
                ),
    {
        let ghost g = self.adj_view();
        let ghost mut src: Seq<(int, int)> = Seq::empty();
        let mut out: Vec<(String, String)> = Vec::new();
        let mut i: usize = 0;
        while i < self.nodes.len()
            invariant
                self.wf(),
                g == self.adj_view(),
                i <= self.nodes@.len(),
                src.len() == out@.len(),
                forall|t: int|
                    0 <= t < src.len() ==> succ(g, (#[trigger] src[t]).0, src[t].1) && out@[t].0@
                        == self.ids()[src[t].0] && out@[t].1@ == self.ids()[src[t].1],
                forall|x: int, y: int| 0 <= x < i && #[trigger] succ(g, x, y) ==> src.contains((x, y)),
            decreases self.nodes@.len() - i,
        {
            let mut k: usize = 0;
            while k < self.adj[i].len()
                invariant
                    self.wf(),
                    g == self.adj_view(),
                    i < self.nodes@.len(),
                    k <= self.adj@[i as int]@.len(),
                    src.len() == out@.len(),
                    forall|t: int|
                        0 <= t < src.len() ==> succ(g, (#[trigger] src[t]).0, src[t].1) && out@[t].0@
                            == self.ids()[src[t].0] && out@[t].1@ == self.ids()[src[t].1],
                    forall|x: int, y: int|
                        0 <= x < i && #[trigger] succ(g, x, y) ==> src.contains((x, y)),
                    forall|kk: int|
                        0 <= kk < k ==> src.contains((i as int, #[trigger] g[i as int][kk] as int)),
                decreases self.adj@[i as int]@.len() - k,
            {
                let j = self.adj[i][k];
                out.push((self.nodes[i].clone(), self.nodes[j].clone()));
                proof {
                    assert(g[i as int][k as int] == j);
                    assert(succ(g, i as int, j as int));
                    let src0 = src;
                    src = src.push((i as int, j as int));
                    assert forall|p: (int, int)| src0.contains(p) implies #[trigger] src.contains(p) by {
                        let t = choose|t: int| 0 <= t < src0.len() && src0[t] == p;
                        assert(src[t] == p);
                    }
                    assert(src[src0.len() as int] == (i as int, j as int));
                }
                k = k + 1;
            }
            proof {
                assert forall|x: int, y: int| 0 <= x < i + 1 && #[trigger] succ(g, x, y) implies src.contains(
                    (x, y),
                ) by {
                    if x == i {
                        let kk = choose|kk: int| 0 <= kk < g[x].len() && g[x][kk] == y as usize;
                        assert(g[i as int][kk] as int == y);
                    }
                }
            }
            i = i + 1;
        }
        proof {
            let m = out@.map_values(|e: (String, String)| (e.0@, e.1@));
            assert forall|a: Seq<char>, b: Seq<char>| m.contains((a, b)) <==> self.has_edge(a, b) by {
                if m.contains((a, b)) {
                    let t = choose|t: int| 0 <= t < m.len() && m[t] == (a, b);
                    assert(succ(g, src[t].0, src[t].1));
                    self.lemma_idx(src[t].0);
                    self.lemma_idx(src[t].1);
                }
                if self.has_edge(a, b) {
                    self.lemma_has_node(a);
                    self.lemma_has_node(b);
                    assert(succ(g, self.idx(a), self.idx(b)));
                    let t = choose|t: int| 0 <= t < src.len() && src[t] == (self.idx(a), self.idx(b));
                    assert(m[t] == (a, b));
                }
            }
        }
        out
    }

    /// The node ids, each once.
    pub fn export_nodes(&self) -> (r: Vec<String>)
        requires
            self.wf(),
        ensures
            r@.map_values(|s: String| s@).no_duplicates(),
            r@.map_values(|s: String| s@).to_set() == self.node_set(),
    {
        let r = self.nodes.clone();
        proof {
            assert(r@.map_values(|s: String| s@) =~= self.ids());
        }
        r
    }
}

// ---------------------------------------------------------------------------
// Laws of the graph.
// ---------------------------------------------------------------------------

/// A well-formed graph is acyclic: no node reaches itself by one or more
/// edges. Every operation keeps a graph well-formed, so this holds after any
/// sequence of them, and `topological_sort` then returns all nodes.
pub proof fn lemma_wf_acyclic(g: DAG, a: Seq<char>)
    requires
        g.wf(),
    ensures
        !g.reaches_strictly(a, a),
{
    if g.reaches_strictly(a, a) {
        let k = choose|k: nat| k > 0 && reach_n(g.adj_view(), g.idx(a), g.idx(a), k);
        lemma_reach_rank(g.adj_view(), g.rank@, g.idx(a), g.idx(a), k);
    }
}

/// A graph that has a topological order is acyclic.
pub proof fn lemma_topological_order_acyclic(g: DAG, order: Seq<Seq<char>>, a: Seq<char>)
    requires
        g.wf(),
        g.is_topological_order(order),
    ensures
        !g.reaches_strictly(a, a),
{
    lemma_wf_acyclic(g, a);
}

/// Adding an edge a second time succeeds and leaves the graph as the first
/// addition left it.
pub proof fn lemma_add_edge_idempotent(g0: DAG, g1: DAG, u: Seq<char>, v: Seq<char>)
    requires
        g0.wf(),
        g1.wf(),
        g0.has_node(u),
        g0.has_node(v),
        g1.node_set() == g0.node_set(),
        g1.edge_set() == g0.edge_set().insert((u, v)),
    ensures
        g1.has_node(u) && g1.has_node(v) && !g1.reaches(v, u),
        g1.edge_set().insert((u, v)) == g1.edge_set(),
{
    assert(g0.node_set().contains(u));
    assert(g0.node_set().contains(v));
    assert(g1.node_set().contains(u));
    assert(g1.node_set().contains(v));
    assert(g1.edge_set().contains((u, v)));
    assert(g1.has_edge(u, v));
    if g1.reaches(v, u) {
        let gg = g1.adj_view();
        let k = choose|k: nat| reach_n(gg, g1.idx(v), g1.idx(u), k);
        lemma_reach_extend(gg, g1.idx(v), g1.idx(u), g1.idx(v), k);
        lemma_reach_rank(gg, g1.rank@, g1.idx(v), g1.idx(v), k + 1);
    }
    assert(g1.edge_set().insert((u, v)) =~= g1.edge_set());
}

/// After the incoming edges of `n` are cleared, `n` has no parents and every
/// edge into another node is kept.
pub proof fn lemma_clear_incoming(g0: DAG, g1: DAG, n: Seq<char>)
    requires
        g1.edge_set() == g0.edge_set().filter(|e: (Seq<char>, Seq<char>)| e.1 != n),
    ensures
        g1.parents(n) == Set::<Seq<char>>::empty(),
        forall|a: Seq<char>, b: Seq<char>| b != n ==> g1.has_edge(a, b) == g0.has_edge(a, b),
{
    assert forall|a: Seq<char>| !g1.has_edge(a, n) by {
        assert(!g1.edge_set().contains((a, n)));
    }
    assert(g1.parents(n) =~= Set::<Seq<char>>::empty());
    assert forall|a: Seq<char>, b: Seq<char>| b != n implies g1.has_edge(a, b) == g0.has_edge(a, b) by {
        assert(g1.edge_set().contains((a, b)) == g0.edge_set().contains((a, b)));
    }
}

proof fn lemma_reach_transfer(h: DAG, g: DAG, i: int, j: int, k: nat)
    requires
        h.wf(),
        g.wf(),
        h.edge_set().subset_of(g.edge_set()),
        h.node_set().subset_of(g.node_set()),
        reach_n(h.adj_view(), i, j, k),
    ensures
        g.reaches(h.ids()[i], h.ids()[j]),
    decreases k,
{
    let hg = h.adj_view();
    let gg = g.adj_view();
    if k == 0 {
        h.lemma_idx(i);
        assert(h.node_set().contains(h.ids()[i]));
        g.lemma_has_node(h.ids()[i]);
        assert(reach_n(gg, g.idx(h.ids()[i]), g.idx(h.ids()[i]), 0));
    } else {
        let m = choose|m: int| #[trigger] succ(hg, i, m) && reach_n(hg, m, j, (k - 1) as nat);
        lemma_reach_transfer(h, g, m, j, (k - 1) as nat);
        h.lemma_idx(i);
        h.lemma_idx(m);
        assert(h.has_edge(h.ids()[i], h.ids()[m]));
        assert(h.edge_set().contains((h.ids()[i], h.ids()[m])));
        assert(g.has_edge(h.ids()[i], h.ids()[m]));
        let gi = g.idx(h.ids()[i]);
        let gm = g.idx(h.ids()[m]);
        let gj = g.idx(h.ids()[j]);
        let kk = choose|kk: nat| reach_n(gg, gm, gj, kk);
        assert(reach_n(gg, gm, gm, 0));
        assert(succ(gg, gi, gm) && reach_n(gg, gm, gm, 0));
        assert(reach_n(gg, gi, gm, 1));
        lemma_reach_concat(gg, gi, gm, gj, 1, kk);
    }
}

/// Reachability only grows when nodes and edges are added.
pub proof fn lemma_reaches_monotone(h: DAG, g: DAG, a: Seq<char>, b: Seq<char>)
    requires
        h.wf(),
        g.wf(),
        h.edge_set().subset_of(g.edge_set()),
        h.node_set().subset_of(g.node_set()),
        h.reaches(a, b),
    ensures
        g.reaches(a, b),
{
    let k = choose|k: nat| reach_n(h.adj_view(), h.idx(a), h.idx(b), k);
    h.lemma_has_node(a);
    h.lemma_has_node(b);
    lemma_reach_transfer(h, g, h.idx(a), h.idx(b), k);
}

/// In a well-formed graph an edge `a -> b` never comes with a path back from
/// `b` to `a`.
pub proof fn lemma_edge_no_return(g: DAG, a: Seq<char>, b: Seq<char>)
    requires
        g.wf(),
        g.has_edge(a, b),
    ensures
        !g.reaches(b, a),
{
    if g.reaches(b, a) {
        let gg = g.adj_view();
        let k = choose|k: nat| reach_n(gg, g.idx(b), g.idx(a), k);
        lemma_reach_extend(gg, g.idx(b), g.idx(a), g.idx(b), k);
        lemma_reach_rank(gg, g.rank@, g.idx(b), g.idx(b), k + 1);
    }
}

/// Every node reaches itself.
pub proof fn lemma_reaches_self(g: DAG, a: Seq<char>)
    requires
        g.wf(),
        g.has_node(a),
    ensures
        g.reaches(a, a),
{
    g.lemma_has_node(a);
    assert(reach_n(g.adj_view(), g.idx(a), g.idx(a), 0));
}

/// An edge is a path of one step.
pub proof fn lemma_edge_reaches(g: DAG, a: Seq<char>, b: Seq<char>)
    requires
        g.wf(),
        g.has_edge(a, b),
    ensures
        g.reaches(a, b),
        g.reaches_strictly(a, b),
{
    let gg = g.adj_view();
    g.lemma_has_node(b);
    assert(reach_n(gg, g.idx(b), g.idx(b), 0));
    assert(succ(gg, g.idx(a), g.idx(b)) && reach_n(gg, g.idx(b), g.idx(b), 0));
    assert(reach_n(gg, g.idx(a), g.idx(b), 1));
}

/// A well-formed graph has no edge from a node to itself, so adding one
/// fails.
pub proof fn lemma_no_self_edge(g: DAG, a: Seq<char>)
    requires
        g.wf(),
    ensures
        !g.has_edge(a, a),
{
    if g.has_edge(a, a) {
        lemma_edge_reaches(g, a, a);
        lemma_wf_acyclic(g, a);
    }
}

/// In a graph with no edges a node reaches only itself; so on such a graph
/// `add_edge` between two distinct nodes succeeds.
pub proof fn lemma_no_edges_reach(g: DAG, a: Seq<char>, b: Seq<char>)
    requires
        g.wf(),
        g.edge_set() == Set::<(Seq<char>, Seq<char>)>::empty(),
    ensures
        g.reaches(a, b) <==> (g.has_node(a) && a == b),
{
    g.lemma_views();
    if g.has_node(a) && a == b {
        lemma_reaches_self(g, a);
    }
    if g.reaches(a, b) {
        let gg = g.adj_view();
        let k = choose|k: nat| reach_n(gg, g.idx(a), g.idx(b), k);
        if k > 0 {
            let m = choose|m: int| #[trigger] succ(gg, g.idx(a), m) && reach_n(gg, m, g.idx(b), (k - 1) as nat);
            g.lemma_has_node(a);
            g.lemma_idx(m);
            assert(g.has_edge(a, g.ids()[m]));
            assert(g.edge_set().contains((a, g.ids()[m])));
        } else {
            g.lemma_has_node(a);
            g.lemma_has_node(b);
        }
    }
}

} // verus!
