use vstd::prelude::*;
use vstd::string::*;

use crate::task::{Priority, Status, Task, TaskView, task_views};
use crate::taskmap::{TaskMap, has_id, ids_distinct, lookup, pos_of};
use crate::text::{push_all, str_eq};

verus! {

/// The views of a list of index lists.
pub open spec fn adj_views(v: Seq<Vec<usize>>) -> Seq<Seq<usize>> {
    v.map_values(|x: Vec<usize>| x@)
}

/// The views of a list of strings.
pub open spec fn name_views(v: Seq<String>) -> Seq<Seq<char>> {
    v.map_values(|s: String| s@)
}

/// The dependency graph as mathematics: its nodes (task IDs and the IDs that
/// tasks depend on), which of them are task IDs, and, per node, the nodes it
/// depends on (`edges`) and the nodes that depend on it (`reverse`).
pub struct GraphView {
    pub nodes: Seq<Seq<char>>,
    pub keyed: Seq<bool>,
    pub edges: Seq<Seq<usize>>,
    pub reverse: Seq<Seq<usize>>,
}

impl GraphView {
    /// Number of nodes.
    pub open spec fn n(self) -> int {
        self.nodes.len() as int
    }

    /// Node `i` depends on node `j`.
    pub open spec fn edge(self, i: int, j: int) -> bool {
        self.edges[i].contains(j as usize)
    }

    /// A well-formed graph: one entry per node in each table, distinct node
    /// names, in-range and duplicate-free adjacency lists, and `reverse`
    /// exactly the inverse of `edges`.
    pub open spec fn wf(self) -> bool {
        &&& self.n() <= usize::MAX
        &&& self.keyed.len() == self.n()
        &&& self.edges.len() == self.n()
        &&& self.reverse.len() == self.n()
        &&& forall|i: int, j: int| 0 <= i < j < self.n() ==> self.nodes[i] != self.nodes[j]
        &&& forall|i: int|
            0 <= i < self.n() ==> (#[trigger] self.edges[i]).no_duplicates() && forall|k: int|
                0 <= k < self.edges[i].len() ==> self.edges[i][k] < self.n()
        &&& forall|i: int|
            0 <= i < self.n() ==> (#[trigger] self.reverse[i]).no_duplicates() && forall|k: int|
                0 <= k < self.reverse[i].len() ==> self.reverse[i][k] < self.n()
        &&& forall|i: int, j: int|
            0 <= i < self.n() && 0 <= j < self.n() ==> (self.edges[i].contains(j as usize)
                <==> self.reverse[j].contains(i as usize))
    }

    /// `p` is a walk along dependency edges: non-empty, in range, and each
    /// node depends on the next.
    pub open spec fn is_path(self, p: Seq<int>) -> bool {
        &&& p.len() >= 1
        &&& forall|k: int| 0 <= k < p.len() ==> 0 <= #[trigger] p[k] < self.n()
        &&& forall|k: int| 0 <= k < p.len() - 1 ==> self.edge(#[trigger] p[k], p[k + 1])
    }

    /// Node `b` can be reached from node `a` by following dependencies
    /// (zero or more steps).
    pub open spec fn reaches(self, a: int, b: int) -> bool {
        exists|p: Seq<int>| self.is_path(p) && p[0] == a && p.last() == b
    }

    /// The position of the node with this name, if any.
    pub open spec fn has_node(self, s: Seq<char>) -> bool {
        exists|i: int| 0 <= i < self.n() && #[trigger] self.nodes[i] == s
    }
}

/// `s` names a task of `ts` or a dependency of one.
pub open spec fn mentioned(ts: Seq<TaskView>, s: Seq<char>) -> bool {
    has_id(ts, s) || exists|i: int| 0 <= i < ts.len() && #[trigger] ts[i].depends_on.contains(s)
}

/// The graph describes exactly the dependencies of `ts`: node `p` is task
/// `p` for the first `ts.len()` positions, the remaining nodes are the
/// dependency targets that are not tasks, every mentioned ID is a node, and
/// node `i` depends on node `j` exactly when `i` is a task listing `j`.
pub open spec fn graph_of(g: GraphView, ts: Seq<TaskView>) -> bool {
    &&& g.wf()
    &&& g.n() >= ts.len()
    &&& forall|p: int| #![trigger g.keyed[p]] #![trigger g.nodes[p]] 0 <= p < ts.len() ==> g.nodes[p] == ts[p].id && g.keyed[p]
    &&& forall|p: int| #![trigger g.keyed[p]] #![trigger g.nodes[p]] ts.len() <= p < g.n() ==> !g.keyed[p] && mentioned(ts, g.nodes[p])
    &&& forall|s: Seq<char>| #[trigger] mentioned(ts, s) ==> g.has_node(s)
    &&& forall|i: int, j: int|
        0 <= i < g.n() && 0 <= j < g.n() ==> ((#[trigger] g.edge(i, j)) <==> (i < ts.len()
            && ts[i].depends_on.contains(g.nodes[j])))
}

/// Dependency graph built from task `depends_on` fields.
pub struct Graph {
    nodes: Vec<String>,
    keyed: Vec<bool>,
    edges: Vec<Vec<usize>>,
    reverse: Vec<Vec<usize>>,
}

impl Graph {
    /// The graph's mathematical content.
    pub closed spec fn view(&self) -> GraphView {
        GraphView {
            nodes: name_views(self.nodes@),
            keyed: self.keyed@,
            edges: adj_views(self.edges@),
            reverse: adj_views(self.reverse@),
        }
    }

    #[verifier::type_invariant]
    spec fn inv(self) -> bool {
        self.view().wf()
    }

    /// The graph's content is well formed.
    pub fn check_wf(&self)
        ensures
            self.view().wf(),
    {
        proof {
            use_type_invariant(self);
        }
    }

    /// Number of nodes.
    pub fn node_count(&self) -> (n: usize)
        ensures
            n == self.view().n(),
            self.view().wf(),
    {
        proof {
            use_type_invariant(self);
        }
        self.nodes.len()
    }

    /// The name of node `i`.
    pub fn node(&self, i: usize) -> (s: &String)
        requires
            i < self.view().n(),
        ensures
            s@ == self.view().nodes[i as int],
    {
        proof {
            use_type_invariant(self);
        }
        &self.nodes[i]
    }

    /// The nodes that node `i` depends on.
    pub fn deps_of(&self, i: usize) -> (e: &Vec<usize>)
        requires
            i < self.view().n(),
        ensures
            e@ == self.view().edges[i as int],
            self.view().wf(),
    {
        proof {
            use_type_invariant(self);
        }
        &self.edges[i]
    }

    /// The nodes that depend on node `i`.
    pub fn dependents_of(&self, i: usize) -> (e: &Vec<usize>)
        requires
            i < self.view().n(),
        ensures
            e@ == self.view().reverse[i as int],
            self.view().wf(),
    {
        proof {
            use_type_invariant(self);
        }
        &self.reverse[i]
    }

    /// The position of the node with this name.
    pub fn find(&self, s: &str) -> (r: Option<usize>)
        ensures
            self.view().wf(),
            match r {
                Some(i) => i < self.view().n() && self.view().nodes[i as int] == s@,
                None => !self.view().has_node(s@),
            },
    {
        proof {
            use_type_invariant(self);
        }
        for i in 0..self.nodes.len()
            invariant
                self.view().wf(),
                forall|j: int| 0 <= j < i ==> #[trigger] self.nodes@[j]@ != s@,
        {
            if str_eq(self.nodes[i].as_str(), s) {
                assert(self.view().nodes[i as int] == self.nodes@[i as int]@);
                return Some(i);
            }
        }
        assert forall|j: int| 0 <= j < self.view().n() implies #[trigger] self.view().nodes[j]
            != s@ by {
            assert(self.view().nodes[j] == self.nodes@[j]@);
        }
        None
    }
}


/// The position of `s` among `names`.
fn find_name(names: &Vec<String>, s: &str) -> (r: Option<usize>)
    ensures
        match r {
            Some(i) => i < names@.len() && names@[i as int]@ == s@,
            None => forall|j: int| 0 <= j < names@.len() ==> #[trigger] names@[j]@ != s@,
        },
{
    for i in 0..names.len()
        invariant
            forall|j: int| 0 <= j < i ==> #[trigger] names@[j]@ != s@,
    {
        if str_eq(names[i].as_str(), s) {
            return Some(i);
        }
    }
    None
}

/// Whether `x` is in `v`.
pub fn contains_index(v: &Vec<usize>, x: usize) -> (r: bool)
    ensures
        r == v@.contains(x),
{
    for i in 0..v.len()
        invariant
            forall|j: int| 0 <= j < i ==> v@[j] != x,
    {
        if v[i] == x {
            return true;
        }
    }
    false
}

/// Appends `x` to list `i` of an adjacency table.
fn push_adj(adj: &mut Vec<Vec<usize>>, i: usize, x: usize)
    requires
        i < old(adj)@.len(),
    ensures
        adj_views(final(adj)@) == adj_views(old(adj)@).update(i as int, old(adj)@[i as int]@.push(x)),
{
    let mut e: Vec<usize> = Vec::new();
    adj.set_and_swap(i, &mut e);
    e.push(x);
    adj.set_and_swap(i, &mut e);
    assert(adj_views(adj@) =~= adj_views(old(adj)@).update(i as int, old(adj)@[i as int]@.push(x)));
}

/// The graph content held by four parallel tables.
pub open spec fn gv(nodes: Seq<String>, keyed: Seq<bool>, edges: Seq<Vec<usize>>, reverse: Seq<Vec<usize>>) -> GraphView {
    GraphView {
        nodes: name_views(nodes),
        keyed: keyed,
        edges: adj_views(edges),
        reverse: adj_views(reverse),
    }
}

/// `g` with one more node `s`, not a task, with no edges.
pub open spec fn with_node(g: GraphView, s: Seq<char>) -> GraphView {
    GraphView {
        nodes: g.nodes.push(s),
        keyed: g.keyed.push(false),
        edges: g.edges.push(Seq::<usize>::empty()),
        reverse: g.reverse.push(Seq::<usize>::empty()),
    }
}

proof fn lemma_with_node(g: GraphView, s: Seq<char>)
    requires
        g.wf(),
        g.n() + 1 <= usize::MAX,
        !g.has_node(s),
    ensures
        with_node(g, s).wf(),
        with_node(g, s).n() == g.n() + 1,
        forall|a: int, b: int|
            0 <= a < g.n() + 1 && 0 <= b < g.n() + 1 ==> ((#[trigger] with_node(g, s).edge(a, b)) <==> (a < g.n()
                && b < g.n() && g.edge(a, b))),
        forall|x: Seq<char>| #[trigger] with_node(g, s).has_node(x) <==> (g.has_node(x) || x == s),
{
    let h = with_node(g, s);
    let n0 = g.n();
    assert forall|a: int, b: int| 0 <= a < b < h.n() implies h.nodes[a] != h.nodes[b] by {
        if b == n0 {
            assert(g.nodes[a] != s);
        }
    }
    assert forall|a: int| 0 <= a < h.n() implies (#[trigger] h.edges[a]).no_duplicates() && forall|q: int|
        0 <= q < h.edges[a].len() ==> h.edges[a][q] < h.n() by {
        if a < n0 {
            assert(h.edges[a] == g.edges[a]);
        }
    }
    assert forall|a: int| 0 <= a < h.n() implies (#[trigger] h.reverse[a]).no_duplicates() && forall|q: int|
        0 <= q < h.reverse[a].len() ==> h.reverse[a][q] < h.n() by {
        if a < n0 {
            assert(h.reverse[a] == g.reverse[a]);
        }
    }
    assert forall|a: int, b: int| 0 <= a < h.n() && 0 <= b < h.n() implies (#[trigger] h.edges[a].contains(
        b as usize) <==> #[trigger] h.reverse[b].contains(a as usize)) && (h.edge(a, b) <==> (a < n0 && b < n0
        && g.edge(a, b))) by {
        if a < n0 {
            assert(h.edges[a] == g.edges[a]);
        }
        if b < n0 {
            assert(h.reverse[b] == g.reverse[b]);
        }
        if a < n0 && b == n0 {
            if g.edges[a].contains(b as usize) {
                let q = choose|q: int| 0 <= q < g.edges[a].len() && #[trigger] g.edges[a][q] == b as usize;
            }
        }
        if b < n0 && a == n0 {
            if g.reverse[b].contains(a as usize) {
                let q = choose|q: int| 0 <= q < g.reverse[b].len() && #[trigger] g.reverse[b][q] == a as usize;
            }
        }
    }
    assert forall|a: int, b: int| 0 <= a < h.n() && 0 <= b < h.n() implies ((#[trigger] h.edge(a, b))
        <==> (a < n0 && b < n0 && g.edge(a, b))) by {
        assert(h.edges[a].contains(b as usize) <==> h.reverse[b].contains(a as usize));
    }
    assert forall|x: Seq<char>| #[trigger] h.has_node(x) <==> (g.has_node(x) || x == s) by {
        if h.has_node(x) {
            let q = choose|q: int| 0 <= q < h.n() && #[trigger] h.nodes[q] == x;
            if q < n0 {
                assert(g.nodes[q] == x);
            }
        }
        if g.has_node(x) {
            let q = choose|q: int| 0 <= q < g.n() && #[trigger] g.nodes[q] == x;
            assert(h.nodes[q] == x);
        }
        if x == s {
            assert(h.nodes[n0] == x);
        }
    }
}

/// `g` with the dependency `i -> j` recorded (unchanged if already there).
pub open spec fn with_edge(g: GraphView, i: int, j: int) -> GraphView {
    if g.edge(i, j) {
        g
    } else {
        GraphView {
            nodes: g.nodes,
            keyed: g.keyed,
            edges: g.edges.update(i, g.edges[i].push(j as usize)),
            reverse: g.reverse.update(j, g.reverse[j].push(i as usize)),
        }
    }
}

proof fn lemma_with_edge(g: GraphView, i: int, j: int)
    requires
        g.wf(),
        0 <= i < g.n(),
        0 <= j < g.n(),
    ensures
        with_edge(g, i, j).wf(),
        with_edge(g, i, j).nodes == g.nodes,
        with_edge(g, i, j).keyed == g.keyed,
        forall|a: int, b: int|
            0 <= a < g.n() && 0 <= b < g.n() ==> ((#[trigger] with_edge(g, i, j).edge(a, b)) <==> (g.edge(a, b)
                || (a == i && b == j))),
{
    let h = with_edge(g, i, j);
    if !g.edge(i, j) {
        assert(!g.reverse[j].contains(i as usize));
        assert(h.edges[i] == g.edges[i].push(j as usize));
        assert(h.reverse[j] == g.reverse[j].push(i as usize));
        assert(h.edges[i].no_duplicates()) by {
            assert forall|x: int, y: int| 0 <= x < y < h.edges[i].len() implies h.edges[i][x] != h.edges[i][y] by {
                if y == h.edges[i].len() - 1 {
                    assert(g.edges[i][x] == h.edges[i][x]);
                }
            }
        }
        assert(h.reverse[j].no_duplicates()) by {
            assert forall|x: int, y: int| 0 <= x < y < h.reverse[j].len() implies h.reverse[j][x] != h.reverse[j][y] by {
                if y == h.reverse[j].len() - 1 {
                    assert(g.reverse[j][x] == h.reverse[j][x]);
                }
            }
        }
        assert forall|a: int| 0 <= a < h.n() implies (#[trigger] h.edges[a]).no_duplicates() && forall|q: int|
            0 <= q < h.edges[a].len() ==> h.edges[a][q] < h.n() by {
            if a != i {
                assert(h.edges[a] == g.edges[a]);
            } else {
                assert forall|q: int| 0 <= q < h.edges[a].len() implies h.edges[a][q] < h.n() by {
                    if q < g.edges[a].len() {
                        assert(h.edges[a][q] == g.edges[a][q]);
                    }
                }
            }
        }
        assert forall|a: int| 0 <= a < h.n() implies (#[trigger] h.reverse[a]).no_duplicates() && forall|q: int|
            0 <= q < h.reverse[a].len() ==> h.reverse[a][q] < h.n() by {
            if a != j {
                assert(h.reverse[a] == g.reverse[a]);
            } else {
                assert forall|q: int| 0 <= q < h.reverse[a].len() implies h.reverse[a][q] < h.n() by {
                    if q < g.reverse[a].len() {
                        assert(h.reverse[a][q] == g.reverse[a][q]);
                    }
                }
            }
        }
        assert forall|a: int, b: int| 0 <= a < h.n() && 0 <= b < h.n() implies (#[trigger] h.edges[a].contains(
            b as usize) <==> #[trigger] h.reverse[b].contains(a as usize)) && (h.edge(a, b) <==> (g.edge(a, b)
            || (a == i && b == j))) by {
            if a == i {
                assert(h.edges[a] == g.edges[a].push(j as usize));
                assert(h.edges[a].contains(b as usize) <==> (g.edges[a].contains(b as usize) || b == j)) by {
                    if h.edges[a].contains(b as usize) {
                        let q = choose|q: int| 0 <= q < h.edges[a].len() && #[trigger] h.edges[a][q] == b as usize;
                        if q < g.edges[a].len() {
                            assert(g.edges[a][q] == b as usize);
                        }
                    }
                    if g.edges[a].contains(b as usize) {
                        let q = choose|q: int| 0 <= q < g.edges[a].len() && #[trigger] g.edges[a][q] == b as usize;
                        assert(h.edges[a][q] == b as usize);
                    }
                    if b == j {
                        assert(h.edges[a][g.edges[a].len() as int] == b as usize);
                    }
                }
            } else {
                assert(h.edges[a] == g.edges[a]);
            }
            if b == j {
                assert(h.reverse[b] == g.reverse[b].push(i as usize));
                assert(h.reverse[b].contains(a as usize) <==> (g.reverse[b].contains(a as usize) || a == i)) by {
                    if h.reverse[b].contains(a as usize) {
                        let q = choose|q: int| 0 <= q < h.reverse[b].len() && #[trigger] h.reverse[b][q] == a as usize;
                        if q < g.reverse[b].len() {
                            assert(g.reverse[b][q] == a as usize);
                        }
                    }
                    if g.reverse[b].contains(a as usize) {
                        let q = choose|q: int| 0 <= q < g.reverse[b].len() && #[trigger] g.reverse[b][q] == a as usize;
                        assert(h.reverse[b][q] == a as usize);
                    }
                    if a == i {
                        assert(h.reverse[b][g.reverse[b].len() as int] == a as usize);
                    }
                }
            } else {
                assert(h.reverse[b] == g.reverse[b]);
            }
        }
            assert forall|a: int, b: int| 0 <= a < h.n() && 0 <= b < h.n() implies ((#[trigger] h.edge(a, b))
            <==> (g.edge(a, b) || (a == i && b == j))) by {
            assert(h.edges[a].contains(b as usize) <==> h.reverse[b].contains(a as usize));
        }
    }
}

/// The dependencies of task `a` of `ts` that count once the first `i` tasks
/// and the first `k` dependencies of task `i` have been read.
pub open spec fn seen_dep(ts: Seq<TaskView>, i: int, k: int, a: int, s: Seq<char>) -> bool {
    (a < i && ts[a].depends_on.contains(s)) || (a == i && ts[i].depends_on.subrange(0, k).contains(s))
}

/// The state of `Graph::build` after reading the first `i` tasks and the
/// first `k` dependencies of task `i`.
pub open spec fn build_state(g: GraphView, ts: Seq<TaskView>, i: int, k: int) -> bool {
    &&& g.wf()
    &&& g.n() >= ts.len()
    &&& forall|p: int| #![trigger g.keyed[p]] #![trigger g.nodes[p]] 0 <= p < ts.len() ==> g.nodes[p] == ts[p].id && g.keyed[p]
    &&& forall|p: int| #![trigger g.keyed[p]] #![trigger g.nodes[p]] ts.len() <= p < g.n() ==> !g.keyed[p] && mentioned(ts, g.nodes[p])
    &&& forall|a: int, s: Seq<char>| 0 <= a < ts.len() && #[trigger] seen_dep(ts, i, k, a, s) ==> g.has_node(s)
    &&& forall|a: int, b: int|
        0 <= a < g.n() && 0 <= b < g.n() ==> ((#[trigger] g.edge(a, b)) <==> (a < ts.len() && seen_dep(ts, i, k, a, g.nodes[b])))
}

proof fn lemma_build_add_node(g: GraphView, ts: Seq<TaskView>, i: int, k: int, s: Seq<char>)
    requires
        build_state(g, ts, i, k),
        0 <= i < ts.len(),
        0 <= k < ts[i].depends_on.len(),
        s == ts[i].depends_on[k],
        !g.has_node(s),
        g.n() + 1 <= usize::MAX,
    ensures
        build_state(with_node(g, s), ts, i, k),
        with_node(g, s).nodes[g.n()] == s,
{
    let h = with_node(g, s);
    let n0 = g.n();
    lemma_with_node(g, s);
    assert(mentioned(ts, s)) by {
        assert(ts[i].depends_on.contains(s));
    }
    assert forall|p: int| #![trigger h.keyed[p]] #![trigger h.nodes[p]] 0 <= p < ts.len() implies h.nodes[p] == ts[p].id && h.keyed[p] by {
        assert(h.nodes[p] == g.nodes[p]);
        assert(h.keyed[p] == g.keyed[p]);
    }
    assert forall|p: int| #![trigger h.keyed[p]] #![trigger h.nodes[p]] ts.len() <= p < h.n() implies !h.keyed[p] && mentioned(ts, h.nodes[p]) by {
        if p < n0 {
            assert(h.nodes[p] == g.nodes[p]);
            assert(h.keyed[p] == g.keyed[p]);
        }
    }
    assert forall|a: int, x: Seq<char>| 0 <= a < ts.len() && #[trigger] seen_dep(ts, i, k, a, x) implies h.has_node(x) by {
        assert(g.has_node(x));
    }
    assert forall|a: int, b: int| 0 <= a < h.n() && 0 <= b < h.n() implies ((#[trigger] h.edge(a, b))
        <==> (a < ts.len() && seen_dep(ts, i, k, a, h.nodes[b]))) by {
        if b == n0 {
            assert(h.nodes[b] == s);
            if a < ts.len() && seen_dep(ts, i, k, a, s) {
                assert(g.has_node(s));
            }
        } else if a < n0 {
            assert(h.nodes[b] == g.nodes[b]);
            assert(g.edge(a, b) <==> (a < ts.len() && seen_dep(ts, i, k, a, g.nodes[b])));
        }
    }
}

proof fn lemma_build_add_edge(g: GraphView, ts: Seq<TaskView>, i: int, k: int, j: int)
    requires
        build_state(g, ts, i, k),
        0 <= i < ts.len(),
        0 <= k < ts[i].depends_on.len(),
        0 <= j < g.n(),
        g.nodes[j] == ts[i].depends_on[k],
    ensures
        build_state(with_edge(g, i, j), ts, i, k + 1),
{
    let h = with_edge(g, i, j);
    let dk = ts[i].depends_on[k];
    lemma_with_edge(g, i, j);
    assert forall|a: int, x: Seq<char>| 0 <= a < ts.len() && #[trigger] seen_dep(ts, i, k + 1, a, x) implies h.has_node(x) by {
        lemma_seen_dep_step(ts, i, k, a, x);
        if x == dk {
            assert(h.nodes[j] == dk);
        } else {
            assert(seen_dep(ts, i, k, a, x));
            assert(g.has_node(x));
            let q = choose|q: int| 0 <= q < g.n() && #[trigger] g.nodes[q] == x;
            assert(h.nodes[q] == x);
        }
    }
    assert forall|a: int, b: int| 0 <= a < h.n() && 0 <= b < h.n() implies ((#[trigger] h.edge(a, b))
        <==> (a < ts.len() && seen_dep(ts, i, k + 1, a, h.nodes[b]))) by {
        lemma_seen_dep_step(ts, i, k, a, h.nodes[b]);
        assert(h.edge(a, b) <==> (g.edge(a, b) || (a == i && b == j)));
        assert(g.edge(a, b) <==> (a < ts.len() && seen_dep(ts, i, k, a, g.nodes[b])));
        if h.nodes[b] == dk {
            assert(g.nodes[b] == g.nodes[j]);
            assert(b == j);
        }
    }
}

proof fn lemma_build_next_task(g: GraphView, ts: Seq<TaskView>, i: int)
    requires
        build_state(g, ts, i, ts[i].depends_on.len() as int),
        0 <= i < ts.len(),
    ensures
        build_state(g, ts, i + 1, 0),
{
    assert forall|a: int, x: Seq<char>| 0 <= a < ts.len() && #[trigger] seen_dep(ts, i + 1, 0, a, x) implies g.has_node(x) by {
        lemma_seen_dep_next_task(ts, i, a, x);
        assert(seen_dep(ts, i, ts[i].depends_on.len() as int, a, x));
    }
    assert forall|a: int, b: int| 0 <= a < g.n() && 0 <= b < g.n() implies ((#[trigger] g.edge(a, b))
        <==> (a < ts.len() && seen_dep(ts, i + 1, 0, a, g.nodes[b]))) by {
        lemma_seen_dep_next_task(ts, i, a, g.nodes[b]);
    }
}

proof fn lemma_seen_dep_step(ts: Seq<TaskView>, i: int, k: int, a: int, s: Seq<char>)
    requires
        0 <= i < ts.len(),
        0 <= k < ts[i].depends_on.len(),
    ensures
        seen_dep(ts, i, k + 1, a, s) <==> (seen_dep(ts, i, k, a, s) || (a == i && s == ts[i].depends_on[k])),
{
    let d = ts[i].depends_on;
    let pre = d.subrange(0, k);
    let post = d.subrange(0, k + 1);
    assert(post =~= pre.push(d[k]));
    if post.contains(s) {
        let q = choose|q: int| 0 <= q < post.len() && #[trigger] post[q] == s;
        if q < k {
            assert(pre[q] == s);
        }
    }
    if pre.contains(s) {
        let q = choose|q: int| 0 <= q < pre.len() && #[trigger] pre[q] == s;
        assert(post[q] == s);
    }
    if s == d[k] {
        assert(post[k] == s);
    }
}

proof fn lemma_seen_dep_next_task(ts: Seq<TaskView>, i: int, a: int, s: Seq<char>)
    requires
        0 <= i < ts.len(),
    ensures
        seen_dep(ts, i, ts[i].depends_on.len() as int, a, s) <==> seen_dep(ts, i + 1, 0, a, s),
{
    assert(ts[i].depends_on.subrange(0, ts[i].depends_on.len() as int) =~= ts[i].depends_on);
    assert(ts[i + 1 - 1] == ts[i]);
    if i + 1 < ts.len() {
        assert(!ts[i + 1].depends_on.subrange(0, 0).contains(s));
    }
}

impl Graph {
    /// Build a dependency graph from a set of tasks.
    pub fn build(tasks: &TaskMap) -> (g: Graph)
        ensures
            graph_of(g.view(), tasks.view()),
    {
        let ts = tasks.tasks();
        let ghost tv = tasks.view();
        let m = ts.len();
        let mut nodes: Vec<String> = Vec::new();
        let mut keyed: Vec<bool> = Vec::new();
        let mut edges: Vec<Vec<usize>> = Vec::new();
        let mut reverse: Vec<Vec<usize>> = Vec::new();
        for i in 0..m
            invariant
                m == ts@.len(),
                tv == task_views(ts@),
                ids_distinct(tv),
                nodes@.len() == i,
                keyed@.len() == i,
                edges@.len() == i,
                reverse@.len() == i,
                forall|p: int| #![trigger nodes@[p]] #![trigger keyed@[p]] 0 <= p < i ==> nodes@[p]@ == tv[p].id && keyed@[p],
                forall|p: int| 0 <= p < i ==> (#[trigger] edges@[p])@.len() == 0,
                forall|p: int| 0 <= p < i ==> (#[trigger] reverse@[p])@.len() == 0,
        {
            let ghost old_nodes = nodes@;
            let ghost old_keyed = keyed@;
            nodes.push(ts[i].id.clone());
            keyed.push(true);
            edges.push(Vec::new());
            reverse.push(Vec::new());
            assert(nodes@[i as int]@ == tv[i as int].id);
            assert forall|p: int| #![trigger nodes@[p]] #![trigger keyed@[p]] 0 <= p < i + 1 implies nodes@[p]@ == tv[p].id && keyed@[p] by {
                if p < i {
                    assert(nodes@[p] == old_nodes[p]);
                    assert(keyed@[p] == old_keyed[p]);
                }
            }
        }
        proof {
            let g = gv(nodes@, keyed@, edges@, reverse@);
            assert forall|a: int, b: int| 0 <= a < b < g.n() implies g.nodes[a] != g.nodes[b] by {
                assert(g.nodes[a] == tv[a].id);
                assert(g.nodes[b] == tv[b].id);
            }
            assert forall|a: int| 0 <= a < g.n() implies (#[trigger] g.edges[a]).no_duplicates()
                && forall|q: int| 0 <= q < g.edges[a].len() ==> g.edges[a][q] < g.n() by {
                assert(g.edges[a] == edges@[a]@);
            }
            assert forall|a: int| 0 <= a < g.n() implies (#[trigger] g.reverse[a]).no_duplicates()
                && forall|q: int| 0 <= q < g.reverse[a].len() ==> g.reverse[a][q] < g.n() by {
                assert(g.reverse[a] == reverse@[a]@);
            }
            assert forall|a: int, b: int| 0 <= a < g.n() && 0 <= b < g.n() implies (
            g.edges[a].contains(b as usize) <==> g.reverse[b].contains(a as usize)) && !g.edge(a, b) by {
                assert(g.edges[a] == edges@[a]@);
                assert(g.reverse[b] == reverse@[b]@);
            }
            assert forall|a: int, s: Seq<char>| 0 <= a < tv.len() implies !#[trigger] seen_dep(tv, 0, 0, a, s) by {
                if m > 0 {
                    assert(!tv[0].depends_on.subrange(0, 0).contains(s));
                }
            }
            assert(build_state(g, tv, 0, 0));
        }
        for i in 0..m
            invariant
                m == ts@.len(),
                tv == task_views(ts@),
                ids_distinct(tv),
                build_state(gv(nodes@, keyed@, edges@, reverse@), tv, i as int, 0),
        {
            let deps = &ts[i].depends_on;
            assert(tv[i as int].depends_on == crate::task::str_views(deps@));
            for k in 0..deps.len()
                invariant
                    m == ts@.len(),
                    i < m,
                    tv == task_views(ts@),
                    tv[i as int].depends_on == crate::task::str_views(deps@),
                    ids_distinct(tv),
                    build_state(gv(nodes@, keyed@, edges@, reverse@), tv, i as int, k as int),
            {
                let ghost g0 = gv(nodes@, keyed@, edges@, reverse@);
                let ghost dk = tv[i as int].depends_on[k as int];
                assert(dk == deps@[k as int]@);
                let j = match find_name(&nodes, deps[k].as_str()) {
                    Some(j) => {
                        assert(g0.nodes[j as int] == dk);
                        j
                    },
                    None => {
                        let n0 = nodes.len();
                        assert(!g0.has_node(dk)) by {
                            if g0.has_node(dk) {
                                let q = choose|q: int| 0 <= q < g0.n() && #[trigger] g0.nodes[q] == dk;
                                assert(nodes@[q]@ == dk);
                            }
                        }
                        nodes.push(deps[k].clone());
                        keyed.push(false);
                        edges.push(Vec::new());
                        reverse.push(Vec::new());
                        let n1 = nodes.len();
                        proof {
                            let g1 = gv(nodes@, keyed@, edges@, reverse@);
                            assert(g1.nodes =~= g0.nodes.push(dk));
                            assert(g1.edges =~= g0.edges.push(Seq::<usize>::empty()));
                            assert(g1.reverse =~= g0.reverse.push(Seq::<usize>::empty()));
                            assert(g1.keyed =~= g0.keyed.push(false));
                            assert(g1 == with_node(g0, dk));
                            lemma_build_add_node(g0, tv, i as int, k as int, dk);
                        }
                        n0
                    },
                };
                let ghost g2 = gv(nodes@, keyed@, edges@, reverse@);
                assert(build_state(g2, tv, i as int, k as int));
                assert(j < g2.n() && g2.nodes[j as int] == dk);
                let has_e = contains_index(&edges[i], j);
                assert(g2.edges[i as int] == edges@[i as int]@);
                assert(g2.reverse[j as int] == reverse@[j as int]@);
                assert(has_e == g2.edge(i as int, j as int));
                if !has_e {
                    push_adj(&mut edges, i, j);
                    assert(!g2.reverse[j as int].contains(i));
                    push_adj(&mut reverse, j, i);
                }
                proof {
                    let g3 = gv(nodes@, keyed@, edges@, reverse@);
                    assert(g3 == with_edge(g2, i as int, j as int));
                    lemma_build_add_edge(g2, tv, i as int, k as int, j as int);
                }
            }
            proof {
                assert(deps@.len() == tv[i as int].depends_on.len());
                lemma_build_next_task(gv(nodes@, keyed@, edges@, reverse@), tv, i as int);
            }
        }
        let g = Graph { nodes, keyed, edges, reverse };
        proof {
            let v = g.view();
            assert(v == gv(g.nodes@, g.keyed@, g.edges@, g.reverse@));
            assert forall|s: Seq<char>| #[trigger] mentioned(tv, s) implies v.has_node(s) by {
                if has_id(tv, s) {
                    let q = choose|q: int| 0 <= q < tv.len() && #[trigger] tv[q].id == s;
                    assert(v.nodes[q] == s);
                } else {
                    let a = choose|a: int| 0 <= a < tv.len() && #[trigger] tv[a].depends_on.contains(s);
                    assert(seen_dep(tv, m as int, 0, a, s));
                }
            }
            assert forall|a: int, b: int| 0 <= a < v.n() && 0 <= b < v.n() implies (v.edge(a, b) <==> (a
                < tv.len() && tv[a].depends_on.contains(v.nodes[b]))) by {
                if a < tv.len() {
                    assert(seen_dep(tv, m as int, 0, a, v.nodes[b]) == tv[a].depends_on.contains(v.nodes[b]));
                }
            }
        }
        g
    }
}


proof fn lemma_reaches_self(g: GraphView, a: int)
    requires
        0 <= a < g.n(),
    ensures
        g.reaches(a, a),
{
    let p = seq![a];
    assert(p[0] == a);
    assert(p.last() == a);
    assert(g.is_path(p));
}

proof fn lemma_reaches_step(g: GraphView, a: int, b: int, c: int)
    requires
        g.reaches(a, b),
        0 <= c < g.n(),
        g.edge(b, c),
    ensures
        g.reaches(a, c),
{
    let p = choose|p: Seq<int>| g.is_path(p) && p[0] == a && p.last() == b;
    let q = p.push(c);
    assert forall|k: int| 0 <= k < q.len() - 1 implies g.edge(#[trigger] q[k], q[k + 1]) by {
        if k < p.len() - 1 {
            assert(q[k] == p[k] && q[k + 1] == p[k + 1]);
        } else {
            assert(q[k] == b);
        }
    }
    assert(g.is_path(q));
    assert(q[0] == a && q.last() == c);
}

proof fn lemma_closed_contains_reached(g: GraphView, vs: Set<int>, p: Seq<int>)
    requires
        g.is_path(p),
        vs.contains(p[0]),
        forall|v: int, w: int| vs.contains(v) && 0 <= w < g.n() && #[trigger] g.edge(v, w) ==> vs.contains(w),
    ensures
        vs.contains(p.last()),
    decreases p.len(),
{
    if p.len() > 1 {
        let q = p.drop_last();
        assert forall|k: int| 0 <= k < q.len() - 1 implies g.edge(#[trigger] q[k], q[k + 1]) by {
            assert(q[k] == p[k] && q[k + 1] == p[k + 1]);
        }
        lemma_closed_contains_reached(g, vs, q);
        assert(g.edge(p[p.len() - 2], p[p.len() - 1]));
    }
}

impl Graph {
    /// Whether node `t` can be reached from node `s` by following
    /// dependencies (breadth-first search).
    #[verifier::spinoff_prover]
    #[verifier::rlimit(80)]
    pub fn reaches_from(&self, s: usize, t: usize) -> (r: bool)
        requires
            s < self.view().n(),
            t < self.view().n(),
        ensures
            r == self.view().reaches(s as int, t as int),
    {
        let ghost g = self.view();
        let n = self.node_count();
        let mut visited: Vec<bool> = Vec::new();
        for k in 0..n
            invariant
                visited@.len() == k,
                forall|v: int| 0 <= v < k ==> !visited@[v],
        {
            visited.push(false);
        }
        visited.set(s, true);
        let mut queue: Vec<usize> = Vec::new();
        queue.push(s);
        let ghost mut vis: Set<int> = Set::empty().insert(s as int);
        proof {
            lemma_reaches_self(g, s as int);
            assert(queue@[0] == s);
            assert forall|v: int| vis.contains(v) implies #[trigger] queue@.contains(v as usize) by {
                assert(v == s as int);
            }
        }
        let mut head: usize = 0;
        while head < queue.len()
            invariant
                g == self.view(),
                g.wf(),
                n == g.n(),
                s < n,
                t < n,
                visited@.len() == n,
                head <= queue@.len(),
                queue@.len() >= 1,
                queue@[0] == s,
                vis.finite(),
                vis.len() == queue@.len(),
                vis.subset_of(vstd::set_lib::set_int_range(0, n as int)),
                forall|v: int| 0 <= v < n ==> (visited@[v] <==> vis.contains(v)),
                forall|k: int| 0 <= k < queue@.len() ==> (#[trigger] queue@[k]) < n,
                forall|k: int| 0 <= k < queue@.len() ==> vis.contains(#[trigger] queue@[k] as int),
                forall|v: int| vis.contains(v) ==> #[trigger] queue@.contains(v as usize),
                forall|k: int| 0 <= k < queue@.len() ==> g.reaches(s as int, #[trigger] queue@[k] as int),
                forall|k: int| 0 <= k < head ==> #[trigger] queue@[k] != t,
                forall|k: int, w: int|
                    0 <= k < head && 0 <= w < n && #[trigger] g.edge(queue@[k] as int, w) ==> visited@[w],
            decreases n - head,
        {
            proof {
                vstd::set_lib::lemma_int_range(0, n as int);
                vstd::set_lib::lemma_len_subset(vis, vstd::set_lib::set_int_range(0, n as int));
            }
            let cur = queue[head];
            if cur == t {
                return true;
            }
            let e = self.deps_of(cur);
            let ghost head_before = head;
            head = head + 1;
            for idx in 0..e.len()
                invariant
                    g == self.view(),
                    g.wf(),
                    n == g.n(),
                    s < n,
                    t < n,
                    cur < n,
                    e@ == g.edges[cur as int],
                    visited@.len() == n,
                    head == head_before + 1,
                    head <= queue@.len(),
                    queue@.len() >= 1,
                    queue@[0] == s,
                    queue@[head_before as int] == cur,
                    cur != t,
                    vis.finite(),
                    vis.len() == queue@.len(),
                    vis.subset_of(vstd::set_lib::set_int_range(0, n as int)),
                    forall|v: int| 0 <= v < n ==> (visited@[v] <==> vis.contains(v)),
                    forall|k: int| 0 <= k < queue@.len() ==> (#[trigger] queue@[k]) < n,
                    forall|k: int| 0 <= k < queue@.len() ==> vis.contains(#[trigger] queue@[k] as int),
                    forall|v: int| vis.contains(v) ==> #[trigger] queue@.contains(v as usize),
                    forall|k: int| 0 <= k < queue@.len() ==> g.reaches(s as int, #[trigger] queue@[k] as int),
                    forall|k: int| 0 <= k < head ==> #[trigger] queue@[k] != t,
                    forall|k: int, w: int|
                        0 <= k < head_before && 0 <= w < n && #[trigger] g.edge(queue@[k] as int, w) ==> visited@[w],
                    forall|q: int| 0 <= q < idx ==> visited@[#[trigger] e@[q] as int],
            {
                let w = e[idx];
                assert(w < n);
                if !visited[w] {
                    proof {
                        vstd::set_lib::lemma_int_range(0, n as int);
                        vstd::set_lib::lemma_len_subset(vis.insert(w as int), vstd::set_lib::set_int_range(0, n as int));
                        assert(g.edge(cur as int, w as int)) by {
                            assert(g.edges[cur as int][idx as int] == w);
                        }
                        lemma_reaches_step(g, s as int, cur as int, w as int);
                    }
                    visited.set(w, true);
                    let ghost old_q = queue@;
                    queue.push(w);
                    proof {
                        vis = vis.insert(w as int);
                        assert forall|v: int| vis.contains(v) implies #[trigger] queue@.contains(v as usize) by {
                            if v == w as int {
                                assert(queue@[old_q.len() as int] == w);
                            } else {
                                assert(old_q.contains(v as usize));
                                let k = choose|k: int| 0 <= k < old_q.len() && old_q[k] == v as usize;
                                assert(queue@[k] == v as usize);
                            }
                        }
                    }
                }
            }
            proof {
                assert forall|k: int, w: int|
                    0 <= k < head && 0 <= w < n && #[trigger] g.edge(queue@[k] as int, w) implies visited@[w] by {
                    if k == head_before {
                        let q = choose|q: int| 0 <= q < e@.len() && e@[q] == w as usize;
                        assert(visited@[e@[q] as int]);
                    }
                }
            }
        }
        proof {
            assert forall|v: int, w: int| vis.contains(v) && 0 <= w < g.n() && #[trigger] g.edge(v, w) implies vis.contains(w) by {
                assert(queue@.contains(v as usize));
                let k = choose|k: int| 0 <= k < queue@.len() && queue@[k] == v as usize;
                assert(queue@[k] as int == v);
                assert(visited@[w]);
            }
            if g.reaches(s as int, t as int) {
                let p = choose|p: Seq<int>| g.is_path(p) && p[0] == s as int && p.last() == t as int;
                assert(vis.contains(queue@[0] as int));
                lemma_closed_contains_reached(g, vis, p);
                assert(vis.contains(t as int));
                assert(queue@.contains((t as int) as usize));
                assert(queue@.contains(t));
                let k = choose|k: int| 0 <= k < queue@.len() && queue@[k] == t;
            }
        }
        false
    }

    /// Check if adding an edge `from -> to` would create a cycle: true when
    /// the two are the same ID, or when `from` can already be reached from
    /// `to` by following dependencies.
    pub fn would_cycle(&self, from: &str, to: &str) -> (r: bool)
        ensures
            r == (from@ == to@ || exists|i: int, j: int|
                0 <= i < self.view().n() && 0 <= j < self.view().n() && self.view().nodes[i] == to@
                    && self.view().nodes[j] == from@ && self.view().reaches(i, j)),
    {
        let ghost g = self.view();
        if str_eq(from, to) {
            return true;
        }
        let s = match self.find(to) {
            Some(i) => i,
            None => {
                return false;
            },
        };
        let t = match self.find(from) {
            Some(j) => j,
            None => {
                return false;
            },
        };
        let r = self.reaches_from(s, t);
        proof {
            assert forall|i: int, j: int|
                0 <= i < g.n() && 0 <= j < g.n() && g.nodes[i] == to@ && g.nodes[j] == from@ implies i == s as int && j == t as int by {}
            if r {
                assert(g.nodes[s as int] == to@ && g.nodes[t as int] == from@ && g.reaches(s as int, t as int));
            }
        }
        r
    }
}


/// Node `x` is `k`-settled: every chain of dependencies from `x` ends within
/// `k` steps. The settled nodes are exactly those that do not depend, even
/// transitively, on a dependency cycle.
pub open spec fn settled(g: GraphView, x: int, k: nat) -> bool
    decreases k,
{
    k > 0 && forall|d: int| 0 <= d < g.n() && #[trigger] g.edge(x, d) ==> settled(g, d, (k - 1) as nat)
}

/// Node `x` can be put in a dependency order: it is `k`-settled for some `k`.
pub open spec fn orderable(g: GraphView, x: int) -> bool {
    exists|k: nat| settled(g, x, k)
}

/// Number of entries of `s` that are not among `done`.
pub open spec fn count_open(s: Seq<usize>, done: Seq<usize>) -> nat
    decreases s.len(),
{
    if s.len() == 0 {
        0
    } else {
        count_open(s.drop_last(), done) + if done.contains(s.last()) {
            0nat
        } else {
            1nat
        }
    }
}

proof fn lemma_count_open_step(s: Seq<usize>, done: Seq<usize>, c: usize)
    requires
        s.no_duplicates(),
        !done.contains(c),
    ensures
        count_open(s, done) == count_open(s, done.push(c)) + if s.contains(c) {
            1nat
        } else {
            0nat
        },
    decreases s.len(),
{
    if s.len() > 0 {
        let t = s.drop_last();
        assert(t.no_duplicates());
        lemma_count_open_step(t, done, c);
        let l = s.last();
        assert(done.push(c).contains(l) <==> (done.contains(l) || l == c)) by {
            if done.push(c).contains(l) {
                let i = choose|i: int| 0 <= i < done.push(c).len() && done.push(c)[i] == l;
                if i < done.len() {
                    assert(done[i] == l);
                }
            }
            if done.contains(l) {
                let i = choose|i: int| 0 <= i < done.len() && done[i] == l;
                assert(done.push(c)[i] == l);
            }
            if l == c {
                assert(done.push(c)[done.len() as int] == l);
            }
        }
        assert(s.contains(c) <==> (t.contains(c) || l == c)) by {
            if s.contains(c) {
                let i = choose|i: int| 0 <= i < s.len() && s[i] == c;
                if i < t.len() {
                    assert(t[i] == c);
                }
            }
            if t.contains(c) {
                let i = choose|i: int| 0 <= i < t.len() && t[i] == c;
                assert(s[i] == c);
            }
        }
        if l == c {
            assert(!t.contains(c)) by {
                if t.contains(c) {
                    let i = choose|i: int| 0 <= i < t.len() && t[i] == c;
                    assert(s[i] == s[s.len() - 1]);
                }
            }
        }
    }
}

proof fn lemma_count_open_zero(s: Seq<usize>, done: Seq<usize>)
    ensures
        count_open(s, done) == 0 <==> forall|k: int| 0 <= k < s.len() ==> done.contains(#[trigger] s[k]),
    decreases s.len(),
{
    if s.len() > 0 {
        let t = s.drop_last();
        lemma_count_open_zero(t, done);
        if count_open(s, done) == 0 {
            assert forall|k: int| 0 <= k < s.len() implies done.contains(#[trigger] s[k]) by {
                if k < t.len() {
                    assert(t[k] == s[k]);
                }
            }
        }
        if forall|k: int| 0 <= k < s.len() ==> done.contains(#[trigger] s[k]) {
            assert forall|k: int| 0 <= k < t.len() implies done.contains(#[trigger] t[k]) by {
                assert(t[k] == s[k]);
            }
            assert(done.contains(s[s.len() - 1]));
        }
    }
}

proof fn lemma_settled_mono(g: GraphView, x: int, k: nat, j: nat)
    requires
        settled(g, x, k),
        k <= j,
    ensures
        settled(g, x, j),
    decreases k,
{
    assert forall|d: int| 0 <= d < g.n() && #[trigger] g.edge(x, d) implies settled(g, d, (j - 1) as nat) by {
        lemma_settled_mono(g, d, (k - 1) as nat, (j - 1) as nat);
    }
}

/// Every dependency of the node at position `p` of `q` stands at an earlier position.
pub open spec fn deps_before(g: GraphView, q: Seq<usize>) -> bool {
    forall|p: int, d: int|
        0 <= p < q.len() && 0 <= d < g.n() && #[trigger] g.edge(q[p] as int, d) ==> exists|r: int|
            0 <= r < p && #[trigger] q[r] == d as usize
}

proof fn lemma_prefix_settled(g: GraphView, q: Seq<usize>, p: int)
    requires
        g.wf(),
        deps_before(g, q),
        0 <= p < q.len(),
        forall|i: int| 0 <= i < q.len() ==> #[trigger] q[i] < g.n(),
    ensures
        settled(g, q[p] as int, (p + 1) as nat),
    decreases p,
{
    assert forall|d: int| 0 <= d < g.n() && #[trigger] g.edge(q[p] as int, d) implies settled(g, d, p as nat) by {
        let r = choose|r: int| 0 <= r < p && #[trigger] q[r] == d as usize;
        lemma_prefix_settled(g, q, r);
        lemma_settled_mono(g, d, (r + 1) as nat, p as nat);
    }
}

/// `q` lists nodes without repetition, all in range.
pub open spec fn distinct_nodes(g: GraphView, q: Seq<usize>) -> bool {
    &&& forall|i: int| 0 <= i < q.len() ==> #[trigger] q[i] < g.n()
    &&& forall|i: int, j: int| 0 <= i < j < q.len() ==> q[i] != q[j]
}

/// A dependency order of the orderable nodes: each orderable node exactly
/// once, no other node, and every node after all of its dependencies.
pub open spec fn is_dependency_order(g: GraphView, q: Seq<usize>) -> bool {
    &&& distinct_nodes(g, q)
    &&& deps_before(g, q)
    &&& forall|x: int| 0 <= x < g.n() ==> (q.contains(x as usize) <==> orderable(g, x))
}

impl Graph {
    /// Kahn's algorithm over all nodes: repeatedly takes a node whose
    /// dependencies have all been taken. Nodes in or behind a dependency
    /// cycle are never taken.
    #[verifier::spinoff_prover]
    #[verifier::rlimit(80)]
    pub fn dependency_order(&self) -> (q: Vec<usize>)
        ensures
            is_dependency_order(self.view(), q@),
    {
        let ghost g = self.view();
        let n = self.node_count();
        let mut in_deg: Vec<usize> = Vec::new();
        let mut queue: Vec<usize> = Vec::new();
        let ghost mut vis: Set<int> = Set::empty();
        for x in 0..n
            invariant
                g == self.view(),
                g.wf(),
                n == g.n(),
                in_deg@.len() == x,
                forall|y: int| 0 <= y < x ==> #[trigger] in_deg@[y] == count_open(g.edges[y], Seq::<usize>::empty()),
                forall|y: int| 0 <= y < x ==> (queue@.contains(y as usize) <==> #[trigger] in_deg@[y] == 0),
                forall|i: int| 0 <= i < queue@.len() ==> #[trigger] queue@[i] < x,
                forall|i: int, j: int| 0 <= i < j < queue@.len() ==> queue@[i] != queue@[j],
                forall|i: int| 0 <= i < queue@.len() ==> g.edges[#[trigger] queue@[i] as int].len() == 0,
                vis.finite(),
                vis.len() == queue@.len(),
                vis.subset_of(vstd::set_lib::set_int_range(0, n as int)),
                forall|v: int| 0 <= v < n ==> (vis.contains(v) <==> #[trigger] queue@.contains(v as usize)),
        {
            let d = self.deps_of(x).len();
            proof {
                lemma_count_open_zero(g.edges[x as int], Seq::<usize>::empty());
                assert(count_open(g.edges[x as int], Seq::<usize>::empty()) == g.edges[x as int].len()) by {
                    lemma_count_all_open(g.edges[x as int]);
                }
            }
            in_deg.push(d);
            if d == 0 {
                let ghost old_q = queue@;
                queue.push(x);
                proof {
                    assert(!vis.contains(x as int)) by {
                        if vis.contains(x as int) {
                            assert(old_q.contains(x));
                            let i = choose|i: int| 0 <= i < old_q.len() && old_q[i] == x;
                        }
                    }
                    let old_vis = vis;
                    vis = vis.insert(x as int);
                    assert(vis.subset_of(vstd::set_lib::set_int_range(0, n as int)));
                    assert forall|v: int| 0 <= v < n implies (vis.contains(v) <==> #[trigger] queue@.contains(v as usize)) by {
                        if queue@.contains(v as usize) {
                            let i = choose|i: int| 0 <= i < queue@.len() && queue@[i] == v as usize;
                            if i < old_q.len() {
                                assert(old_q[i] == v as usize);
                                assert(old_q.contains(v as usize));
                                assert(old_vis.contains(v));
                            } else {
                                assert(v == x as int);
                            }
                        }
                        if v == x as int {
                            assert(queue@[old_q.len() as int] == x);
                        } else if vis.contains(v) {
                            assert(old_vis.contains(v));
                            assert(old_q.contains(v as usize));
                            let i = choose|i: int| 0 <= i < old_q.len() && old_q[i] == v as usize;
                            assert(queue@[i] == v as usize);
                        }
                    }
                    assert forall|y: int| 0 <= y < x + 1 implies (queue@.contains(y as usize) <==> #[trigger] in_deg@[y] == 0) by {
                        if y < x {
                            assert(queue@.contains(y as usize) <==> old_q.contains(y as usize)) by {
                                if queue@.contains(y as usize) {
                                    let i = choose|i: int| 0 <= i < queue@.len() && queue@[i] == y as usize;
                                    if i < old_q.len() {
                                        assert(old_q[i] == y as usize);
                                    }
                                }
                                if old_q.contains(y as usize) {
                                    let i = choose|i: int| 0 <= i < old_q.len() && old_q[i] == y as usize;
                                    assert(queue@[i] == y as usize);
                                }
                            }
                        } else {
                            assert(queue@[old_q.len() as int] == x);
                        }
                    }
                }
            } else {
                proof {
                    assert(!queue@.contains(x)) by {
                        if queue@.contains(x) {
                            let i = choose|i: int| 0 <= i < queue@.len() && queue@[i] == x;
                        }
                    }
                }
            }
        }
        assert(forall|i: int| 0 <= i < queue@.len() ==> #[trigger] queue@[i] < n);
        proof {
            assert(queue@.subrange(0, 0) =~= Seq::<usize>::empty());
            assert forall|p: int, d: int|
                0 <= p < queue@.len() && 0 <= d < g.n() && #[trigger] g.edge(queue@[p] as int, d) implies exists|r: int|
                    0 <= r < p && #[trigger] queue@[r] == d as usize by {
                assert(g.edges[queue@[p] as int].len() == 0);
            }
        }
        let mut head: usize = 0;
        while head < queue.len()
            invariant
                g == self.view(),
                g.wf(),
                n == g.n(),
                in_deg@.len() == n,
                head <= queue@.len(),
                distinct_nodes(g, queue@),
                deps_before(g, queue@),
                forall|y: int| 0 <= y < n ==> #[trigger] in_deg@[y] == count_open(g.edges[y], queue@.subrange(0, head as int)),
                forall|y: int| 0 <= y < n ==> (queue@.contains(y as usize) <==> #[trigger] in_deg@[y] == 0),
                vis.finite(),
                vis.len() == queue@.len(),
                vis.subset_of(vstd::set_lib::set_int_range(0, n as int)),
                forall|v: int| 0 <= v < n ==> (vis.contains(v) <==> #[trigger] queue@.contains(v as usize)),
            decreases n - head,
        {
            proof {
                vstd::set_lib::lemma_int_range(0, n as int);
                vstd::set_lib::lemma_len_subset(vis, vstd::set_lib::set_int_range(0, n as int));
            }
            let cur = queue[head];
            let ghost done_old = queue@.subrange(0, head as int);
            let ghost head_old = head;
            head = head + 1;
            proof {
                assert(!done_old.contains(cur)) by {
                    if done_old.contains(cur) {
                        let i = choose|i: int| 0 <= i < done_old.len() && done_old[i] == cur;
                        assert(queue@[i] == queue@[head_old as int]);
                    }
                }
                assert(queue@.subrange(0, head as int) =~= done_old.push(cur));
                assert forall|y: int| 0 <= y < n implies #[trigger] count_open(g.edges[y], done_old) == count_open(g.edges[y], queue@.subrange(0, head as int)) + if g.edges[y].contains(cur) { 1nat } else { 0nat } by {
                    lemma_count_open_step(g.edges[y], done_old, cur);
                }
            }
            let rev = self.dependents_of(cur);
            proof {
                assert(rev@.subrange(0, rev@.len() as int) =~= rev@);
                assert forall|y: int| 0 <= y < n implies #[trigger] in_deg@[y] == count_open(g.edges[y], queue@.subrange(0, head as int)) + if rev@.subrange(0, rev@.len() as int).contains(y as usize) { 1nat } else { 0nat } by {
                    assert(g.edges[y].contains(cur) <==> g.reverse[cur as int].contains(y as usize));
                    assert(count_open(g.edges[y], done_old) == count_open(g.edges[y], queue@.subrange(0, head as int)) + if g.edges[y].contains(cur) { 1nat } else { 0nat });
                }
            }
            for idx in 0..rev.len()
                invariant
                    g == self.view(),
                    g.wf(),
                    n == g.n(),
                    cur < n,
                    rev@ == g.reverse[cur as int],
                    in_deg@.len() == n,
                    head <= queue@.len(),
                    head == head_old + 1,
                    queue@[head_old as int] == cur,
                    distinct_nodes(g, queue@),
                    deps_before(g, queue@),
                    forall|y: int| 0 <= y < n ==> #[trigger] in_deg@[y] == count_open(g.edges[y], queue@.subrange(0, head as int)) + if rev@.subrange(idx as int, rev@.len() as int).contains(y as usize) { 1nat } else { 0nat },
                    forall|y: int| 0 <= y < n ==> (queue@.contains(y as usize) <==> #[trigger] in_deg@[y] == 0),
                    vis.finite(),
                    vis.len() == queue@.len(),
                    vis.subset_of(vstd::set_lib::set_int_range(0, n as int)),
                    forall|v: int| 0 <= v < n ==> (vis.contains(v) <==> #[trigger] queue@.contains(v as usize)),
            {
                let y = rev[idx];
                let ghost done = queue@.subrange(0, head as int);
                let ghost tail0 = rev@.subrange(idx as int, rev@.len() as int);
                let ghost tail1 = rev@.subrange(idx + 1, rev@.len() as int);
                proof {
                    assert(y < n);
                    assert(tail0[0] == y);
                    assert(tail0.contains(y));
                    assert(!tail1.contains(y)) by {
                        if tail1.contains(y) {
                            let i = choose|i: int| 0 <= i < tail1.len() && tail1[i] == y;
                            assert(rev@[idx + 1 + i] == rev@[idx as int]);
                        }
                    }
                    assert forall|z: int| 0 <= z < n && z != y as int implies (#[trigger] tail0.contains(z as usize) <==> tail1.contains(z as usize)) by {
                        if tail0.contains(z as usize) {
                            let i = choose|i: int| 0 <= i < tail0.len() && tail0[i] == z as usize;
                            assert(i != 0);
                            assert(tail1[i - 1] == z as usize);
                        }
                        if tail1.contains(z as usize) {
                            let i = choose|i: int| 0 <= i < tail1.len() && tail1[i] == z as usize;
                            assert(tail0[i + 1] == z as usize);
                        }
                    }
                    assert(in_deg@[y as int] >= 1);
                    assert(!queue@.contains(y));
                }
                let ghost deg_before = in_deg@;
                proof {
                    assert(rev@.take(idx + 1).drop_last() =~= rev@.take(idx as int));
                    assert(rev@.take(idx + 1).last() == y);
                }
                let dy = in_deg[y] - 1;
                in_deg.set(y, dy);
                proof {
                    assert(in_deg@[y as int] == count_open(g.edges[y as int], done));
                }
                if dy == 0 {
                    let ghost old_q = queue@;
                    proof {
                        assert(!old_q.contains(y));
                        lemma_count_open_zero(g.edges[y as int], done);
                        assert(!vis.contains(y as int));
                        vstd::set_lib::lemma_int_range(0, n as int);
                        vstd::set_lib::lemma_len_subset(vis.insert(y as int), vstd::set_lib::set_int_range(0, n as int));
                    }
                    queue.push(y);
                    proof {
                        let old_vis = vis;
                        vis = vis.insert(y as int);
                        assert(queue@.subrange(0, head as int) =~= done);
                        assert forall|v: int| 0 <= v < n implies (vis.contains(v) <==> #[trigger] queue@.contains(v as usize)) by {
                            if queue@.contains(v as usize) {
                                let i = choose|i: int| 0 <= i < queue@.len() && queue@[i] == v as usize;
                                if i < old_q.len() {
                                    assert(old_q[i] == v as usize);
                                    assert(old_q.contains(v as usize));
                                    assert(old_vis.contains(v));
                                } else {
                                    assert(v == y as int);
                                }
                            }
                            if v == y as int {
                                assert(queue@[old_q.len() as int] == y);
                            } else if vis.contains(v) {
                                assert(old_vis.contains(v));
                                assert(old_q.contains(v as usize));
                                let i = choose|i: int| 0 <= i < old_q.len() && old_q[i] == v as usize;
                                assert(queue@[i] == v as usize);
                            }
                        }
                        assert forall|z: int| 0 <= z < n implies (queue@.contains(z as usize) <==> #[trigger] in_deg@[z] == 0) by {
                            assert(queue@.contains(z as usize) <==> vis.contains(z));
                            assert(old_q.contains(z as usize) <==> (vis.contains(z) && z != y as int));
                        }
                        assert forall|i: int, j: int| 0 <= i < j < queue@.len() implies queue@[i] != queue@[j] by {
                            if j == old_q.len() {
                                assert(old_q[i] != y) by {
                                    if old_q[i] == y {
                                        assert(old_q.contains(y));
                                    }
                                }
                            }
                        }
                        assert forall|p: int, d: int|
                            0 <= p < queue@.len() && 0 <= d < g.n() && #[trigger] g.edge(queue@[p] as int, d) implies exists|r: int|
                                0 <= r < p && #[trigger] queue@[r] == d as usize by {
                            if p < old_q.len() {
                                assert(queue@[p] == old_q[p]);
                                let r = choose|r: int| 0 <= r < p && #[trigger] old_q[r] == d as usize;
                                assert(queue@[r] == d as usize);
                            } else {
                                assert(queue@[p] == y);
                                let k = choose|k: int| 0 <= k < g.edges[y as int].len() && g.edges[y as int][k] == d as usize;
                                assert(done.contains(g.edges[y as int][k]));
                                let r = choose|r: int| 0 <= r < done.len() && done[r] == d as usize;
                                assert(queue@[r] == d as usize);
                            }
                        }
                    }
                } else {
                    proof {
                        assert forall|z: int| 0 <= z < n implies (queue@.contains(z as usize) <==> #[trigger] in_deg@[z] == 0) by {
                            if z != y as int {
                                assert(in_deg@[z] == deg_before[z]);
                            }
                        }
                    }
                }
                proof {
                    assert forall|z: int| 0 <= z < n implies #[trigger] in_deg@[z] == count_open(g.edges[z], queue@.subrange(0, head as int)) + if tail1.contains(z as usize) { 1nat } else { 0nat } by {
                        assert(queue@.subrange(0, head as int) =~= done);
                    }
                }
            }
            proof {
                assert forall|y: int| 0 <= y < n implies #[trigger] in_deg@[y] == count_open(g.edges[y], queue@.subrange(0, head as int)) by {
                    assert(!rev@.subrange(rev@.len() as int, rev@.len() as int).contains(y as usize));
                }
            }
        }
        proof {
            assert(queue@.subrange(0, head as int) =~= queue@);
            let q = queue@;
            assert forall|y: int| 0 <= y < g.n() implies (q.contains(y as usize) <==> count_open(#[trigger] g.edges[y], q) == 0) by {
                assert(in_deg@[y] == count_open(g.edges[y], q));
            }
            assert forall|x: int| 0 <= x < g.n() implies (q.contains(x as usize) <==> orderable(g, x)) by {
                if q.contains(x as usize) {
                    let p = choose|p: int| 0 <= p < q.len() && q[p] == x as usize;
                    lemma_prefix_settled(g, q, p);
                    assert(settled(g, x, (p + 1) as nat));
                }
                if orderable(g, x) {
                    let k = choose|k: nat| settled(g, x, k);
                    lemma_settled_in(g, q, x, k);
                }
            }
        }
        queue
    }
}

proof fn lemma_settled_in(g: GraphView, q: Seq<usize>, x: int, k: nat)
    requires
        g.wf(),
        0 <= x < g.n(),
        settled(g, x, k),
        forall|y: int| 0 <= y < g.n() ==> (q.contains(y as usize) <==> count_open(#[trigger] g.edges[y], q) == 0),
    ensures
        q.contains(x as usize),
    decreases k,
{
    lemma_count_open_zero(g.edges[x], q);
    assert forall|i: int| 0 <= i < g.edges[x].len() implies q.contains(#[trigger] g.edges[x][i]) by {
        let d = g.edges[x][i] as int;
        assert(g.edge(x, d));
        lemma_settled_in(g, q, d, (k - 1) as nat);
    }
}

proof fn lemma_count_all_open(s: Seq<usize>)
    ensures
        count_open(s, Seq::<usize>::empty()) == s.len(),
    decreases s.len(),
{
    if s.len() > 0 {
        lemma_count_all_open(s.drop_last());
    }
}


/// The own priority level of the task with this ID, or 3 (`P3`) when no
/// task has it.
pub open spec fn own_level(ts: Seq<TaskView>, s: Seq<char>) -> u8 {
    match lookup(ts, s) {
        Some(t) => t.priority.level(),
        None => 3,
    }
}

/// The own priority level of every node.
pub open spec fn own_levels(g: GraphView, ts: Seq<TaskView>) -> Seq<u8> {
    Seq::new(g.n() as nat, |i: int| own_level(ts, g.nodes[i]))
}

/// Node `x` holds the most urgent of its own level and the levels of the
/// nodes that depend on it directly.
pub open spec fn inherits(g: GraphView, own: Seq<u8>, eff: Seq<u8>, x: int) -> bool {
    &&& eff[x] <= own[x]
    &&& forall|y: int| 0 <= y < g.n() && #[trigger] g.edge(y, x) ==> eff[x] <= eff[y]
    &&& (eff[x] == own[x] || exists|y: int| 0 <= y < g.n() && #[trigger] g.edge(y, x) && eff[x] == eff[y])
}

/// `eff` gives the effective priority level of every node: an orderable node
/// inherits the most urgent level of the nodes that depend on it, and a node
/// in or behind a dependency cycle keeps its own level.
pub open spec fn effective_levels(g: GraphView, own: Seq<u8>, eff: Seq<u8>) -> bool {
    &&& eff.len() == g.n()
    &&& forall|x: int|
        0 <= x < g.n() ==> if orderable(g, x) {
            inherits(g, own, eff, x)
        } else {
            #[trigger] eff[x] == own[x]
        }
}

/// The levels of a list of priorities.
pub open spec fn levels(v: Seq<Priority>) -> Seq<u8> {
    v.map_values(|p: Priority| p.level())
}

impl Graph {
    /// The own priority level of every node: its task's priority, or 3 when
    /// no task has its ID.
    pub fn own_priority_levels(&self, tasks: &TaskMap) -> (own: Vec<u8>)
        ensures
            own@ == own_levels(self.view(), tasks.view()),
    {
        let ghost g = self.view();
        let n = self.node_count();
        let mut own: Vec<u8> = Vec::new();
        for i in 0..n
            invariant
                g == self.view(),
                n == g.n(),
                own@.len() == i,
                forall|j: int| 0 <= j < i ==> #[trigger] own@[j] == own_level(tasks.view(), g.nodes[j]),
        {
            let l = match tasks.get(self.node(i).as_str()) {
                Some(t) => t.priority.rank(),
                None => 3,
            };
            own.push(l);
        }
        assert(own@ =~= own_levels(g, tasks.view()));
        own
    }

    /// Effective levels from own levels, visiting nodes in reverse
    /// dependency order so that every dependent is final before its
    /// dependencies are visited.
    #[verifier::spinoff_prover]
    #[verifier::rlimit(60)]
    pub fn propagate_levels(&self, own: &Vec<u8>, order: &Vec<usize>) -> (eff: Vec<u8>)
        requires
            own@.len() == self.view().n(),
            is_dependency_order(self.view(), order@),
        ensures
            effective_levels(self.view(), own@, eff@),
    {
        let ghost g = self.view();
        let n = self.node_count();
        let mut eff: Vec<u8> = Vec::new();
        for i in 0..n
            invariant
                n == own@.len(),
                eff@ == own@.subrange(0, i as int),
        {
            eff.push(own[i]);
            assert(eff@ =~= own@.subrange(0, i + 1));
        }
        assert(eff@ =~= own@);
        let mut p = order.len();
        while p > 0
            invariant
                g == self.view(),
                g.wf(),
                n == g.n(),
                own@.len() == n,
                is_dependency_order(g, order@),
                p <= order@.len(),
                eff@.len() == n,
                forall|v: int| 0 <= v < n && !order@.contains(v as usize) ==> #[trigger] eff@[v] == own@[v],
                forall|r: int| 0 <= r < p ==> #[trigger] eff@[order@[r] as int] == own@[order@[r] as int],
                forall|r: int| p <= r < order@.len() ==> inherits(g, own@, eff@, #[trigger] order@[r] as int),
            decreases p,
        {
            p = p - 1;
            let x = order[p];
            let rev = self.dependents_of(x);
            let mut m = eff[x];
            for idx in 0..rev.len()
                invariant
                    g == self.view(),
                    g.wf(),
                    n == g.n(),
                    x < n,
                    rev@ == g.reverse[x as int],
                    eff@.len() == n,
                    m <= eff@[x as int],
                    forall|j: int| 0 <= j < idx ==> m <= eff@[#[trigger] rev@[j] as int],
                    m == eff@[x as int] || exists|j: int| 0 <= j < idx && m == eff@[#[trigger] rev@[j] as int],
            {
                let y = rev[idx];
                if eff[y] < m {
                    m = eff[y];
                }
            }
            let ghost before = eff@;
            eff.set(x, m);
            proof {
                assert(order@.contains(x));
                assert(before[x as int] == own@[x as int]);
                // no node depends on itself here
                assert(!g.edge(x as int, x as int)) by {
                    if g.edge(x as int, x as int) {
                        let r = choose|r: int| 0 <= r < p && #[trigger] order@[r] == x as usize;
                        assert(order@[r] == order@[p as int]);
                    }
                }
                assert forall|y: int| 0 <= y < n implies (#[trigger] g.edge(y, x as int) <==> rev@.contains(y as usize)) by {}
                assert forall|y: int| 0 <= y < n && #[trigger] g.edge(y, x as int) implies m <= eff@[y] by {
                    let j = choose|j: int| 0 <= j < rev@.len() && rev@[j] == y as usize;
                    assert(m <= before[rev@[j] as int]);
                    assert(y != x as int);
                }
                if m != before[x as int] {
                    let j = choose|j: int| 0 <= j < rev@.len() && m == before[#[trigger] rev@[j] as int];
                    let y = rev@[j] as int;
                    assert(g.edge(y, x as int));
                    assert(y != x as int);
                    assert(eff@[y] == m);
                }
                assert(inherits(g, own@, eff@, x as int));
                assert forall|r: int| p <= r < order@.len() implies inherits(g, own@, eff@, #[trigger] order@[r] as int) by {
                    if r > p {
                        let z = order@[r] as int;
                        assert(z != x as int);
                        assert(inherits(g, own@, before, z));
                        assert forall|y: int| 0 <= y < n && #[trigger] g.edge(y, z) implies y != x as int by {
                            if y == x as int {
                                let q = choose|q: int| 0 <= q < p && #[trigger] order@[q] == z as usize;
                                assert(order@[q] == order@[r]);
                            }
                        }
                        assert forall|y: int| 0 <= y < n && #[trigger] g.edge(y, z) implies eff@[z] <= eff@[y] by {
                            assert(before[z] <= before[y]);
                        }
                        if eff@[z] != own@[z] {
                            let y = choose|y: int| 0 <= y < g.n() && #[trigger] g.edge(y, z) && before[z] == before[y];
                            assert(eff@[z] == eff@[y]);
                        }
                    }
                }
                assert forall|r: int| 0 <= r < p implies #[trigger] eff@[order@[r] as int] == own@[order@[r] as int] by {
                    assert(order@[r] != order@[p as int]);
                }
                assert forall|v: int| 0 <= v < n && !order@.contains(v as usize) implies #[trigger] eff@[v] == own@[v] by {
                    assert(v != x as int);
                }
            }
        }
        proof {
            assert forall|x: int| 0 <= x < g.n() implies if orderable(g, x) {
                inherits(g, own@, eff@, x)
            } else {
                #[trigger] eff@[x] == own@[x]
            } by {
                if orderable(g, x) {
                    assert(order@.contains(x as usize));
                    let r = choose|r: int| 0 <= r < order@.len() && order@[r] == x as usize;
                    assert(inherits(g, own@, eff@, order@[r] as int));
                }
            }
        }
        eff
    }

    /// Compute effective priorities for all nodes: the most urgent of a
    /// task's own priority and the effective priorities of the tasks that
    /// depend on it; tasks in or behind a dependency cycle keep their own
    /// priority, and IDs that name no task count as `P3`. Entry `i` belongs
    /// to node `i`.
    pub fn effective_priorities_all(&self, tasks: &TaskMap) -> (eff: Vec<Priority>)
        ensures
            effective_levels(self.view(), own_levels(self.view(), tasks.view()), levels(eff@)),
    {
        let own = self.own_priority_levels(tasks);
        let order = self.dependency_order();
        let lv = self.propagate_levels(&own, &order);
        let ghost g = self.view();
        assert(forall|i: int| 0 <= i < own@.len() ==> #[trigger] own@[i] <= 3);
        let mut out: Vec<Priority> = Vec::new();
        for i in 0..lv.len()
            invariant
                effective_levels(g, own@, lv@),
                own@ == own_levels(g, tasks.view()),
                out@.len() == i,
                forall|j: int| 0 <= j < i ==> (#[trigger] out@[j]).level() == lv@[j],
        {
            assert(lv@[i as int] <= 3) by {
                let x = i as int;
                if orderable(g, x) {
                    assert(inherits(g, own@, lv@, x));
                } else {
                    assert(lv@[x] == own@[x]);
                }
                assert(own@[x] <= 3);
            }
            out.push(Priority::from_rank(lv[i]));
        }
        assert(levels(out@) =~= lv@);
        out
    }
}


/// No node reaches itself through one or more dependencies.
pub open spec fn acyclic(g: GraphView) -> bool {
    forall|p: Seq<int>| #[trigger] g.is_path(p) && p.len() >= 2 ==> p[0] != p.last()
}

proof fn lemma_pigeonhole(q: Seq<int>, n: int)
    requires
        0 <= n,
        q.len() > n,
        forall|i: int| 0 <= i < q.len() ==> 0 <= #[trigger] q[i] < n,
    ensures
        exists|i: int, j: int| 0 <= i < j < q.len() && q[i] == q[j],
{
    if !(exists|i: int, j: int| 0 <= i < j < q.len() && q[i] == q[j]) {
        assert(q.no_duplicates()) by {
            assert forall|i: int, j: int| 0 <= i < q.len() && 0 <= j < q.len() && i != j implies q[i] != q[j] by {
                if i < j {
                    assert(!(q[i] == q[j]));
                } else {
                    assert(!(q[j] == q[i]));
                }
            }
        }
        q.unique_seq_to_set();
        vstd::set_lib::lemma_int_range(0, n);
        assert(q.to_set().subset_of(vstd::set_lib::set_int_range(0, n))) by {
            assert forall|v: int| q.to_set().contains(v) implies vstd::set_lib::set_int_range(0, n).contains(v) by {
                let i = choose|i: int| 0 <= i < q.len() && q[i] == v;
            }
        }
        vstd::set_lib::lemma_len_subset(q.to_set(), vstd::set_lib::set_int_range(0, n));
    }
}

/// A path that visits some node twice contains a cycle.
proof fn lemma_repeat_is_cycle(g: GraphView, q: Seq<int>, i: int, j: int)
    requires
        g.is_path(q),
        0 <= i < j < q.len(),
        q[i] == q[j],
    ensures
        !acyclic(g),
{
    let c = q.subrange(i, j + 1);
    assert forall|k: int| 0 <= k < c.len() - 1 implies g.edge(#[trigger] c[k], c[k + 1]) by {
        assert(c[k] == q[i + k] && c[k + 1] == q[i + k + 1]);
    }
    assert(g.is_path(c));
    assert(c[0] == c.last());
}

/// Every node listed in `s` is `m`-settled.
pub open spec fn all_settled(g: GraphView, s: Seq<usize>, m: nat) -> bool {
    forall|k: int| 0 <= k < s.len() ==> settled(g, #[trigger] s[k] as int, m)
}

proof fn lemma_deps_settled(g: GraphView, x: int, s: Seq<usize>)
    requires
        g.wf(),
        forall|k: int| 0 <= k < s.len() ==> #[trigger] s[k] < g.n() && orderable(g, s[k] as int),
    ensures
        exists|m: nat| #[trigger] all_settled(g, s, m),
    decreases s.len(),
{
    if s.len() == 0 {
        assert(all_settled(g, s, 0nat));
    } else {
        let t = s.drop_last();
        assert forall|k: int| 0 <= k < t.len() implies #[trigger] t[k] < g.n() && orderable(g, t[k] as int) by {
            assert(t[k] == s[k]);
        }
        lemma_deps_settled(g, x, t);
        let m1 = choose|m: nat| #[trigger] all_settled(g, t, m);
        assert(orderable(g, s.last() as int)) by {
            assert(s[s.len() - 1] == s.last());
        }
        let m2 = choose|m: nat| settled(g, s.last() as int, m);
        let m = if m1 > m2 { m1 } else { m2 };
        assert forall|k: int| 0 <= k < s.len() implies settled(g, #[trigger] s[k] as int, m) by {
            if k < t.len() {
                assert(t[k] == s[k]);
                lemma_settled_mono(g, s[k] as int, m1, m);
            } else {
                lemma_settled_mono(g, s[k] as int, m2, m);
            }
        }
        assert(all_settled(g, s, m));
    }
}

proof fn lemma_unorderable_step(g: GraphView, x: int)
    requires
        g.wf(),
        0 <= x < g.n(),
        !orderable(g, x),
    ensures
        exists|d: int| 0 <= d < g.n() && #[trigger] g.edge(x, d) && !orderable(g, d),
{
    if !(exists|d: int| 0 <= d < g.n() && #[trigger] g.edge(x, d) && !orderable(g, d)) {
        let s = g.edges[x];
        assert forall|k: int| 0 <= k < s.len() implies #[trigger] s[k] < g.n() && orderable(g, s[k] as int) by {
            assert(g.edge(x, s[k] as int));
        }
        lemma_deps_settled(g, x, s);
        let m = choose|m: nat| #[trigger] all_settled(g, s, m);
        assert forall|d: int| 0 <= d < g.n() && #[trigger] g.edge(x, d) implies settled(g, d, m) by {
            assert(all_settled(g, s, m));
            let k = choose|k: int| 0 <= k < s.len() && s[k] == d as usize;
            assert(settled(g, s[k] as int, m));
        }
        assert(settled(g, x, m + 1));
    }
}

proof fn lemma_unorderable_walk(g: GraphView, x: int, m: nat)
    requires
        g.wf(),
        0 <= x < g.n(),
        !orderable(g, x),
        m >= 1,
    ensures
        exists|q: Seq<int>| #[trigger] g.is_path(q) && q.len() == m && q[0] == x,
    decreases m,
{
    if m == 1 {
        let q = seq![x];
        assert(g.is_path(q));
    } else {
        lemma_unorderable_step(g, x);
        let d = choose|d: int| 0 <= d < g.n() && #[trigger] g.edge(x, d) && !orderable(g, d);
        lemma_unorderable_walk(g, d, (m - 1) as nat);
        let q = choose|q: Seq<int>| #[trigger] g.is_path(q) && q.len() == m - 1 && q[0] == d;
        let r = seq![x] + q;
        assert forall|k: int| 0 <= k < r.len() - 1 implies g.edge(#[trigger] r[k], r[k + 1]) by {
            if k > 0 {
                assert(r[k] == q[k - 1] && r[k + 1] == q[k]);
            }
        }
        assert(g.is_path(r));
    }
}

/// In a graph without dependency cycles every node can be ordered.
pub proof fn lemma_acyclic_orderable(g: GraphView, x: int)
    requires
        g.wf(),
        acyclic(g),
        0 <= x < g.n(),
    ensures
        orderable(g, x),
{
    if !orderable(g, x) {
        lemma_unorderable_walk(g, x, (g.n() + 1) as nat);
        let q = choose|q: Seq<int>| #[trigger] g.is_path(q) && q.len() == g.n() + 1 && q[0] == x;
        lemma_pigeonhole(q, g.n());
        let (i, j) = choose|i: int, j: int| 0 <= i < j < q.len() && q[i] == q[j];
        lemma_repeat_is_cycle(g, q, i, j);
    }
}

proof fn lemma_inherit_along_path(g: GraphView, own: Seq<u8>, eff: Seq<u8>, p: Seq<int>)
    requires
        g.wf(),
        acyclic(g),
        effective_levels(g, own, eff),
        g.is_path(p),
    ensures
        eff[p.last()] <= eff[p[0]],
    decreases p.len(),
{
    if p.len() > 1 {
        let t = p.drop_first();
        assert forall|k: int| 0 <= k < t.len() - 1 implies g.edge(#[trigger] t[k], t[k + 1]) by {
            assert(t[k] == p[k + 1] && t[k + 1] == p[k + 2]);
        }
        lemma_inherit_along_path(g, own, eff, t);
        lemma_acyclic_orderable(g, p[1]);
        assert(g.edge(p[0], p[1]));
        assert(inherits(g, own, eff, p[1]));
    } else {
        assert(p.last() == p[0]);
    }
}

proof fn lemma_source_walk(g: GraphView, own: Seq<u8>, eff: Seq<u8>, x: int, m: nat)
    requires
        g.wf(),
        acyclic(g),
        effective_levels(g, own, eff),
        0 <= x < g.n(),
        m >= 1,
    ensures
        (exists|y: int| 0 <= y < g.n() && g.reaches(y, x) && eff[x] == own[y]) || (exists|q: Seq<int>|
            #[trigger] g.is_path(q) && q.len() == m && q.last() == x && eff[q[0]] == eff[x]),
    decreases m,
{
    if m == 1 {
        let q = seq![x];
        assert(g.is_path(q));
        assert(q.last() == x && q[0] == x);
    } else {
        lemma_source_walk(g, own, eff, x, (m - 1) as nat);
        if !(exists|y: int| 0 <= y < g.n() && g.reaches(y, x) && eff[x] == own[y]) {
            let q = choose|q: Seq<int>| #[trigger] g.is_path(q) && q.len() == m - 1 && q.last() == x && eff[q[0]] == eff[x];
            let h = q[0];
            lemma_acyclic_orderable(g, h);
            assert(inherits(g, own, eff, h));
            assert(g.reaches(h, x));
            if eff[h] == own[h] {
                assert(false);
            } else {
                let y = choose|y: int| 0 <= y < g.n() && #[trigger] g.edge(y, h) && eff[h] == eff[y];
                let r = seq![y] + q;
                assert forall|k: int| 0 <= k < r.len() - 1 implies g.edge(#[trigger] r[k], r[k + 1]) by {
                    if k > 0 {
                        assert(r[k] == q[k - 1] && r[k + 1] == q[k]);
                    }
                }
                assert(g.is_path(r));
                assert(r.last() == x);
            }
        }
    }
}

/// Without dependency cycles, a task's effective priority is the most
/// urgent own priority among the task itself and every task that depends
/// on it, directly or transitively: it is at least as urgent as each of
/// them, and equal to one of them.
pub proof fn lemma_effective_is_most_urgent_dependent(
    g: GraphView,
    own: Seq<u8>,
    eff: Seq<u8>,
    x: int,
)
    requires
        g.wf(),
        acyclic(g),
        own.len() == g.n(),
        effective_levels(g, own, eff),
        0 <= x < g.n(),
    ensures
        forall|y: int| 0 <= y < g.n() && #[trigger] g.reaches(y, x) ==> eff[x] <= own[y],
        exists|y: int| 0 <= y < g.n() && #[trigger] g.reaches(y, x) && eff[x] == own[y],
{
    assert forall|y: int| 0 <= y < g.n() && #[trigger] g.reaches(y, x) implies eff[x] <= own[y] by {
        let p = choose|p: Seq<int>| g.is_path(p) && p[0] == y && p.last() == x;
        lemma_inherit_along_path(g, own, eff, p);
        lemma_acyclic_orderable(g, y);
        assert(inherits(g, own, eff, y));
    }
    lemma_source_walk(g, own, eff, x, (g.n() + 1) as nat);
    if !(exists|y: int| 0 <= y < g.n() && g.reaches(y, x) && eff[x] == own[y]) {
        let q = choose|q: Seq<int>| #[trigger] g.is_path(q) && q.len() == g.n() + 1 && q.last() == x && eff[q[0]] == eff[x];
        lemma_pigeonhole(q, g.n());
        let (i, j) = choose|i: int, j: int| 0 <= i < j < q.len() && q[i] == q[j];
        lemma_repeat_is_cycle(g, q, i, j);
    }
}


/// The tasks of `ts` that satisfy `f`, in order.
pub open spec fn filter_tasks(ts: Seq<TaskView>, f: spec_fn(TaskView) -> bool) -> Seq<TaskView>
    decreases ts.len(),
{
    if ts.len() == 0 {
        Seq::<TaskView>::empty()
    } else {
        let r = filter_tasks(ts.drop_last(), f);
        if f(ts.last()) {
            r.push(ts.last())
        } else {
            r
        }
    }
}

/// Every dependency of `t` names a task of `ts`, and that task is done.
pub open spec fn deps_done(ts: Seq<TaskView>, t: TaskView) -> bool {
    forall|k: int|
        0 <= k < t.depends_on.len() ==> match lookup(ts, #[trigger] t.depends_on[k]) {
            Some(d) => d.status == Status::Done,
            None => false,
        }
}

/// A filter keeps exactly the tasks that pass it.
pub proof fn lemma_filter_tasks_keeps(ts: Seq<TaskView>, f: spec_fn(TaskView) -> bool)
    ensures
        forall|x: TaskView| #[trigger] filter_tasks(ts, f).contains(x) <==> (ts.contains(x) && f(x)),
    decreases ts.len(),
{
    if ts.len() > 0 {
        let p = ts.drop_last();
        let l = ts.last();
        lemma_filter_tasks_keeps(p, f);
        let r = filter_tasks(p, f);
        let q = filter_tasks(ts, f);
        assert(ts[ts.len() - 1] == l);
        if f(l) {
            assert(q == r.push(l));
        } else {
            assert(q == r);
        }
        assert forall|x: TaskView| #[trigger] q.contains(x) <==> (ts.contains(x) && f(x)) by {
            if q.contains(x) {
                let k = choose|k: int| 0 <= k < q.len() && q[k] == x;
                if k < r.len() {
                    assert(r[k] == x);
                    assert(r.contains(x));
                    let j = choose|j: int| 0 <= j < p.len() && p[j] == x;
                    assert(ts[j] == x);
                }
            }
            if ts.contains(x) && f(x) {
                let j = choose|j: int| 0 <= j < ts.len() && ts[j] == x;
                if j < ts.len() - 1 {
                    assert(p[j] == x);
                    assert(p.contains(x));
                    assert(r.contains(x));
                    let k = choose|k: int| 0 <= k < r.len() && r[k] == x;
                    assert(q[k] == x);
                } else {
                    assert(q[r.len() as int] == x);
                }
            }
        }
    }
}

/// A filter keeps no more tasks than it is given.
pub proof fn lemma_filter_len(ts: Seq<TaskView>, f: spec_fn(TaskView) -> bool)
    ensures
        filter_tasks(ts, f).len() <= ts.len(),
    decreases ts.len(),
{
    if ts.len() > 0 {
        lemma_filter_len(ts.drop_last(), f);
    }
}

/// The readiness test spelled out: a task is ready exactly when it is open,
/// a plain task, every ID it depends on names a task of `ts` that is done,
/// and it matches the tag and epic filters.
pub proof fn lemma_ready_test(ts: Seq<TaskView>, t: TaskView, tag: Option<Seq<char>>, epic: Option<Seq<char>>)
    ensures
        is_ready(ts, t, tag, epic) <==> {
            &&& t.status == Status::Open
            &&& t.task_type == crate::task::TaskType::Task
            &&& forall|k: int|
                0 <= k < t.depends_on.len() ==> (lookup(ts, #[trigger] t.depends_on[k]) matches Some(d) && d.status == Status::Done)
            &&& crate::task::tag_matches(t, tag)
            &&& (epic matches Some(e) ==> t.parent == Some(e))
        },
{
}

/// No epic filter, or the task's parent is that epic.
pub open spec fn epic_matches(t: TaskView, epic: Option<Seq<char>>) -> bool {
    match epic {
        None => true,
        Some(e) => t.parent == Some(e),
    }
}

/// A task that can be worked on now: open, a plain task (not an epic), with
/// every dependency present and done, and matching the filters.
pub open spec fn is_ready(ts: Seq<TaskView>, t: TaskView, tag: Option<Seq<char>>, epic: Option<Seq<char>>) -> bool {
    &&& t.status == Status::Open
    &&& t.task_type == crate::task::TaskType::Task
    &&& deps_done(ts, t)
    &&& crate::task::tag_matches(t, tag)
    &&& epic_matches(t, epic)
}

/// The effective level of a task: that of its node, or its own priority's
/// level when the graph has no node with its ID.
pub open spec fn effective_level_of(g: GraphView, eff: Seq<u8>, t: TaskView) -> u8 {
    if g.has_node(t.id) {
        eff[choose|i: int| 0 <= i < g.n() && #[trigger] g.nodes[i] == t.id]
    } else {
        t.priority.level()
    }
}

/// The key by which ready tasks are ordered: effective priority, then
/// creation time.
pub open spec fn ready_key(g: GraphView, eff: Seq<u8>, t: TaskView) -> crate::order::SortKey {
    crate::order::SortKey { rank: effective_level_of(g, eff, t), secs: t.created.secs, nanos: t.created.nanos }
}

/// The ready keys of a list of tasks.
pub open spec fn ready_keys(g: GraphView, eff: Seq<u8>, ts: Seq<TaskView>) -> Seq<crate::order::SortKey> {
    ts.map_values(|t: TaskView| ready_key(g, eff, t))
}

/// At most `limit` items, or all when there is no limit.
pub open spec fn cap(n: nat, limit: Option<usize>) -> nat {
    match limit {
        Some(l) => if l < n {
            l as nat
        } else {
            n
        },
        None => n,
    }
}

/// The readiness test against the task list `ts`.
pub open spec fn ready_filter(ts: Seq<TaskView>, tag: Option<Seq<char>>, epic: Option<Seq<char>>) -> spec_fn(TaskView) -> bool {
    |t: TaskView| is_ready(ts, t, tag, epic)
}

/// The tasks that satisfy `is_ready`, in entry order.
pub open spec fn ready_selection(ts: Seq<TaskView>, tag: Option<Seq<char>>, epic: Option<Seq<char>>) -> Seq<TaskView> {
    filter_tasks(ts, ready_filter(ts, tag, epic))
}

/// `r` is what `ready` answers: the ready tasks, stably sorted by effective
/// priority level and creation time, cut to `limit`.
pub open spec fn ready_result(
    g: GraphView,
    ts: Seq<TaskView>,
    tag: Option<Seq<char>>,
    epic: Option<Seq<char>>,
    limit: Option<usize>,
    r: Seq<TaskView>,
) -> bool {
    exists|eff: Seq<u8>, full: Seq<TaskView>|
        #![trigger effective_levels(g, own_levels(g, ts), eff), crate::order::stably_sorted(ready_selection(ts, tag, epic), ready_keys(g, eff, ready_selection(ts, tag, epic)), full)]
        {
            &&& effective_levels(g, own_levels(g, ts), eff)
            &&& crate::order::stably_sorted(ready_selection(ts, tag, epic), ready_keys(g, eff, ready_selection(ts, tag, epic)), full)
            &&& r == full.take(cap(full.len(), limit) as int)
        }
}

/// What `ready` gives holds only tasks that can be worked on now: each is
/// one of the tasks, open, a plain task, and every ID it depends on names a
/// task that is done; each matches the filters. Without a limit it holds
/// every such task.
pub proof fn lemma_ready_tasks_unblocked(
    g: GraphView,
    ts: Seq<TaskView>,
    tag: Option<Seq<char>>,
    epic: Option<Seq<char>>,
    limit: Option<usize>,
    r: Seq<TaskView>,
)
    requires
        ready_result(g, ts, tag, epic, limit, r),
        ts.len() <= usize::MAX,
    ensures
        forall|i: int|
            0 <= i < r.len() ==> {
                &&& ts.contains(#[trigger] r[i])
                &&& r[i].status == Status::Open
                &&& r[i].task_type == crate::task::TaskType::Task
                &&& forall|k: int|
                    0 <= k < r[i].depends_on.len() ==> (lookup(ts, #[trigger] r[i].depends_on[k]) matches Some(d) && d.status
                        == Status::Done)
                &&& crate::task::tag_matches(r[i], tag)
                &&& (epic matches Some(e) ==> r[i].parent == Some(e))
            },
        limit is None ==> forall|x: TaskView|
            ts.contains(x) && x.status == Status::Open && x.task_type == crate::task::TaskType::Task && (forall|k: int|
                0 <= k < x.depends_on.len() ==> (lookup(ts, #[trigger] x.depends_on[k]) matches Some(d) && d.status
                    == Status::Done)) && crate::task::tag_matches(x, tag) && (epic matches Some(e) ==> x.parent == Some(e))
                ==> #[trigger] r.contains(x),
{
    let sel = ready_selection(ts, tag, epic);
    let (eff, full) = choose|eff: Seq<u8>, full: Seq<TaskView>|
        #![trigger effective_levels(g, own_levels(g, ts), eff), crate::order::stably_sorted(ready_selection(ts, tag, epic), ready_keys(g, eff, ready_selection(ts, tag, epic)), full)]
        {
            &&& effective_levels(g, own_levels(g, ts), eff)
            &&& crate::order::stably_sorted(ready_selection(ts, tag, epic), ready_keys(g, eff, ready_selection(ts, tag, epic)), full)
            &&& r == full.take(cap(full.len(), limit) as int)
        };
    crate::graph::lemma_filter_len(ts, ready_filter(ts, tag, epic));
    crate::order::lemma_stably_sorted_perm(sel, ready_keys(g, eff, sel), full);
    lemma_filter_tasks_keeps(ts, ready_filter(ts, tag, epic));
    assert forall|i: int| 0 <= i < r.len() implies is_ready(ts, #[trigger] r[i], tag, epic) && ts.contains(r[i]) by {
        assert(r[i] == full[i]);
        assert(full.contains(r[i]));
        assert(sel.contains(r[i]));
    }
    assert forall|i: int| 0 <= i < r.len() implies {
        &&& ts.contains(#[trigger] r[i])
        &&& r[i].status == Status::Open
        &&& r[i].task_type == crate::task::TaskType::Task
        &&& forall|k: int|
            0 <= k < r[i].depends_on.len() ==> (lookup(ts, #[trigger] r[i].depends_on[k]) matches Some(d) && d.status
                == Status::Done)
        &&& crate::task::tag_matches(r[i], tag)
        &&& (epic matches Some(e) ==> r[i].parent == Some(e))
    } by {
        lemma_ready_test(ts, r[i], tag, epic);
    }
    if limit is None {
        assert(r =~= full);
        assert forall|x: TaskView|
            ts.contains(x) && x.status == Status::Open && x.task_type == crate::task::TaskType::Task && (forall|k: int|
                0 <= k < x.depends_on.len() ==> (lookup(ts, #[trigger] x.depends_on[k]) matches Some(d) && d.status
                    == Status::Done)) && crate::task::tag_matches(x, tag) && (epic matches Some(e) ==> x.parent == Some(e))
            implies #[trigger] r.contains(x) by {
            lemma_ready_test(ts, x, tag, epic);
            assert(sel.contains(x));
        }
    }
}

impl Graph {
    /// The effective level of a task, given the effective levels of all nodes.
    fn effective_level_exec(&self, eff: &Vec<u8>, t: &Task) -> (l: u8)
        requires
            eff@.len() == self.view().n(),
        ensures
            l == effective_level_of(self.view(), eff@, t@),
    {
        let ghost g = self.view();
        match self.find(t.id.as_str()) {
            Some(i) => {
                proof {
                    let j = choose|j: int| 0 <= j < g.n() && #[trigger] g.nodes[j] == t@.id;
                    assert(g.nodes[i as int] == t@.id);
                    assert(j == i as int);
                }
                eff[i]
            },
            None => t.priority.rank(),
        }
    }

    /// Whether task `t` is ready (see `is_ready`).
    pub fn task_is_ready(tasks: &TaskMap, t: &Task, tag: Option<&str>, epic: Option<&str>) -> (r: bool)
        ensures
            r == is_ready(tasks.view(), t@, crate::task::opt_view(tag), crate::task::opt_view(epic)),
    {
        if t.status != Status::Open || !t.task_type.is_task() {
            return false;
        }
        let ghost ts = tasks.view();
        for k in 0..t.depends_on.len()
            invariant
                ts == tasks.view(),
                forall|j: int|
                    0 <= j < k ==> match lookup(ts, #[trigger] t@.depends_on[j]) {
                        Some(d) => d.status == Status::Done,
                        None => false,
                    },
        {
            assert(t@.depends_on[k as int] == t.depends_on@[k as int]@);
            match tasks.get(t.depends_on[k].as_str()) {
                Some(d) => {
                    if d.status != Status::Done {
                        return false;
                    }
                },
                None => {
                    return false;
                },
            }
        }
        if !crate::task::matches_tag(t, tag) {
            return false;
        }
        match epic {
            None => true,
            Some(e) => match &t.parent {
                Some(p) => str_eq(p.as_str(), e),
                None => false,
            },
        }
    }

    /// Tasks that are ready to work on: open, not epics, every dependency
    /// present and done, matching the tag and epic filters. They are sorted
    /// by effective priority (P0 first), then by creation time (oldest
    /// first), ties kept in entry order, and cut to `limit`.
    pub fn ready(&self, tasks: &TaskMap, tag: Option<&str>, limit: Option<usize>, epic: Option<&str>) -> (r: Vec<Task>)
        ensures
            ready_result(self.view(), tasks.view(), crate::task::opt_view(tag), crate::task::opt_view(epic), limit, task_views(r@)),
    {
        let ghost g = self.view();
        let ghost ts = tasks.view();
        let ghost f = ready_filter(ts, crate::task::opt_view(tag), crate::task::opt_view(epic));
        let effp = self.effective_priorities_all(tasks);
        let mut eff: Vec<u8> = Vec::new();
        for i in 0..effp.len()
            invariant
                eff@ == levels(effp@).subrange(0, i as int),
        {
            eff.push(effp[i].rank());
            assert(eff@ =~= levels(effp@).subrange(0, i + 1));
        }
        assert(eff@ =~= levels(effp@));
        let all = tasks.tasks();
        let mut sel: Vec<Task> = Vec::new();
        let mut keys: Vec<crate::order::SortKey> = Vec::new();
        for i in 0..all.len()
            invariant
                ts == tasks.view(),
                ts == task_views(all@),
                g == self.view(),
                eff@.len() == g.n(),
                f == ready_filter(ts, crate::task::opt_view(tag), crate::task::opt_view(epic)),
                task_views(sel@) == filter_tasks(ts.take(i as int), f),
                keys@ == ready_keys(g, eff@, task_views(sel@)),
        {
            let t = &all[i];
            assert(ts.take(i + 1).drop_last() =~= ts.take(i as int));
            assert(ts.take(i + 1).last() == t@);
            if Self::task_is_ready(tasks, t, tag, epic) {
                let k = crate::order::SortKey { rank: self.effective_level_exec(&eff, t), secs: t.created.secs, nanos: t.created.nanos };
                sel.push(t.clone());
                keys.push(k);
                assert(task_views(sel@) =~= filter_tasks(ts.take(i + 1), f));
                assert(keys@ =~= ready_keys(g, eff@, task_views(sel@)));
            } else {
                assert(task_views(sel@) =~= filter_tasks(ts.take(i + 1), f));
            }
        }
        assert(ts.take(all@.len() as int) =~= ts);
        let order = crate::order::stable_order(&keys);
        let sorted = crate::task::gather(&sel, &order);
        let n = sorted.len();
        let lim = match limit {
            Some(l) => if l < n { l } else { n },
            None => n,
        };
        let mut r: Vec<Task> = Vec::new();
        for i in 0..lim
            invariant
                lim <= sorted@.len(),
                r@.len() == i,
                task_views(r@) == task_views(sorted@).take(i as int),
        {
            r.push(sorted[i].clone());
            assert(task_views(r@) =~= task_views(sorted@).take(i + 1));
        }
        proof {
            let selv = task_views(sel@);
            let full = task_views(sorted@);
            assert(forall|k: int| 0 <= k < full.len() ==> #[trigger] full[k] == selv[order@[k] as int]);
            assert(crate::order::stably_sorted(selv, ready_keys(g, eff@, selv), full));
            assert(cap(full.len(), limit) == lim);
            assert(selv == ready_selection(ts, crate::task::opt_view(tag), crate::task::opt_view(epic)));
            assert(effective_levels(g, own_levels(g, ts), eff@));
            assert(task_views(r@) == full.take(cap(full.len(), limit) as int));
        }
        r
    }

    /// The effective priority of one task: that of its node, or else the
    /// task's own priority, or `P3` when no task has the ID.
    pub fn effective_priority(&self, id: &str, tasks: &TaskMap) -> (p: Priority)
        ensures
            exists|eff: Seq<u8>|
                #[trigger] effective_levels(self.view(), own_levels(self.view(), tasks.view()), eff)
                && p.level() == if self.view().has_node(id@) {
                    eff[choose|i: int| 0 <= i < self.view().n() && #[trigger] self.view().nodes[i] == id@]
                } else {
                    own_level(tasks.view(), id@)
                },
    {
        let ghost g = self.view();
        let effp = self.effective_priorities_all(tasks);
        match self.find(id) {
            Some(i) => {
                proof {
                    let j = choose|j: int| 0 <= j < g.n() && #[trigger] g.nodes[j] == id@;
                    assert(g.nodes[i as int] == id@);
                    assert(j == i as int);
                    assert(levels(effp@)[i as int] == effp@[i as int].level());
                }
                effp[i]
            },
            None => match tasks.get(id) {
                Some(t) => t.priority,
                None => Priority::P3,
            },
        }
    }

    /// For each task node, its ID and the IDs it depends on, in node order.
    pub fn adjacency_list(&self) -> (r: Vec<(String, Vec<String>)>)
        ensures
            adjacency_of(self.view(), r@),
    {
        let ghost g = self.view();
        let n = self.node_count();
        let mut r: Vec<(String, Vec<String>)> = Vec::new();
        for i in 0..n
            invariant
                g == self.view(),
                g.wf(),
                n == g.n(),
                adjacency_upto(g, r@, i as int),
        {
            if self.keyed[i] {
                let e = self.deps_of(i);
                let mut names: Vec<String> = Vec::new();
                for q in 0..e.len()
                    invariant
                        g == self.view(),
                        g.wf(),
                        i < g.n(),
                        e@ == g.edges[i as int],
                        names@.len() == q,
                        forall|p: int| 0 <= p < q ==> #[trigger] names@[p]@ == g.nodes[g.edges[i as int][p] as int],
                {
                    names.push(self.node(e[q]).clone());
                }
                let ghost old_r = r@;
                r.push((self.node(i).clone(), names));
                proof {
                    let ks = keyed_upto(g, i as int);
                    assert(keyed_upto(g, i + 1) =~= ks.push(i as int));
                    assert(r@ =~= old_r.push(r@.last()));
                    assert(adjacency_entry(g, r@.last(), i as int));
                }
            } else {
                assert(keyed_upto(g, i + 1) =~= keyed_upto(g, i as int));
            }
        }
        assert(keyed_upto(g, n as int) == keyed_upto(g, g.n()));
        r
    }
}

/// Entry `e` lists node `i`: its ID, and the IDs of its dependencies in
/// edge order.
pub open spec fn adjacency_entry(g: GraphView, e: (String, Vec<String>), i: int) -> bool {
    &&& e.0@ == g.nodes[i]
    &&& e.1@.len() == g.edges[i].len()
    &&& forall|q: int| 0 <= q < e.1@.len() ==> #[trigger] e.1@[q]@ == g.nodes[g.edges[i][q] as int]
}

/// The task nodes (nodes keyed by a task) below `m`, in order.
pub open spec fn keyed_upto(g: GraphView, m: int) -> Seq<int>
    decreases m,
{
    if m <= 0 {
        Seq::<int>::empty()
    } else if g.keyed[m - 1] {
        keyed_upto(g, m - 1).push(m - 1)
    } else {
        keyed_upto(g, m - 1)
    }
}

/// `r` lists the task nodes below `m`, one entry each, in node order.
pub open spec fn adjacency_upto(g: GraphView, r: Seq<(String, Vec<String>)>, m: int) -> bool {
    &&& r.len() == keyed_upto(g, m).len()
    &&& forall|k: int| 0 <= k < r.len() ==> adjacency_entry(g, #[trigger] r[k], keyed_upto(g, m)[k])
}

/// `r` is the adjacency list of `g`: one entry per task node, in node order.
pub open spec fn adjacency_of(g: GraphView, r: Seq<(String, Vec<String>)>) -> bool {
    adjacency_upto(g, r, g.n())
}

/// The nodes below `m` that depend on nothing, in node order.
pub open spec fn dep_free_upto(g: GraphView, m: int) -> Seq<usize>
    decreases m,
{
    if m <= 0 {
        Seq::<usize>::empty()
    } else if g.edges[m - 1].len() == 0 {
        dep_free_upto(g, m - 1).push((m - 1) as usize)
    } else {
        dep_free_upto(g, m - 1)
    }
}

/// The nodes that depend on nothing, in node order.
pub open spec fn dep_free(g: GraphView) -> Seq<usize> {
    dep_free_upto(g, g.n())
}

proof fn lemma_dep_free_upto(g: GraphView, m: int)
    requires
        0 <= m <= g.n(),
        g.n() <= usize::MAX,
        g.edges.len() == g.n(),
    ensures
        forall|i: int| 0 <= i < dep_free_upto(g, m).len() ==> #[trigger] dep_free_upto(g, m)[i] < m,
        forall|i: int, j: int|
            0 <= i < j < dep_free_upto(g, m).len() ==> dep_free_upto(g, m)[i] < dep_free_upto(g, m)[j],
        forall|y: int| 0 <= y < m ==> (dep_free_upto(g, m).contains(y as usize) <==> #[trigger] g.edges[y].len() == 0),
    decreases m,
{
    if m > 0 {
        lemma_dep_free_upto(g, m - 1);
        let s = dep_free_upto(g, m - 1);
        let t = dep_free_upto(g, m);
        assert forall|y: int| 0 <= y < m implies (t.contains(y as usize) <==> #[trigger] g.edges[y].len() == 0) by {
            if g.edges[m - 1].len() == 0 {
                assert(t == s.push((m - 1) as usize));
                if t.contains(y as usize) {
                    let i = choose|i: int| 0 <= i < t.len() && t[i] == y as usize;
                    if i < s.len() {
                        assert(s[i] == y as usize);
                        assert(s.contains(y as usize));
                    }
                }
                if y < m - 1 && s.contains(y as usize) {
                    let i = choose|i: int| 0 <= i < s.len() && s[i] == y as usize;
                    assert(t[i] == y as usize);
                }
                if y == m - 1 {
                    assert(t[s.len() as int] == y as usize);
                }
            } else {
                if y == m - 1 && t.contains(y as usize) {
                    let i = choose|i: int| 0 <= i < t.len() && t[i] == y as usize;
                    assert(s[i] < m - 1);
                }
            }
        }
    }
}

proof fn lemma_distinct_len(q: Seq<usize>, n: int)
    requires
        0 <= n,
        forall|i: int| 0 <= i < q.len() ==> #[trigger] q[i] < n,
        forall|i: int, j: int| 0 <= i < j < q.len() ==> q[i] != q[j],
    ensures
        q.len() <= n,
{
    let qi = q.map_values(|x: usize| x as int);
    assert forall|i: int, j: int| 0 <= i < qi.len() && 0 <= j < qi.len() && i != j implies qi[i] != qi[j] by {
        if i < j {
            assert(q[i] != q[j]);
        } else {
            assert(q[j] != q[i]);
        }
    }
    qi.unique_seq_to_set();
    vstd::set_lib::lemma_int_range(0, n);
    assert forall|x: int| qi.to_set().contains(x) implies vstd::set_lib::set_int_range(0, n).contains(x) by {
        assert(qi.contains(x));
        let i = choose|i: int| 0 <= i < qi.len() && qi[i] == x;
        assert(q[i] < n);
    }
    vstd::set_lib::lemma_len_subset(qi.to_set(), vstd::set_lib::set_int_range(0, n));
}

/// `a` holds no element twice, in the form `distinct_nodes` uses.
proof fn lemma_no_dup_pairs(a: Seq<usize>)
    ensures
        a.no_duplicates() <==> forall|i: int, j: int| 0 <= i < j < a.len() ==> a[i] != a[j],
{
    if forall|i: int, j: int| 0 <= i < j < a.len() ==> a[i] != a[j] {
        assert forall|i: int, j: int| 0 <= i < a.len() && 0 <= j < a.len() && i != j implies a[i] != a[j] by {
            if j < i {
                assert(a[j] != a[i]);
            }
        }
    }
}

/// The nodes of `rev`, in that order, that have no open dependency once
/// the nodes of `done` are taken.
pub open spec fn freed_list(g: GraphView, rev: Seq<usize>, done: Seq<usize>) -> Seq<usize>
    decreases rev.len(),
{
    if rev.len() == 0 {
        Seq::<usize>::empty()
    } else {
        let rest = freed_list(g, rev.drop_last(), done);
        if count_open(g.edges[rev.last() as int], done) == 0 {
            rest.push(rev.last())
        } else {
            rest
        }
    }
}

/// The nodes that taking `q[i]` frees: its dependents, in the order `g`
/// lists them, whose dependencies are all among `q[0..=i]`.
pub open spec fn freed_by(g: GraphView, q: Seq<usize>, i: int) -> Seq<usize> {
    freed_list(g, g.reverse[q[i] as int], q.take(i + 1))
}

/// The batch that taking `q[i]` adds is `q[c[i]..c[i + 1]]`: the nodes it
/// frees, stably sorted by `keys`.
pub open spec fn batch_ok(g: GraphView, keys: Seq<crate::order::SortKey>, q: Seq<usize>, c: Seq<int>, i: int) -> bool {
    &&& c[i] <= c[i + 1]
    &&& crate::order::stably_sorted(freed_by(g, q, i), crate::order::batch_keys(freed_by(g, q, i), keys), q.subrange(c[i], c[i + 1]))
}

/// `q` is the batch-wise Kahn order cut at `c`: first the nodes without
/// dependencies, stably sorted by `keys`, up to `c[0]`; then, for each node
/// `q[i]` in turn, the nodes that taking it frees, stably sorted by `keys`,
/// from `c[i]` to `c[i + 1]`, the last batch ending with `q`.
pub open spec fn kahn_batches(g: GraphView, keys: Seq<crate::order::SortKey>, q: Seq<usize>, c: Seq<int>) -> bool {
    &&& c.len() == q.len() + 1
    &&& 0 <= c[0]
    &&& c[q.len() as int] == q.len()
    &&& crate::order::stably_sorted(dep_free(g), crate::order::batch_keys(dep_free(g), keys), q.take(c[0]))
    &&& forall|i: int| 0 <= i < q.len() ==> #[trigger] batch_ok(g, keys, q, c, i)
}

/// A batch already placed stays what it was when the order grows at its end.
proof fn lemma_batch_ok_extend(
    g: GraphView,
    keys: Seq<crate::order::SortKey>,
    q1: Seq<usize>,
    q2: Seq<usize>,
    c1: Seq<int>,
    c2: Seq<int>,
    i: int,
)
    requires
        0 <= i,
        i + 1 <= q1.len() <= q2.len(),
        q2.take(q1.len() as int) == q1,
        i + 1 < c1.len(),
        i + 1 < c2.len(),
        c2[i] == c1[i],
        c2[i + 1] == c1[i + 1],
        0 <= c1[i] <= c1[i + 1] <= q1.len(),
        batch_ok(g, keys, q1, c1, i),
    ensures
        batch_ok(g, keys, q2, c2, i),
{
    assert(q2[i] == q1.take(q1.len() as int)[i]);
    assert(q2.take(i + 1) =~= q1.take(i + 1)) by {
        assert forall|k: int| 0 <= k < i + 1 implies #[trigger] q2[k] == q1[k] by {
            assert(q2[k] == q2.take(q1.len() as int)[k]);
        }
    }
    assert(q2.subrange(c1[i], c1[i + 1]) =~= q1.subrange(c1[i], c1[i + 1])) by {
        assert forall|k: int| c1[i] <= k < c1[i + 1] implies #[trigger] q2[k] == q1[k] by {
            assert(q2[k] == q2.take(q1.len() as int)[k]);
        }
    }
}

impl Graph {
    /// Kahn's algorithm in batches: the nodes without dependencies first,
    /// stably sorted by `keys`; then, each time a node is taken, the nodes
    /// that it was the last open dependency of, stably sorted by `keys`
    /// among themselves, go to the back of the queue. Nodes in or behind a
    /// dependency cycle are never taken.
    #[verifier::spinoff_prover]
    #[verifier::rlimit(100)]
    pub fn batch_order(&self, keys: &Vec<crate::order::SortKey>) -> (q: Vec<usize>)
        requires
            keys@.len() == self.view().n(),
        ensures
            is_dependency_order(self.view(), q@),
            exists|c: Seq<int>| #[trigger] kahn_batches(self.view(), keys@, q@, c),
    {
        let ghost g = self.view();
        let n = self.node_count();
        let mut in_deg: Vec<usize> = Vec::new();
        let mut seeds: Vec<usize> = Vec::new();
        for x in 0..n
            invariant
                g == self.view(),
                g.wf(),
                n == g.n(),
                in_deg@.len() == x,
                forall|y: int| 0 <= y < x ==> #[trigger] in_deg@[y] == count_open(g.edges[y], Seq::<usize>::empty()),
                forall|y: int| 0 <= y < x ==> #[trigger] in_deg@[y] == g.edges[y].len(),
                seeds@ == dep_free_upto(g, x as int),
        {
            let d = self.deps_of(x).len();
            proof {
                lemma_count_all_open(g.edges[x as int]);
            }
            in_deg.push(d);
            if d == 0 {
                seeds.push(x);
            }
        }
        proof {
            lemma_dep_free_upto(g, n as int);
            lemma_no_dup_pairs(seeds@);
            assert(forall|i: int| 0 <= i < seeds@.len() ==> #[trigger] seeds@[i] < keys@.len());
            assert forall|i: int, j: int| 0 <= i < j < seeds@.len() implies seeds@[i] != seeds@[j] by {
                assert(seeds@[i] < seeds@[j]);
            }
            lemma_distinct_len(seeds@, n as int);
        }
        let mut queue = crate::order::sort_batch(&seeds, keys);
        proof {
            crate::order::lemma_stably_sorted_perm(seeds@, crate::order::batch_keys(seeds@, keys@), queue@);
            lemma_no_dup_pairs(queue@);
            assert forall|i: int| 0 <= i < queue@.len() implies #[trigger] queue@[i] < n by {
                assert(queue@.contains(queue@[i]));
                assert(seeds@.contains(queue@[i]));
            }
            assert forall|y: int| 0 <= y < n implies (queue@.contains(y as usize) <==> #[trigger] in_deg@[y] == 0) by {
                assert(in_deg@[y] == count_open(g.edges[y], Seq::<usize>::empty()));
                assert(in_deg@[y] == g.edges[y].len());
            }
            assert(queue@.subrange(0, 0) =~= Seq::<usize>::empty());
            assert forall|p: int, d: int|
                0 <= p < queue@.len() && 0 <= d < g.n() && #[trigger] g.edge(queue@[p] as int, d) implies exists|r: int|
                    0 <= r < p && #[trigger] queue@[r] == d as usize by {
                assert(queue@.contains(queue@[p]));
                assert(seeds@.contains(queue@[p]));
                assert(g.edges[queue@[p] as int].len() == 0);
            }
            assert(queue@.take(queue@.len() as int) =~= queue@);
        }
        let ghost m = queue@.len() as int;
        let ghost pre = queue@;
        let ghost mut cuts: Seq<int> = seq![m];
        let mut head: usize = 0;
        while head < queue.len()
            invariant
                g == self.view(),
                g.wf(),
                n == g.n(),
                keys@.len() == n,
                in_deg@.len() == n,
                head <= queue@.len(),
                0 <= m <= queue@.len(),
                queue@.take(m) == pre,
                crate::order::stably_sorted(dep_free(g), crate::order::batch_keys(dep_free(g), keys@), pre),
                distinct_nodes(g, queue@),
                deps_before(g, queue@),
                forall|y: int| 0 <= y < n ==> #[trigger] in_deg@[y] == count_open(g.edges[y], queue@.subrange(0, head as int)),
                forall|y: int| 0 <= y < n ==> (queue@.contains(y as usize) <==> #[trigger] in_deg@[y] == 0),
                cuts.len() == head + 1,
                cuts[0] == m,
                cuts[head as int] == queue@.len(),
                forall|i: int| 0 <= i <= head ==> m <= #[trigger] cuts[i] <= queue@.len(),
                forall|i: int| 0 <= i < head ==> #[trigger] batch_ok(g, keys@, queue@, cuts, i),
            decreases n - head,
        {
            proof {
                lemma_distinct_len(queue@, n as int);
            }
            let cur = queue[head];
            let ghost done_old = queue@.subrange(0, head as int);
            let ghost head_old = head;
            head = head + 1;
            proof {
                assert(!done_old.contains(cur)) by {
                    if done_old.contains(cur) {
                        let i = choose|i: int| 0 <= i < done_old.len() && done_old[i] == cur;
                        assert(queue@[i] == queue@[head_old as int]);
                    }
                }
                assert(queue@.subrange(0, head as int) =~= done_old.push(cur));
                assert forall|y: int| 0 <= y < n implies #[trigger] count_open(g.edges[y], done_old) == count_open(g.edges[y], queue@.subrange(0, head as int)) + if g.edges[y].contains(cur) { 1nat } else { 0nat } by {
                    lemma_count_open_step(g.edges[y], done_old, cur);
                }
            }
            let rev = self.dependents_of(cur);
            proof {
                assert(rev@.subrange(0, rev@.len() as int) =~= rev@);
                assert forall|y: int| 0 <= y < n implies #[trigger] in_deg@[y] == count_open(g.edges[y], queue@.subrange(0, head as int)) + if rev@.subrange(0, rev@.len() as int).contains(y as usize) { 1nat } else { 0nat } by {
                    assert(g.edges[y].contains(cur) <==> g.reverse[cur as int].contains(y as usize));
                    assert(count_open(g.edges[y], done_old) == count_open(g.edges[y], queue@.subrange(0, head as int)) + if g.edges[y].contains(cur) { 1nat } else { 0nat });
                }
                assert(queue@ + Seq::<usize>::empty() =~= queue@);
            }
            let ghost done = queue@.subrange(0, head as int);
            let mut batch: Vec<usize> = Vec::new();
            for idx in 0..rev.len()
                invariant
                    g == self.view(),
                    g.wf(),
                    n == g.n(),
                    cur < n,
                    rev@ == g.reverse[cur as int],
                    in_deg@.len() == n,
                    head <= queue@.len(),
                    0 <= m <= queue@.len(),
                    done == queue@.subrange(0, head as int),
                    distinct_nodes(g, queue@ + batch@),
                    batch@ == freed_list(g, rev@.take(idx as int), done),
                    forall|i: int| 0 <= i < batch@.len() ==> count_open(g.edges[#[trigger] batch@[i] as int], done) == 0,
                    forall|y: int| 0 <= y < n ==> #[trigger] in_deg@[y] == count_open(g.edges[y], done) + if rev@.subrange(idx as int, rev@.len() as int).contains(y as usize) { 1nat } else { 0nat },
                    forall|y: int| 0 <= y < n ==> ((queue@ + batch@).contains(y as usize) <==> #[trigger] in_deg@[y] == 0),
            {
                let y = rev[idx];
                let ghost qb = queue@ + batch@;
                let ghost tail0 = rev@.subrange(idx as int, rev@.len() as int);
                let ghost tail1 = rev@.subrange(idx + 1, rev@.len() as int);
                proof {
                    assert(y < n);
                    assert(tail0[0] == y);
                    assert(tail0.contains(y));
                    assert(!tail1.contains(y)) by {
                        if tail1.contains(y) {
                            let i = choose|i: int| 0 <= i < tail1.len() && tail1[i] == y;
                            assert(rev@[idx + 1 + i] == rev@[idx as int]);
                        }
                    }
                    assert forall|z: int| 0 <= z < n && z != y as int implies (#[trigger] tail0.contains(z as usize) <==> tail1.contains(z as usize)) by {
                        if tail0.contains(z as usize) {
                            let i = choose|i: int| 0 <= i < tail0.len() && tail0[i] == z as usize;
                            assert(i != 0);
                            assert(tail1[i - 1] == z as usize);
                        }
                        if tail1.contains(z as usize) {
                            let i = choose|i: int| 0 <= i < tail1.len() && tail1[i] == z as usize;
                            assert(tail0[i + 1] == z as usize);
                        }
                    }
                    assert(in_deg@[y as int] >= 1);
                    assert(!qb.contains(y));
                }
                let ghost deg_before = in_deg@;
                let dy = in_deg[y] - 1;
                in_deg.set(y, dy);
                proof {
                    assert(in_deg@[y as int] == count_open(g.edges[y as int], done));
                }
                if dy == 0 {
                    let ghost old_b = batch@;
                    batch.push(y);
                    proof {
                        let tk = rev@.take(idx + 1);
                        assert(tk.drop_last() =~= rev@.take(idx as int));
                        assert(tk.last() == y);
                        assert(count_open(g.edges[y as int], done) == 0);
                        assert(freed_list(g, tk, done) == freed_list(g, tk.drop_last(), done).push(tk.last()));
                        assert(freed_list(g, rev@.take(idx + 1), done) == freed_list(g, rev@.take(idx as int), done).push(y));
                        assert(queue@ + batch@ =~= qb.push(y));
                        assert forall|z: int| 0 <= z < n implies ((queue@ + batch@).contains(z as usize) <==> #[trigger] in_deg@[z] == 0) by {
                            if qb.push(y).contains(z as usize) {
                                let i = choose|i: int| 0 <= i < qb.push(y).len() && qb.push(y)[i] == z as usize;
                                if i < qb.len() {
                                    assert(qb[i] == z as usize);
                                    assert(qb.contains(z as usize));
                                }
                            }
                            if qb.contains(z as usize) {
                                let i = choose|i: int| 0 <= i < qb.len() && qb[i] == z as usize;
                                assert(qb.push(y)[i] == z as usize);
                            }
                            if z == y as int {
                                assert(qb.push(y)[qb.len() as int] == y);
                            } else {
                                assert(in_deg@[z] == deg_before[z]);
                            }
                        }
                        assert forall|i: int, j: int| 0 <= i < j < (queue@ + batch@).len() implies (queue@ + batch@)[i] != (queue@ + batch@)[j] by {
                            if j == qb.len() {
                                assert(qb[i] != y) by {
                                    if qb[i] == y {
                                        assert(qb.contains(y));
                                    }
                                }
                            } else {
                                assert(qb[i] != qb[j]);
                            }
                        }
                        assert forall|i: int| 0 <= i < batch@.len() implies count_open(g.edges[#[trigger] batch@[i] as int], done) == 0 by {
                            if i < old_b.len() {
                                assert(batch@[i] == old_b[i]);
                            }
                        }
                    }
                } else {
                    proof {
                        let tk = rev@.take(idx + 1);
                        assert(tk.drop_last() =~= rev@.take(idx as int));
                        assert(tk.last() == y);
                        assert(count_open(g.edges[y as int], done) != 0);
                        assert(freed_list(g, tk, done) == freed_list(g, tk.drop_last(), done));
                        assert(freed_list(g, rev@.take(idx + 1), done) == freed_list(g, rev@.take(idx as int), done));
                        assert forall|z: int| 0 <= z < n implies ((queue@ + batch@).contains(z as usize) <==> #[trigger] in_deg@[z] == 0) by {
                            if z != y as int {
                                assert(in_deg@[z] == deg_before[z]);
                            }
                        }
                    }
                }
                proof {
                    assert forall|z: int| 0 <= z < n implies #[trigger] in_deg@[z] == count_open(g.edges[z], done) + if tail1.contains(z as usize) { 1nat } else { 0nat } by {
                        if z != y as int {
                            assert(in_deg@[z] == deg_before[z]);
                        }
                    }
                }
            }
            proof {
                assert forall|y: int| 0 <= y < n implies #[trigger] in_deg@[y] == count_open(g.edges[y], done) by {
                    assert(!rev@.subrange(rev@.len() as int, rev@.len() as int).contains(y as usize));
                }
                assert forall|i: int| 0 <= i < batch@.len() implies #[trigger] batch@[i] < keys@.len() by {
                    assert((queue@ + batch@)[queue@.len() + i] == batch@[i]);
                }
            }
            proof {
                assert(rev@.take(rev@.len() as int) =~= rev@);
            }
            let ghost qb = queue@ + batch@;
            let ghost old_q = queue@;
            let mut sorted = crate::order::sort_batch(&batch, keys);
            let ghost sorted_v = sorted@;
            proof {
                lemma_distinct_len(qb, n as int);
                crate::order::lemma_stably_sorted_perm(batch@, crate::order::batch_keys(batch@, keys@), sorted@);
                lemma_no_dup_pairs(qb);
                lemma_no_dup_pairs(batch@);
                assert forall|i: int, j: int| 0 <= i < j < batch@.len() implies batch@[i] != batch@[j] by {
                    assert(qb[queue@.len() + i] != qb[queue@.len() + j]);
                }
            }
            queue.append(&mut sorted);
            proof {
                let sv = queue@.subrange(old_q.len() as int, queue@.len() as int);
                assert(queue@ =~= old_q + sv);
                assert forall|x: usize| sv.contains(x) <==> batch@.contains(x) by {
                    assert(sv =~= sorted_v);
                    assert(sv.contains(x) <==> sorted_v.contains(x)) by {
                        if sv.contains(x) {
                            let i = choose|i: int| 0 <= i < sv.len() && sv[i] == x;
                        }
                    }
                }
                assert forall|x: usize| queue@.contains(x) <==> qb.contains(x) by {
                    if queue@.contains(x) {
                        let i = choose|i: int| 0 <= i < queue@.len() && queue@[i] == x;
                        if i < old_q.len() {
                            assert(qb[i] == x);
                        } else {
                            assert(sv[i - old_q.len()] == x);
                            assert(batch@.contains(x));
                            let k = choose|k: int| 0 <= k < batch@.len() && batch@[k] == x;
                            assert(qb[old_q.len() + k] == x);
                        }
                    }
                    if qb.contains(x) {
                        let i = choose|i: int| 0 <= i < qb.len() && qb[i] == x;
                        if i < old_q.len() {
                            assert(queue@[i] == x);
                        } else {
                            assert(batch@[i - old_q.len()] == x);
                            assert(sv.contains(x));
                            let k = choose|k: int| 0 <= k < sv.len() && sv[k] == x;
                            assert(queue@[old_q.len() + k] == x);
                        }
                    }
                }
                assert forall|i: int| 0 <= i < queue@.len() implies #[trigger] queue@[i] < n by {
                    assert(queue@.contains(queue@[i]));
                    assert(qb.contains(queue@[i]));
                    let k = choose|k: int| 0 <= k < qb.len() && qb[k] == queue@[i];
                }
                assert(qb.no_duplicates());
                assert forall|i: int, j: int| 0 <= i < j < queue@.len() implies queue@[i] != queue@[j] by {
                    if j < old_q.len() {
                        assert(qb[i] != qb[j]);
                    } else if i < old_q.len() {
                        let x = queue@[j];
                        assert(sv[j - old_q.len()] == x);
                        assert(batch@.contains(x));
                        let k = choose|k: int| 0 <= k < batch@.len() && batch@[k] == x;
                        assert(qb[old_q.len() + k] == x);
                        assert(qb[i] == queue@[i]);
                    } else {
                        assert(sv.no_duplicates());
                        assert(sv[i - old_q.len()] != sv[j - old_q.len()]);
                    }
                }
                assert forall|p: int, d: int|
                    0 <= p < queue@.len() && 0 <= d < g.n() && #[trigger] g.edge(queue@[p] as int, d) implies exists|r: int|
                        0 <= r < p && #[trigger] queue@[r] == d as usize by {
                    if p < old_q.len() {
                        assert(queue@[p] == old_q[p]);
                        let r = choose|r: int| 0 <= r < p && #[trigger] old_q[r] == d as usize;
                        assert(queue@[r] == d as usize);
                    } else {
                        let x = queue@[p];
                        assert(sv[p - old_q.len()] == x);
                        assert(batch@.contains(x));
                        let k = choose|k: int| 0 <= k < batch@.len() && batch@[k] == x;
                        assert(count_open(g.edges[batch@[k] as int], done) == 0);
                        lemma_count_open_zero(g.edges[x as int], done);
                        let e = choose|e: int| 0 <= e < g.edges[x as int].len() && g.edges[x as int][e] == d as usize;
                        assert(done.contains(g.edges[x as int][e]));
                        let r = choose|r: int| 0 <= r < done.len() && done[r] == d as usize;
                        assert(queue@[r] == d as usize);
                    }
                }
                assert(queue@.subrange(0, head as int) =~= done);
                assert(queue@.take(m) =~= old_q.take(m));
                let c_old = cuts;
                cuts = cuts.push(queue@.len() as int);
                assert(queue@.take(old_q.len() as int) =~= old_q);
                assert forall|i: int| 0 <= i < head implies #[trigger] batch_ok(g, keys@, queue@, cuts, i) by {
                    if i < head - 1 {
                        assert(batch_ok(g, keys@, old_q, c_old, i));
                        assert(m <= c_old[i] <= old_q.len());
                        assert(m <= c_old[i + 1] <= old_q.len());
                        lemma_batch_ok_extend(g, keys@, old_q, queue@, c_old, cuts, i);
                    } else {
                        assert(i == head_old);
                        assert(queue@[i] == cur);
                        assert(queue@.take(i + 1) =~= done);
                        assert(freed_by(g, queue@, i) == batch@);
                        assert(queue@.subrange(cuts[i], cuts[i + 1]) =~= sorted_v);
                    }
                }
            }
        }
        proof {
            assert(queue@.subrange(0, head as int) =~= queue@);
            let q = queue@;
            assert forall|y: int| 0 <= y < g.n() implies (q.contains(y as usize) <==> count_open(#[trigger] g.edges[y], q) == 0) by {
                assert(in_deg@[y] == count_open(g.edges[y], q));
            }
            assert forall|x: int| 0 <= x < g.n() implies (q.contains(x as usize) <==> orderable(g, x)) by {
                if q.contains(x as usize) {
                    let p = choose|p: int| 0 <= p < q.len() && q[p] == x as usize;
                    lemma_prefix_settled(g, q, p);
                    assert(settled(g, x, (p + 1) as nat));
                }
                if orderable(g, x) {
                    let k = choose|k: nat| settled(g, x, k);
                    lemma_settled_in(g, q, x, k);
                }
            }
            assert(crate::order::stably_sorted(dep_free(g), crate::order::batch_keys(dep_free(g), keys@), q.take(m)));
            assert(kahn_batches(g, keys@, q, cuts));
        }
        queue
    }
}

/// `a` depends on `b` within the subset `sub`: both are in it, and `a` is a
/// task node of `g` that lists `b`.
pub open spec fn sub_dep(g: GraphView, sub: Seq<Seq<char>>, a: Seq<char>, b: Seq<char>) -> bool {
    &&& sub.contains(a)
    &&& sub.contains(b)
    &&& exists|i: int, j: int|
        0 <= i < g.n() && 0 <= j < g.n() && g.keyed[i] && #[trigger] g.nodes[i] == a && #[trigger] g.nodes[j] == b
            && g.edge(i, j)
}

/// `sv` is the dependency graph of the subset `sub` of `g`: one node per
/// distinct ID of `sub`, and node `i` depends on node `j` exactly when
/// `sub_dep` holds of their IDs.
pub open spec fn subset_graph(g: GraphView, sub: Seq<Seq<char>>, sv: GraphView) -> bool {
    &&& sv.wf()
    &&& forall|s: Seq<char>| #[trigger] sv.has_node(s) <==> sub.contains(s)
    &&& forall|i: int, j: int|
        0 <= i < sv.n() && 0 <= j < sv.n() ==> ((#[trigger] sv.edge(i, j)) <==> sub_dep(g, sub, sv.nodes[i], sv.nodes[j]))
}

/// The key by which a subset ID is placed among those ready at the same
/// time: its task's priority level, then creation time. An ID that names
/// no task sorts after all tasks.
pub open spec fn slot_key(ts: Seq<TaskView>, s: Seq<char>) -> crate::order::SortKey {
    match lookup(ts, s) {
        Some(t) => crate::order::SortKey { rank: t.priority.level(), secs: t.created.secs, nanos: t.created.nanos },
        None => crate::order::SortKey { rank: 4, secs: 0, nanos: 0 },
    }
}

/// The key of every node of `sv`.
pub open spec fn slot_keys(ts: Seq<TaskView>, sv: GraphView) -> Seq<crate::order::SortKey> {
    Seq::new(sv.n() as nat, |i: int| slot_key(ts, sv.nodes[i]))
}

/// The tasks of the nodes listed in `q`, in that order, skipping nodes
/// whose ID names no task.
pub open spec fn tasks_along(ts: Seq<TaskView>, sv: GraphView, q: Seq<usize>) -> Seq<TaskView>
    decreases q.len(),
{
    if q.len() == 0 {
        Seq::<TaskView>::empty()
    } else {
        let r = tasks_along(ts, sv, q.drop_last());
        match lookup(ts, sv.nodes[q.last() as int]) {
            Some(t) => r.push(t),
            None => r,
        }
    }
}

/// `r` is what `topo_sort_subset` answers for `sub`: the tasks of the
/// subset graph in the batch-wise Kahn order, each batch of nodes that
/// become ready together stably sorted by key.
pub open spec fn topo_result(g: GraphView, sub: Seq<Seq<char>>, ts: Seq<TaskView>, r: Seq<TaskView>) -> bool {
    exists|sv: GraphView, q: Seq<usize>, c: Seq<int>|
        #![trigger subset_graph(g, sub, sv), is_dependency_order(sv, q), kahn_batches(sv, slot_keys(ts, sv), q, c)]
        {
            &&& subset_graph(g, sub, sv)
            &&& is_dependency_order(sv, q)
            &&& kahn_batches(sv, slot_keys(ts, sv), q, c)
            &&& r == tasks_along(ts, sv, q)
        }
}

/// A placeholder task that carries only an ID and dependencies.
fn stub_task(id: String, deps: Vec<String>) -> (t: Task)
    ensures
        t@.id == id@,
        t@.depends_on == crate::task::str_views(deps@),
{
    Task {
        id,
        title: String::new(),
        task_type: crate::task::TaskType::Task,
        status: Status::Open,
        priority: Priority::P3,
        created: crate::task::Timestamp { secs: 0, nanos: 0 },
        updated: crate::task::Timestamp { secs: 0, nanos: 0 },
        tags: Vec::new(),
        depends_on: deps,
        parent: None,
        assignee: String::new(),
        body: String::new(),
    }
}

impl Graph {
    /// The IDs that task node `i` depends on within `slots`, or none when
    /// `i` is no task node.
    fn deps_within(&self, name: &str, slots: &Vec<String>) -> (deps: Vec<String>)
        ensures
            forall|b: Seq<char>|
                #[trigger] crate::task::str_views(deps@).contains(b) <==> (crate::task::str_views(slots@).contains(b)
                    && exists|i: int, j: int|
                    0 <= i < self.view().n() && 0 <= j < self.view().n() && self.view().keyed[i]
                        && #[trigger] self.view().nodes[i] == name@ && #[trigger] self.view().nodes[j] == b
                        && self.view().edge(i, j)),
    {
        let ghost g = self.view();
        self.check_wf();
        let mut deps: Vec<String> = Vec::new();
        match self.find(name) {
            Some(i) => {
                if self.keyed[i] {
                    let e = self.deps_of(i);
                    for q in 0..e.len()
                        invariant
                            g == self.view(),
                            g.wf(),
                            i < g.n(),
                            g.nodes[i as int] == name@,
                            g.keyed[i as int],
                            e@ == g.edges[i as int],
                            forall|b: Seq<char>|
                                #[trigger] crate::task::str_views(deps@).contains(b) <==> (crate::task::str_views(slots@).contains(b)
                                    && exists|p: int| 0 <= p < q && g.nodes[e@[p] as int] == b),
                    {
                        let nm = self.node(e[q]);
                        let ghost before = deps@;
                        if crate::task::contains_string(slots, nm.as_str()) {
                            deps.push(nm.clone());
                        }
                        proof {
                            assert forall|b: Seq<char>|
                                #[trigger] crate::task::str_views(deps@).contains(b) <==> (crate::task::str_views(slots@).contains(b)
                                    && exists|p: int| 0 <= p < q + 1 && g.nodes[e@[p] as int] == b) by {
                                if crate::task::str_views(deps@).contains(b) {
                                    let k = choose|k: int| 0 <= k < deps@.len() && crate::task::str_views(deps@)[k] == b;
                                    if k < before.len() {
                                        assert(crate::task::str_views(before)[k] == b);
                                        assert(crate::task::str_views(before).contains(b));
                                    }
                                }
                                if crate::task::str_views(slots@).contains(b) && exists|p: int| 0 <= p < q + 1 && g.nodes[e@[p] as int] == b {
                                    let p = choose|p: int| 0 <= p < q + 1 && g.nodes[e@[p] as int] == b;
                                    if p < q {
                                        assert(crate::task::str_views(before).contains(b));
                                        let k = choose|k: int| 0 <= k < before.len() && crate::task::str_views(before)[k] == b;
                                        assert(crate::task::str_views(deps@)[k] == b);
                                    } else {
                                        assert(crate::task::str_views(deps@)[deps@.len() - 1] == b);
                                    }
                                }
                            }
                        }
                    }
                    proof {
                        assert forall|b: Seq<char>|
                            #[trigger] crate::task::str_views(deps@).contains(b) <==> (crate::task::str_views(slots@).contains(b)
                                && exists|i2: int, j: int|
                                0 <= i2 < g.n() && 0 <= j < g.n() && g.keyed[i2]
                                    && #[trigger] g.nodes[i2] == name@ && #[trigger] g.nodes[j] == b
                                    && g.edge(i2, j)) by {
                            if exists|p: int| 0 <= p < e@.len() && g.nodes[e@[p] as int] == b {
                                let p = choose|p: int| 0 <= p < e@.len() && g.nodes[e@[p] as int] == b;
                                let j = e@[p] as int;
                                assert(g.nodes[i as int] == name@ && g.nodes[j] == b && g.edge(i as int, j));
                            }
                            if exists|i2: int, j: int|
                                0 <= i2 < g.n() && 0 <= j < g.n() && g.keyed[i2]
                                    && #[trigger] g.nodes[i2] == name@ && #[trigger] g.nodes[j] == b
                                    && g.edge(i2, j) {
                                let (i2, j) = choose|i2: int, j: int|
                                    0 <= i2 < g.n() && 0 <= j < g.n() && g.keyed[i2]
                                        && #[trigger] g.nodes[i2] == name@ && #[trigger] g.nodes[j] == b
                                        && g.edge(i2, j);
                                assert(i2 == i as int) by {
                                    if i2 != i as int {
                                        assert(g.nodes[i2] != g.nodes[i as int]);
                                    }
                                }
                                let p = choose|p: int| 0 <= p < e@.len() && e@[p] == j as usize;
                                assert(g.nodes[e@[p] as int] == b);
                            }
                        }
                    }
                } else {
                    proof {
                        assert forall|i2: int|
                            0 <= i2 < g.n() && #[trigger] g.keyed[i2] implies g.nodes[i2] != name@ by {
                            if i2 != i as int {
                                assert(g.nodes[i2] != g.nodes[i as int]);
                            }
                        }
                    }
                }
            },
            None => {},
        }
        deps
    }
}

proof fn lemma_dedup_step(before: Seq<Seq<char>>, after: Seq<Seq<char>>, st: Seq<Seq<char>>, x: Seq<char>)
    requires
        before.no_duplicates(),
        forall|s: Seq<char>| #[trigger] before.contains(s) <==> st.contains(s),
        (after == before.push(x) && !before.contains(x)) || (after == before && before.contains(x)),
    ensures
        after.no_duplicates(),
        forall|s: Seq<char>| #[trigger] after.contains(s) <==> st.push(x).contains(s),
{
    assert forall|s: Seq<char>| #[trigger] st.push(x).contains(s) <==> (st.contains(s) || s == x) by {
        if st.push(x).contains(s) {
            let p = choose|p: int| 0 <= p < st.len() + 1 && #[trigger] st.push(x)[p] == s;
            if p < st.len() {
                assert(st[p] == s);
            }
        }
        if st.contains(s) {
            let p = choose|p: int| 0 <= p < st.len() && st[p] == s;
            assert(st.push(x)[p] == s);
        }
        if s == x {
            assert(st.push(x)[st.len() as int] == s);
        }
    }
    if before.contains(x) {
        assert(after == before);
    } else {
        assert(after == before.push(x));
        assert forall|s: Seq<char>| #[trigger] after.contains(s) <==> (before.contains(s) || s == x) by {
            if after.contains(s) {
                let k = choose|k: int| 0 <= k < after.len() && after[k] == s;
                if k < before.len() {
                    assert(before[k] == s);
                }
            }
            if before.contains(s) {
                let k = choose|k: int| 0 <= k < before.len() && before[k] == s;
                assert(after[k] == s);
            }
            if s == x {
                assert(after[before.len() as int] == s);
            }
        }
        assert forall|i: int, j: int| 0 <= i < after.len() && 0 <= j < after.len() && i != j implies after[i] != after[j] by {
            if i < before.len() && j < before.len() {
                assert(before[i] != before[j]);
            } else if i < before.len() {
                assert(before.contains(before[i]));
            } else {
                assert(before.contains(before[j]));
            }
        }
    }
}

impl Graph {
    /// Topological order of the tasks whose IDs are in `subset`, counting
    /// only dependencies between members of the subset. The members without
    /// such dependencies come first, by priority (P0 first) and then
    /// creation time (oldest first); each time a member is taken, the
    /// members it was the last open dependency of follow at the back, sorted
    /// the same way among themselves. Members in or behind a cycle inside
    /// the subset, and IDs that name no task, are left out.
    #[verifier::rlimit(40)]
    pub fn topo_sort_subset(&self, subset: &Vec<String>, tasks: &TaskMap) -> (r: Vec<Task>)
        ensures
            topo_result(self.view(), crate::task::str_views(subset@), tasks.view(), task_views(r@)),
    {
        let ghost g = self.view();
        let ghost sub = crate::task::str_views(subset@);
        let ghost ts = tasks.view();
        self.check_wf();
        let mut slots: Vec<String> = Vec::new();
        for i in 0..subset.len()
            invariant
                sub == crate::task::str_views(subset@),
                crate::task::str_views(slots@).no_duplicates(),
                forall|s: Seq<char>| #[trigger] crate::task::str_views(slots@).contains(s) <==> sub.take(i as int).contains(s),
        {
            let ghost before = crate::task::str_views(slots@);
            let ghost x = subset@[i as int]@;
            assert(sub.take(i + 1) =~= sub.take(i as int).push(x));
            if !crate::task::contains_string(&slots, subset[i].as_str()) {
                slots.push(subset[i].clone());
                assert(crate::task::str_views(slots@) =~= before.push(x));
                proof {
                    lemma_dedup_step(before, crate::task::str_views(slots@), sub.take(i as int), x);
                }
            } else {
                assert(crate::task::str_views(slots@) =~= before);
                proof {
                    lemma_dedup_step(before, crate::task::str_views(slots@), sub.take(i as int), x);
                }
            }
        }
        assert(sub.take(subset@.len() as int) =~= sub);
        let ghost slv = crate::task::str_views(slots@);
        let mut stubs = TaskMap::new();
        for k in 0..slots.len()
            invariant
                g == self.view(),
                slv == crate::task::str_views(slots@),
                slv.no_duplicates(),
                forall|s: Seq<char>| #[trigger] slv.contains(s) <==> sub.contains(s),
                stubs.view().len() == k,
                forall|p: int| 0 <= p < k ==> (#[trigger] stubs.view()[p]).id == slv[p],
                forall|p: int, b: Seq<char>|
                    0 <= p < k ==> (#[trigger] stubs.view()[p].depends_on.contains(b) <==> sub_dep(g, sub, slv[p], b)),
        {
            let deps = self.deps_within(slots[k].as_str(), &slots);
            let ghost dv = crate::task::str_views(deps@);
            let t = stub_task(slots[k].clone(), deps);
            let ghost old_m = stubs.view();
            proof {
                assert(!has_id(old_m, t@.id)) by {
                    if has_id(old_m, t@.id) {
                        let p = choose|p: int| 0 <= p < old_m.len() && #[trigger] old_m[p].id == t@.id;
                        assert(slv[p] == slv[k as int]);
                    }
                }
            }
            let _ = stubs.insert(t);
            proof {
                assert forall|p: int, b: Seq<char>|
                    0 <= p < k + 1 implies (#[trigger] stubs.view()[p].depends_on.contains(b) <==> sub_dep(g, sub, slv[p], b)) by {
                    if p == k {
                        assert(stubs.view()[p].depends_on == dv);
                        assert(slv.contains(slv[p]));
                        if dv.contains(b) {
                            assert(slv.contains(b));
                        }
                    } else {
                        assert(stubs.view()[p] == old_m[p]);
                    }
                }
            }
        }
        let sg = Graph::build(&stubs);
        let ghost sv = sg.view();
        let ghost stv = stubs.view();
        proof {
            assert(graph_of(sv, stv));
            assert(sv.n() == stv.len()) by {
                if sv.n() > stv.len() {
                    let p = stv.len() as int;
                    assert(mentioned(stv, sv.nodes[p]));
                    let s = sv.nodes[p];
                    if has_id(stv, s) {
                        let i = choose|i: int| 0 <= i < stv.len() && #[trigger] stv[i].id == s;
                        assert(sv.nodes[i] == s);
                    } else {
                        let i = choose|i: int| 0 <= i < stv.len() && #[trigger] stv[i].depends_on.contains(s);
                        assert(sub_dep(g, sub, slv[i], s));
                        assert(slv.contains(s));
                        let k = choose|k: int| 0 <= k < slv.len() && slv[k] == s;
                        assert(sv.nodes[k] == stv[k].id);
                    }
                }
            }
            assert forall|s: Seq<char>| #[trigger] sv.has_node(s) <==> sub.contains(s) by {
                if sv.has_node(s) {
                    let i = choose|i: int| 0 <= i < sv.n() && #[trigger] sv.nodes[i] == s;
                    assert(stv[i].id == s);
                    assert(slv[i] == s);
                    assert(slv.contains(s));
                }
                if sub.contains(s) {
                    assert(slv.contains(s));
                    let k = choose|k: int| 0 <= k < slv.len() && slv[k] == s;
                    assert(sv.nodes[k] == stv[k].id);
                }
            }
            assert forall|i: int, j: int|
                0 <= i < sv.n() && 0 <= j < sv.n() implies ((#[trigger] sv.edge(i, j)) <==> sub_dep(g, sub, sv.nodes[i], sv.nodes[j])) by {
                assert(sv.nodes[i] == stv[i].id && stv[i].id == slv[i]);
                assert(stv[i].depends_on.contains(sv.nodes[j]) <==> sub_dep(g, sub, slv[i], sv.nodes[j]));
            }
            assert(subset_graph(g, sub, sv));
        }
        let n = sg.node_count();
        let mut keys: Vec<crate::order::SortKey> = Vec::new();
        for i in 0..n
            invariant
                sv == sg.view(),
                n == sv.n(),
                ts == tasks.view(),
                keys@ == slot_keys(ts, sv).take(i as int),
        {
            let k = match tasks.get(sg.node(i).as_str()) {
                Some(t) => crate::order::SortKey { rank: t.priority.rank(), secs: t.created.secs, nanos: t.created.nanos },
                None => crate::order::SortKey { rank: 4, secs: 0, nanos: 0 },
            };
            keys.push(k);
            assert(keys@ =~= slot_keys(ts, sv).take(i + 1));
        }
        assert(keys@ =~= slot_keys(ts, sv));
        let q = sg.batch_order(&keys);
        let mut r: Vec<Task> = Vec::new();
        for p in 0..q.len()
            invariant
                sv == sg.view(),
                ts == tasks.view(),
                is_dependency_order(sv, q@),
                task_views(r@) == tasks_along(ts, sv, q@.take(p as int)),
        {
            assert(q@.take(p + 1).drop_last() =~= q@.take(p as int));
            assert(q@[p as int] < sv.n());
            match tasks.get(sg.node(q[p]).as_str()) {
                Some(t) => {
                    r.push(t.clone());
                    assert(task_views(r@) =~= tasks_along(ts, sv, q@.take(p as int)).push(t@));
                },
                None => {},
            }
        }
        proof {
            assert(q@.take(q@.len() as int) =~= q@);
            let c = choose|c: Seq<int>| #[trigger] kahn_batches(sv, keys@, q@, c);
            assert(kahn_batches(sv, slot_keys(ts, sv), q@, c));
        }
        r
    }
}

/// The dependencies in `deps` that name a task of `ts`, in order.
pub open spec fn present_deps(ts: Seq<TaskView>, deps: Seq<Seq<char>>) -> Seq<Seq<char>>
    decreases deps.len(),
{
    if deps.len() == 0 {
        Seq::<Seq<char>>::empty()
    } else {
        let r = present_deps(ts, deps.drop_last());
        if has_id(ts, deps.last()) {
            r.push(deps.last())
        } else {
            r
        }
    }
}

/// A node of a rendered dependency tree.
pub struct DepNode {
    pub task: Task,
    pub children: Vec<DepNode>,
    /// The task is already on the path from the root to this node (a
    /// dependency cycle); the node is a leaf.
    pub cycle: bool,
    /// The task was already expanded elsewhere in the tree; the node is a
    /// leaf that refers to it.
    pub seen: bool,
}

/// `n` is a correct dependency-tree node for the tasks `ts` below the
/// ancestors `path`: it shows a task of `ts`; it is a cycle leaf exactly
/// when its task is an ancestor; leaves have no children; and an expanded
/// node has one child per dependency that names a task, in order, each
/// correct in turn.
pub open spec fn dep_node_ok(ts: Seq<TaskView>, n: DepNode, path: Seq<Seq<char>>) -> bool
    decreases n,
{
    &&& lookup(ts, n.task@.id) == Some(n.task@)
    &&& !(n.cycle && n.seen)
    &&& (n.cycle <==> path.contains(n.task@.id))
    &&& (n.cycle || n.seen) ==> n.children@.len() == 0
    &&& !(n.cycle || n.seen) ==> n.children@.len() == present_deps(ts, n.task@.depends_on).len()
    &&& forall|i: int|
        0 <= i < n.children@.len() ==> (#[trigger] n.children@[i]).task@.id == present_deps(ts, n.task@.depends_on)[i]
            && dep_node_ok(ts, n.children@[i], path.push(n.task@.id))
}

proof fn lemma_distinct_ints_len(q: Seq<int>, n: int)
    requires
        0 <= n,
        forall|i: int| 0 <= i < q.len() ==> 0 <= #[trigger] q[i] < n,
        q.no_duplicates(),
    ensures
        q.len() <= n,
{
    q.unique_seq_to_set();
    vstd::set_lib::lemma_int_range(0, n);
    assert forall|x: int| q.to_set().contains(x) implies vstd::set_lib::set_int_range(0, n).contains(x) by {
        assert(q.contains(x));
    }
    vstd::set_lib::lemma_len_subset(q.to_set(), vstd::set_lib::set_int_range(0, n));
}

/// A list of distinct IDs of tasks of `ts` is no longer than `ts`.
proof fn lemma_ids_len(ts: Seq<TaskView>, s: Seq<Seq<char>>)
    requires
        s.no_duplicates(),
        forall|i: int| 0 <= i < s.len() ==> has_id(ts, #[trigger] s[i]),
    ensures
        s.len() <= ts.len(),
{
    let q = s.map_values(|x: Seq<char>| pos_of(ts, x));
    assert forall|i: int| 0 <= i < q.len() implies 0 <= #[trigger] q[i] < ts.len() && ts[q[i]].id == s[i] by {
        assert(has_id(ts, s[i]));
    }
    assert forall|i: int, j: int| 0 <= i < q.len() && 0 <= j < q.len() && i != j implies q[i] != q[j] by {
        assert(ts[q[i]].id == s[i] && ts[q[j]].id == s[j]);
    }
    lemma_distinct_ints_len(q, ts.len() as int);
}


/// The IDs that a dependency-tree node expands, in preorder: none for a
/// cycle or seen leaf, else its own followed by those of its children.
pub open spec fn expanded(n: DepNode) -> Seq<Seq<char>>
    decreases n, 1int,
{
    if n.cycle || n.seen {
        Seq::empty()
    } else {
        seq![n.task@.id] + expanded_list(n.children@, 0)
    }
}

/// The IDs that the nodes `cs` from position `i` on expand, in order.
pub open spec fn expanded_list(cs: Seq<DepNode>, i: int) -> Seq<Seq<char>>
    decreases cs, cs.len() - i,
{
    if i < 0 || i >= cs.len() {
        Seq::empty()
    } else {
        expanded(cs[i]) + expanded_list(cs, i + 1)
    }
}

/// `n` marks its "seen" leaves right, given the IDs `before` expanded
/// earlier in preorder: a node that is no cycle leaf is a seen leaf exactly
/// when its ID was expanded before it, and so on down the tree.
pub open spec fn seen_ok(n: DepNode, before: Seq<Seq<char>>) -> bool
    decreases n, 1int,
{
    &&& !n.cycle ==> (n.seen <==> before.contains(n.task@.id))
    &&& !(n.cycle || n.seen) ==> seen_ok_list(n.children@, 0, before.push(n.task@.id))
}

/// The nodes `cs` from position `i` on mark their seen leaves right, each
/// after the IDs expanded before it.
pub open spec fn seen_ok_list(cs: Seq<DepNode>, i: int, before: Seq<Seq<char>>) -> bool
    decreases cs, cs.len() - i,
{
    if i < 0 || i >= cs.len() {
        true
    } else {
        seen_ok(cs[i], before) && seen_ok_list(cs, i + 1, before + expanded(cs[i]))
    }
}

proof fn lemma_expanded_push(cs: Seq<DepNode>, c: DepNode, i: int)
    requires
        0 <= i <= cs.len(),
    ensures
        expanded_list(cs.push(c), i) == expanded_list(cs, i) + expanded(c),
    decreases cs.len() - i,
{
    if i == cs.len() {
        assert(cs.push(c)[i] == c);
        assert(expanded_list(cs.push(c), i + 1) =~= Seq::<Seq<char>>::empty());
        assert(expanded_list(cs.push(c), i) =~= expanded(c));
        assert(expanded_list(cs, i) + expanded(c) =~= expanded(c));
    } else {
        lemma_expanded_push(cs, c, i + 1);
        assert(cs.push(c)[i] == cs[i]);
        assert(expanded_list(cs.push(c), i) =~= expanded_list(cs, i) + expanded(c));
    }
}

proof fn lemma_seen_ok_push(cs: Seq<DepNode>, c: DepNode, i: int, b: Seq<Seq<char>>)
    requires
        0 <= i <= cs.len(),
        seen_ok_list(cs, i, b),
        seen_ok(c, b + expanded_list(cs, i)),
    ensures
        seen_ok_list(cs.push(c), i, b),
    decreases cs.len() - i,
{
    if i == cs.len() {
        assert(cs.push(c)[i] == c);
        assert(b + expanded_list(cs, i) =~= b);
        assert(seen_ok_list(cs.push(c), i + 1, b + expanded(c)));
    } else {
        assert(cs.push(c)[i] == cs[i]);
        assert(b + expanded_list(cs, i) =~= (b + expanded(cs[i])) + expanded_list(cs, i + 1));
        lemma_seen_ok_push(cs, c, i + 1, b + expanded(cs[i]));
    }
}

impl Graph {
    /// A dependency tree for display, rooted at the task `id`, or `None` when
    /// no task has that ID. A task already on the current path becomes a
    /// `cycle` leaf; a task already expanded elsewhere becomes a `seen` leaf;
    /// dependencies that name no task are left out.
    pub fn dep_tree(&self, tasks: &TaskMap, id: &str) -> (r: Option<DepNode>)
        ensures
            match r {
                None => lookup(tasks.view(), id@).is_none(),
                Some(n) => n.task@.id == id@ && !n.cycle && !n.seen && dep_node_ok(tasks.view(), n, Seq::<Seq<char>>::empty())
                    && seen_ok(n, Seq::<Seq<char>>::empty()) && expanded(n).no_duplicates(),
            },
    {
        let mut visiting: Vec<String> = Vec::new();
        let mut seen: Vec<String> = Vec::new();
        assert(crate::task::str_views(visiting@) =~= Seq::<Seq<char>>::empty());
        assert(crate::task::str_views(seen@) =~= Seq::<Seq<char>>::empty());
        let r = self.dep_tree_inner(tasks, id, &mut visiting, &mut seen);
        proof {
            if r is Some {
                assert(crate::task::str_views(seen@) =~= expanded(r->0));
            }
        }
        r
    }

    fn dep_tree_inner(&self, tasks: &TaskMap, id: &str, visiting: &mut Vec<String>, seen: &mut Vec<String>) -> (r: Option<DepNode>)
        requires
            crate::task::str_views(old(seen)@).no_duplicates(),
            forall|i: int| 0 <= i < old(seen)@.len() ==> has_id(tasks.view(), #[trigger] old(seen)@[i]@),
        ensures
            crate::task::str_views(final(seen)@).no_duplicates(),
            forall|i: int| 0 <= i < final(seen)@.len() ==> has_id(tasks.view(), #[trigger] final(seen)@[i]@),
            final(seen)@.len() >= old(seen)@.len(),
            crate::task::str_views(final(visiting)@) == crate::task::str_views(old(visiting)@),
            match r {
                None => lookup(tasks.view(), id@).is_none() && crate::task::str_views(final(seen)@) == crate::task::str_views(old(seen)@),
                Some(n) => {
                    &&& n.task@.id == id@
                    &&& dep_node_ok(tasks.view(), n, crate::task::str_views(old(visiting)@))
                    &&& (!crate::task::str_views(old(visiting)@).contains(id@) && !crate::task::str_views(old(seen)@).contains(id@)) ==> !n.cycle && !n.seen
                    &&& seen_ok(n, crate::task::str_views(old(seen)@))
                    &&& crate::task::str_views(final(seen)@) == crate::task::str_views(old(seen)@) + expanded(n)
                },
            },
        decreases tasks.view().len() - old(seen)@.len(),
    {
        let ghost ts = tasks.view();
        let ghost path = crate::task::str_views(visiting@);
        proof {
            lemma_ids_len(ts, crate::task::str_views(seen@));
        }
        let t = match tasks.get(id) {
            Some(t) => t.clone(),
            None => {
                return None;
            },
        };
        if crate::task::contains_string(visiting, id) {
            let n = DepNode { task: t, children: Vec::new(), cycle: true, seen: false };
            assert(crate::task::str_views(seen@) =~= crate::task::str_views(seen@) + expanded(n));
            return Some(n);
        }
        if crate::task::contains_string(seen, id) {
            let n = DepNode { task: t, children: Vec::new(), cycle: false, seen: true };
            assert(crate::task::str_views(seen@) =~= crate::task::str_views(seen@) + expanded(n));
            return Some(n);
        }
        let ghost seen0 = crate::task::str_views(seen@);
        seen.push(id.to_string());
        visiting.push(id.to_string());
        proof {
            assert(crate::task::str_views(seen@) =~= seen0.push(id@));
            assert(crate::task::str_views(visiting@) =~= path.push(id@));
            assert forall|i: int, j: int| 0 <= i < seen@.len() && 0 <= j < seen@.len() && i != j implies crate::task::str_views(seen@)[i] != crate::task::str_views(seen@)[j] by {
                if i < seen0.len() && j < seen0.len() {
                    assert(seen0[i] != seen0[j]);
                } else if i < seen0.len() {
                    assert(seen0[i] == crate::task::str_views(seen@)[i]);
                    assert(seen0.contains(seen0[i]));
                } else {
                    assert(seen0.contains(seen0[j]));
                }
            }
        }
        let ghost entry_len = seen@.len();
        let ghost deps = t@.depends_on;
        let mut children: Vec<DepNode> = Vec::new();
        for k in 0..t.depends_on.len()
            invariant
                ts == tasks.view(),
                deps == t@.depends_on,
                crate::task::str_views(visiting@) == path.push(id@),
                crate::task::str_views(seen@).no_duplicates(),
                forall|i: int| 0 <= i < seen@.len() ==> has_id(ts, #[trigger] seen@[i]@),
                seen@.len() >= entry_len,
                entry_len == old(seen)@.len() + 1,
                children@.len() == present_deps(ts, deps.take(k as int)).len(),
                forall|i: int|
                    0 <= i < children@.len() ==> (#[trigger] children@[i]).task@.id == present_deps(ts, deps.take(k as int))[i]
                        && dep_node_ok(ts, children@[i], path.push(id@)),
                crate::task::str_views(seen@) == seen0.push(id@) + expanded_list(children@, 0),
                seen_ok_list(children@, 0, seen0.push(id@)),
        {
            assert(deps.take(k + 1).drop_last() =~= deps.take(k as int));
            assert(deps.take(k + 1).last() == t.depends_on@[k as int]@);
            let ghost before = children@;
            let ghost seen_b = crate::task::str_views(seen@);
            proof {
                lemma_ids_len(ts, crate::task::str_views(seen@));
            }
            match self.dep_tree_inner(tasks, t.depends_on[k].as_str(), visiting, seen) {
                Some(c) => {
                    let ghost cg = c;
                    children.push(c);
                    proof {
                        lemma_expanded_push(before, cg, 0);
                        lemma_seen_ok_push(before, cg, 0, seen0.push(id@));
                        assert(children@ == before.push(cg));
                        assert(crate::task::str_views(seen@) =~= seen0.push(id@) + expanded_list(children@, 0));
                        assert(has_id(ts, deps[k as int]));
                        assert forall|i: int|
                            0 <= i < children@.len() implies (#[trigger] children@[i]).task@.id == present_deps(ts, deps.take(k + 1))[i]
                                && dep_node_ok(ts, children@[i], path.push(id@)) by {
                            if i < before.len() {
                                assert(children@[i] == before[i]);
                            }
                        }
                    }
                },
                None => {
                    proof {
                        assert(!has_id(ts, deps[k as int]));
                    }
                },
            }
        }
        let ghost vis_before = visiting@;
        assert(crate::task::str_views(vis_before).len() == path.len() + 1);
        assert(vis_before.len() > 0);
        visiting.pop();
        proof {
            assert(deps.take(deps.len() as int) =~= deps);
            assert(crate::task::str_views(vis_before) == path.push(id@));
            assert(visiting@ =~= vis_before.drop_last());
            assert forall|i: int| 0 <= i < path.len() implies crate::task::str_views(visiting@)[i] == path[i] by {
                assert(crate::task::str_views(vis_before)[i] == path.push(id@)[i]);
            }
            assert(crate::task::str_views(visiting@) =~= path);
        }
        let n = DepNode { task: t, children, cycle: false, seen: false };
        proof {
            assert(!path.contains(id@));
            assert(n.task@.id == id@);
            assert(!seen0.contains(id@));
            assert(crate::task::str_views(seen@) =~= seen0 + expanded(n));
        }
        Some(n)
    }
}

/// A dependency-tree node as plain data, for JSON output.
pub struct DepNodeJson {
    pub id: String,
    pub title: String,
    pub status: String,
    pub priority: Priority,
    pub children: Vec<DepNodeJson>,
    pub cycle: bool,
    pub seen: bool,
}

/// `j` carries the content of `n`: its task's ID, title, status name and
/// priority, its flags, and its children in order, each carried in turn.
pub open spec fn json_of(n: DepNode, j: DepNodeJson) -> bool
    decreases n,
{
    &&& j.id@ == n.task@.id
    &&& j.title@ == n.task@.title
    &&& j.status@ == n.task@.status.label()
    &&& j.priority == n.task@.priority
    &&& j.cycle == n.cycle
    &&& j.seen == n.seen
    &&& j.children@.len() == n.children@.len()
    &&& forall|i: int| 0 <= i < n.children@.len() ==> json_of(#[trigger] n.children@[i], j.children@[i])
}

impl DepNodeJson {
    /// The plain-data form of a dependency-tree node.
    pub fn from_dep_node(node: &DepNode) -> (j: DepNodeJson)
        ensures
            json_of(*node, j),
        decreases node,
    {
        let mut children: Vec<DepNodeJson> = Vec::new();
        for i in 0..node.children.len()
            invariant
                children@.len() == i,
                forall|k: int| 0 <= k < i ==> json_of(#[trigger] node.children@[k], children@[k]),
        {
            let c = DepNodeJson::from_dep_node(&node.children[i]);
            children.push(c);
        }
        DepNodeJson {
            id: node.task.id.clone(),
            title: node.task.title.clone(),
            status: node.task.status.to_string(),
            priority: node.task.priority,
            children,
            cycle: node.cycle,
            seen: node.seen,
        }
    }
}

/// Task `a` of `ts` lists `b` among its dependencies.
pub open spec fn dep_step(ts: Seq<TaskView>, a: Seq<char>, b: Seq<char>) -> bool {
    match lookup(ts, a) {
        Some(t) => t.depends_on.contains(b),
        None => false,
    }
}

/// `p` is a chain of IDs, each a task of `ts` listing the next.
pub open spec fn dep_path(ts: Seq<TaskView>, p: Seq<Seq<char>>) -> bool {
    &&& p.len() >= 1
    &&& forall|k: int| 0 <= k < p.len() - 1 ==> #[trigger] dep_step(ts, p[k], p[k + 1])
}

/// `b` can be reached from `a` by following dependencies in `ts` (zero or
/// more steps).
pub open spec fn name_reaches(ts: Seq<TaskView>, a: Seq<char>, b: Seq<char>) -> bool {
    exists|p: Seq<Seq<char>>| #[trigger] dep_path(ts, p) && p[0] == a && p.last() == b
}

/// Adding the dependency `from -> to` would close a cycle: a task would
/// depend on itself, or `to` already reaches `from`.
pub open spec fn closes_cycle(ts: Seq<TaskView>, from: Seq<char>, to: Seq<char>) -> bool {
    from == to || name_reaches(ts, to, from)
}

/// No chain of dependencies in `ts` leads from a task back to itself.
pub open spec fn acyclic_names(ts: Seq<TaskView>) -> bool {
    forall|p: Seq<Seq<char>>| #[trigger] dep_path(ts, p) && p.len() >= 2 ==> p[0] != p.last()
}

proof fn lemma_node_lookup(g: GraphView, ts: Seq<TaskView>, a: int)
    requires
        graph_of(g, ts),
        ids_distinct(ts),
        0 <= a < ts.len(),
    ensures
        lookup(ts, g.nodes[a]) == Some(ts[a]),
{
    assert(g.nodes[a] == ts[a].id);
    assert(has_id(ts, ts[a].id));
    let q = pos_of(ts, ts[a].id);
    if q != a {
        if q < a {
            assert(ts[q].id != ts[a].id);
        } else {
            assert(ts[a].id != ts[q].id);
        }
    }
}

proof fn lemma_edge_step(g: GraphView, ts: Seq<TaskView>, a: int, b: int)
    requires
        graph_of(g, ts),
        ids_distinct(ts),
        0 <= a < g.n(),
        0 <= b < g.n(),
    ensures
        g.edge(a, b) <==> dep_step(ts, g.nodes[a], g.nodes[b]),
{
    if a < ts.len() {
        lemma_node_lookup(g, ts, a);
    } else {
        assert(!g.keyed[a]);
        if has_id(ts, g.nodes[a]) {
            let i = choose|i: int| 0 <= i < ts.len() && #[trigger] ts[i].id == g.nodes[a];
            assert(g.nodes[i] == ts[i].id);
        }
        assert(!g.edge(a, b));
    }
}

/// Reachability in the graph of `ts` is reachability by task IDs.
pub proof fn lemma_reaches_names(g: GraphView, ts: Seq<TaskView>, i: int, j: int)
    requires
        graph_of(g, ts),
        ids_distinct(ts),
        0 <= i < g.n(),
        0 <= j < g.n(),
    ensures
        g.reaches(i, j) <==> name_reaches(ts, g.nodes[i], g.nodes[j]),
{
    if g.reaches(i, j) {
        let p = choose|p: Seq<int>| g.is_path(p) && p[0] == i && p.last() == j;
        let q = p.map_values(|x: int| g.nodes[x]);
        assert forall|k: int| 0 <= k < q.len() - 1 implies #[trigger] dep_step(ts, q[k], q[k + 1]) by {
            assert(g.edge(p[k], p[k + 1]));
            lemma_edge_step(g, ts, p[k], p[k + 1]);
        }
        assert(dep_path(ts, q));
    }
    if name_reaches(ts, g.nodes[i], g.nodes[j]) {
        let q = choose|q: Seq<Seq<char>>| #[trigger] dep_path(ts, q) && q[0] == g.nodes[i] && q.last() == g.nodes[j];
        assert forall|k: int| 0 <= k < q.len() implies #[trigger] g.has_node(q[k]) by {
            if k == 0 {
                assert(g.nodes[i] == q[0]);
            } else {
                let m = k - 1;
                assert(dep_step(ts, q[m], q[m + 1]));
                assert(q[m + 1] == q[k]);
                let pp = pos_of(ts, q[m]);
                assert(ts[pp].depends_on.contains(q[k]));
                assert(mentioned(ts, q[k]));
            }
        }
        let p = Seq::new(q.len(), |k: int| choose|x: int| 0 <= x < g.n() && #[trigger] g.nodes[x] == q[k]);
        assert forall|k: int| 0 <= k < p.len() implies 0 <= #[trigger] p[k] < g.n() && g.nodes[p[k]] == q[k] by {
            assert(g.has_node(q[k]));
        }
        assert forall|k: int| 0 <= k < p.len() - 1 implies g.edge(#[trigger] p[k], p[k + 1]) by {
            assert(g.nodes[p[k]] == q[k] && g.nodes[p[k + 1]] == q[k + 1]);
            assert(dep_step(ts, q[k], q[k + 1]));
            lemma_edge_step(g, ts, p[k], p[k + 1]);
        }
        assert(p[0] == i) by {
            if p[0] != i {
                if p[0] < i {
                    assert(g.nodes[p[0]] != g.nodes[i]);
                } else {
                    assert(g.nodes[i] != g.nodes[p[0]]);
                }
            }
        }
        assert(p.last() == j) by {
            let l = p.len() - 1;
            assert(g.nodes[p[l]] == q[l]);
            if p[l] != j {
                if p[l] < j {
                    assert(g.nodes[p[l]] != g.nodes[j]);
                } else {
                    assert(g.nodes[j] != g.nodes[p[l]]);
                }
            }
        }
        assert(g.is_path(p));
    }
}

impl Graph {
    /// Whether adding the dependency `from -> to` would close a cycle (see
    /// `closes_cycle`), for the graph of `tasks`.
    pub fn closes_cycle_in(&self, tasks: &TaskMap, from: &str, to: &str) -> (r: bool)
        requires
            graph_of(self.view(), tasks.view()),
        ensures
            r == closes_cycle(tasks.view(), from@, to@),
    {
        let ghost g = self.view();
        let ghost ts = tasks.view();
        let _ = tasks.tasks();
        let r = self.would_cycle(from, to);
        proof {
            if from@ != to@ {
                if name_reaches(ts, to@, from@) {
                    let q = choose|q: Seq<Seq<char>>| #[trigger] dep_path(ts, q) && q[0] == to@ && q.last() == from@;
                    assert(q.len() >= 2);
                    let z: int = 0;
                    assert(dep_step(ts, q[z], q[z + 1]));
                    let pp = pos_of(ts, to@);
                    assert(has_id(ts, to@));
                    assert(g.nodes[pp] == to@);
                    let l = q.len() - 1;
                    let m = l - 1;
                    assert(dep_step(ts, q[m], q[m + 1]));
                    assert(q[m + 1] == q[l]);
                    let pq = pos_of(ts, q[m]);
                    assert(ts[pq].depends_on.contains(from@));
                    assert(mentioned(ts, from@));
                    assert(g.has_node(from@));
                    let jj = choose|x: int| 0 <= x < g.n() && #[trigger] g.nodes[x] == from@;
                    lemma_reaches_names(g, ts, pp, jj);
                }
                if exists|i: int, j: int|
                    0 <= i < g.n() && 0 <= j < g.n() && g.nodes[i] == to@ && g.nodes[j] == from@ && g.reaches(i, j) {
                    let (i, j) = choose|i: int, j: int|
                        0 <= i < g.n() && 0 <= j < g.n() && g.nodes[i] == to@ && g.nodes[j] == from@ && g.reaches(i, j);
                    lemma_reaches_names(g, ts, i, j);
                }
            }
        }
        r
    }
}

proof fn lemma_reach_extend(ts: Seq<TaskView>, a: Seq<char>, x: Seq<char>, b: Seq<char>)
    requires
        name_reaches(ts, a, x),
        dep_step(ts, x, b),
    ensures
        name_reaches(ts, a, b),
{
    let p = choose|p: Seq<Seq<char>>| #[trigger] dep_path(ts, p) && p[0] == a && p.last() == x;
    let q = p.push(b);
    assert forall|k: int| 0 <= k < q.len() - 1 implies #[trigger] dep_step(ts, q[k], q[k + 1]) by {
        if k < p.len() - 1 {
            assert(dep_step(ts, p[k], p[k + 1]));
        }
    }
    assert(dep_path(ts, q));
}

proof fn lemma_reach_self(ts: Seq<TaskView>, a: Seq<char>)
    ensures
        name_reaches(ts, a, a),
{
    let p = seq![a];
    assert(dep_path(ts, p));
}

proof fn lemma_reach_concat(ts: Seq<TaskView>, a: Seq<char>, b: Seq<char>, c: Seq<char>, q: Seq<Seq<char>>)
    requires
        name_reaches(ts, a, b),
        dep_path(ts, q),
        q[0] == b,
        q.last() == c,
    ensures
        name_reaches(ts, a, c),
    decreases q.len(),
{
    if q.len() > 1 {
        let q2 = q.drop_last();
        assert forall|k: int| 0 <= k < q2.len() - 1 implies #[trigger] dep_step(ts, q2[k], q2[k + 1]) by {
            assert(dep_step(ts, q[k], q[k + 1]));
        }
        lemma_reach_concat(ts, a, b, q2.last(), q2);
        let m = q.len() - 2;
        assert(dep_step(ts, q[m], q[m + 1]));
        lemma_reach_extend(ts, a, q2.last(), c);
    }
}

/// A task list whose tasks all appear in `ts`, with the one task `id`
/// given one more dependency `dep`: its steps are those of `ts` and the
/// step `id -> dep`.
pub open spec fn one_more_step(ts: Seq<TaskView>, ts2: Seq<TaskView>, id: Seq<char>, dep: Seq<char>) -> bool {
    forall|a: Seq<char>, b: Seq<char>|
        #[trigger] dep_step(ts2, a, b) ==> dep_step(ts, a, b) || (a == id && b == dep)
}

proof fn lemma_path_split(ts: Seq<TaskView>, ts2: Seq<TaskView>, id: Seq<char>, dep: Seq<char>, p: Seq<Seq<char>>)
    requires
        one_more_step(ts, ts2, id, dep),
        dep_path(ts2, p),
    ensures
        dep_path(ts, p) || (name_reaches(ts, p[0], id) && name_reaches(ts, dep, p.last())),
    decreases p.len(),
{
    if p.len() > 1 {
        let p2 = p.drop_last();
        assert forall|k: int| 0 <= k < p2.len() - 1 implies #[trigger] dep_step(ts2, p2[k], p2[k + 1]) by {
            assert(dep_step(ts2, p[k], p[k + 1]));
        }
        lemma_path_split(ts, ts2, id, dep, p2);
        let m = p.len() - 2;
        let x = p[m];
        let b = p[m + 1];
        assert(dep_step(ts2, p[m], p[m + 1]));
        assert(p2.last() == x);
        assert(p.last() == b);
        if dep_step(ts, x, b) {
            if dep_path(ts, p2) {
                assert forall|k: int| 0 <= k < p.len() - 1 implies #[trigger] dep_step(ts, p[k], p[k + 1]) by {
                    if k < m {
                        assert(dep_step(ts, p2[k], p2[k + 1]));
                    }
                }
            } else {
                lemma_reach_extend(ts, dep, x, b);
            }
        } else {
            assert(x == id && b == dep);
            lemma_reach_self(ts, dep);
            if dep_path(ts, p2) {
                assert(name_reaches(ts, p2[0], p2.last()));
            }
        }
    }
}

/// Adding the dependency `id -> dep` where it closes no cycle keeps a task
/// list free of dependency cycles.
pub proof fn lemma_added_step_keeps_acyclic(ts: Seq<TaskView>, ts2: Seq<TaskView>, id: Seq<char>, dep: Seq<char>)
    requires
        acyclic_names(ts),
        !closes_cycle(ts, id, dep),
        one_more_step(ts, ts2, id, dep),
    ensures
        acyclic_names(ts2),
{
    assert forall|p: Seq<Seq<char>>| #[trigger] dep_path(ts2, p) && p.len() >= 2 implies p[0] != p.last() by {
        lemma_path_split(ts, ts2, id, dep, p);
        if p[0] == p.last() && !dep_path(ts, p) {
            let q = choose|q: Seq<Seq<char>>| #[trigger] dep_path(ts, q) && q[0] == p[0] && q.last() == id;
            lemma_reach_concat(ts, dep, p[0], id, q);
        }
    }
}

/// Whether a task can be worked on now: open, a plain task, and every
/// dependency present and done (see `is_ready`).
pub fn is_task_ready(tasks: &TaskMap, t: &Task) -> (r: bool)
    ensures
        r == is_ready(tasks.view(), t@, None, None),
{
    Graph::task_is_ready(tasks, t, None, None)
}


// ── Reports ─────────────────────────────────────────────────────────

/// Some task lists `id` among its dependencies.
pub open spec fn depended_on(ts: Seq<TaskView>, id: Seq<char>) -> bool {
    exists|j: int| 0 <= j < ts.len() && (#[trigger] ts[j]).depends_on.contains(id)
}

/// The test for a root of the dependency graph display: no task depends on
/// it, and it is active unless `all`.
pub open spec fn root_filter(ts: Seq<TaskView>, all: bool) -> spec_fn(TaskView) -> bool {
    |t: TaskView| !depended_on(ts, t.id) && (all || crate::task::active(t))
}

/// The roots of the dependency graph display, in entry order.
pub open spec fn root_selection(ts: Seq<TaskView>, all: bool) -> Seq<TaskView> {
    filter_tasks(ts, root_filter(ts, all))
}

/// `r` is the root selection sorted by effective priority and then creation
/// time, ties in entry order.
pub open spec fn roots_result(g: GraphView, ts: Seq<TaskView>, all: bool, r: Seq<TaskView>) -> bool {
    exists|eff: Seq<u8>|
        #![trigger effective_levels(g, own_levels(g, ts), eff)]
        {
            &&& effective_levels(g, own_levels(g, ts), eff)
            &&& crate::order::stably_sorted(root_selection(ts, all), ready_keys(g, eff, root_selection(ts, all)), r)
        }
}

/// Whether some task lists `id` among its dependencies.
pub fn is_depended_on(tasks: &TaskMap, id: &str) -> (r: bool)
    ensures
        r == depended_on(tasks.view(), id@),
{
    let all = tasks.tasks();
    let ghost ts = tasks.view();
    for j in 0..all.len()
        invariant
            ts == tasks.view(),
            ts == task_views(all@),
            forall|q: int| 0 <= q < j ==> !(#[trigger] ts[q]).depends_on.contains(id@),
    {
        assert(ts[j as int] == all@[j as int]@);
        if crate::task::contains_string(&all[j].depends_on, id) {
            assert(ts[j as int].depends_on.contains(id@));
            return true;
        }
    }
    false
}

impl Graph {
    /// The roots of the dependency graph display: tasks that no task
    /// depends on, active ones only unless `all`, sorted by effective
    /// priority (P0 first) and then creation time, ties in entry order.
    pub fn graph_roots(&self, tasks: &TaskMap, all: bool) -> (r: Vec<Task>)
        ensures
            roots_result(self.view(), tasks.view(), all, task_views(r@)),
    {
        let ghost g = self.view();
        let ghost ts = tasks.view();
        let ghost f = root_filter(ts, all);
        let effp = self.effective_priorities_all(tasks);
        let mut eff: Vec<u8> = Vec::new();
        for i in 0..effp.len()
            invariant
                eff@ == levels(effp@).subrange(0, i as int),
        {
            eff.push(effp[i].rank());
            assert(eff@ =~= levels(effp@).subrange(0, i + 1));
        }
        assert(eff@ =~= levels(effp@));
        let all_tasks = tasks.tasks();
        let mut sel: Vec<Task> = Vec::new();
        let mut keys: Vec<crate::order::SortKey> = Vec::new();
        for i in 0..all_tasks.len()
            invariant
                ts == tasks.view(),
                ts == task_views(all_tasks@),
                g == self.view(),
                eff@.len() == g.n(),
                f == root_filter(ts, all),
                task_views(sel@) == filter_tasks(ts.take(i as int), f),
                keys@ == ready_keys(g, eff@, task_views(sel@)),
        {
            let t = &all_tasks[i];
            assert(ts.take(i + 1).drop_last() =~= ts.take(i as int));
            assert(ts.take(i + 1).last() == t@);
            if !is_depended_on(tasks, t.id.as_str()) && (all || crate::task::is_active(t)) {
                let k = crate::order::SortKey { rank: self.effective_level_exec(&eff, t), secs: t.created.secs, nanos: t.created.nanos };
                sel.push(t.clone());
                keys.push(k);
                assert(task_views(sel@) =~= filter_tasks(ts.take(i + 1), f));
                assert(keys@ =~= ready_keys(g, eff@, task_views(sel@)));
            } else {
                assert(task_views(sel@) =~= filter_tasks(ts.take(i + 1), f));
            }
        }
        assert(ts.take(all_tasks@.len() as int) =~= ts);
        let order = crate::order::stable_order(&keys);
        let sorted = crate::task::gather(&sel, &order);
        proof {
            let selv = task_views(sel@);
            let full = task_views(sorted@);
            assert(forall|k: int| 0 <= k < full.len() ==> #[trigger] full[k] == selv[order@[k] as int]);
            assert(crate::order::stably_sorted(selv, ready_keys(g, eff@, selv), full));
            assert(effective_levels(g, own_levels(g, ts), eff@));
        }
        sorted
    }
}

/// A task counts as blocked in the tree display when it is open or in
/// progress and one of its dependencies names a task that is not done
/// (dependencies that name no task do not block).
pub open spec fn blocked_view(ts: Seq<TaskView>, t: TaskView) -> bool {
    &&& (t.status == Status::Open || t.status == Status::InProgress)
    &&& exists|k: int|
        0 <= k < t.depends_on.len() && (match lookup(ts, #[trigger] t.depends_on[k]) {
            Some(d) => d.status != Status::Done,
            None => false,
        })
}

/// Whether a task is shown as blocked (see `blocked_view`).
pub fn is_blocked(tasks: &TaskMap, t: &Task) -> (r: bool)
    ensures
        r == blocked_view(tasks.view(), t@),
{
    if !(t.status == Status::Open || t.status == Status::InProgress) {
        return false;
    }
    let ghost ts = tasks.view();
    for k in 0..t.depends_on.len()
        invariant
            ts == tasks.view(),
            t.status == Status::Open || t.status == Status::InProgress,
            forall|j: int|
                0 <= j < k ==> !(match lookup(ts, #[trigger] t@.depends_on[j]) {
                    Some(d) => d.status != Status::Done,
                    None => false,
                }),
    {
        assert(t@.depends_on[k as int] == t.depends_on@[k as int]@);
        match tasks.get(t.depends_on[k].as_str()) {
            Some(d) => {
                if d.status != Status::Done {
                    return true;
                }
            },
            None => {},
        }
    }
    false
}

/// One line of the tree display: the indentation, the branch connector, the
/// task, and whether it closes a cycle.
pub struct TreeRow {
    pub prefix: String,
    pub connector: String,
    pub task: Task,
    pub cycle: bool,
}

/// A tree line as mathematics.
pub struct TreeRowView {
    pub prefix: Seq<char>,
    pub connector: Seq<char>,
    pub task: TaskView,
    pub cycle: bool,
}

impl TreeRow {
    pub open spec fn view(&self) -> TreeRowView {
        TreeRowView { prefix: self.prefix@, connector: self.connector@, task: self.task@, cycle: self.cycle }
    }
}

/// The views of a list of tree lines.
pub open spec fn row_views(v: Seq<TreeRow>) -> Seq<TreeRowView> {
    v.map_values(|r: TreeRow| r.view())
}

/// The connector of a node: none at the top, else a closing or a
/// continuing branch.
pub open spec fn tree_connector(prefix: Seq<char>, is_last: bool) -> Seq<char> {
    if prefix.len() == 0 {
        Seq::empty()
    } else if is_last {
        "└── "@
    } else {
        "├── "@
    }
}

/// The indentation of a node's children.
pub open spec fn tree_child_prefix(prefix: Seq<char>, is_last: bool) -> Seq<char> {
    prefix + if is_last {
        "    "@
    } else {
        "│   "@
    }
}

/// A child is shown when `all`, or when its task is active.
pub open spec fn shown_node(n: DepNode, all: bool) -> bool {
    all || crate::task::active(n.task@)
}

/// No child after position `i` is shown.
pub open spec fn last_shown(cs: Seq<DepNode>, i: int, all: bool) -> bool {
    forall|j: int| i < j < cs.len() ==> !shown_node(#[trigger] cs[j], all)
}

/// The lines of the tree display for `n` under `prefix`: its own line, then
/// those of its shown children, the last shown one closing the branch.
pub open spec fn node_rows(n: DepNode, prefix: Seq<char>, is_last: bool, all: bool) -> Seq<TreeRowView>
    decreases n, 1int, 0int,
{
    seq![TreeRowView { prefix, connector: tree_connector(prefix, is_last), task: n.task@, cycle: n.cycle }]
        + kids_rows(n, 0, tree_child_prefix(prefix, is_last), all)
}

/// The lines for the shown children of `n` from position `i` on.
pub open spec fn kids_rows(n: DepNode, i: int, prefix: Seq<char>, all: bool) -> Seq<TreeRowView>
    decreases n, 0int, n.children@.len() - i,
{
    if i < 0 || i >= n.children@.len() {
        Seq::empty()
    } else if !shown_node(n.children@[i], all) {
        kids_rows(n, i + 1, prefix, all)
    } else {
        node_rows(n.children@[i], prefix, last_shown(n.children@, i, all), all) + kids_rows(n, i + 1, prefix, all)
    }
}


/// Appends the lines of the tree display for `n` (see `node_rows`).
fn push_node_rows(n: &DepNode, prefix: &str, is_last: bool, all: bool, out: &mut Vec<TreeRow>)
    ensures
        row_views(final(out)@) == row_views(old(out)@) + node_rows(*n, prefix@, is_last, all),
    decreases n,
{
    proof {
        reveal_strlit("");
    }
    let ghost o0 = row_views(out@);
    let conn = if prefix.unicode_len() == 0 {
        ""
    } else if is_last {
        "└── "
    } else {
        "├── "
    };
    assert(conn@ == tree_connector(prefix@, is_last));
    let ghost before = out@;
    out.push(TreeRow { prefix: prefix.to_string(), connector: conn.to_string(), task: n.task.clone(), cycle: n.cycle });
    let ghost top = seq![TreeRowView { prefix: prefix@, connector: tree_connector(prefix@, is_last), task: n.task@, cycle: n.cycle }];
    assert(row_views(out@) =~= o0 + top) by {
        assert(row_views(out@) =~= row_views(before).push(out@[before.len() as int].view()));
    }
    let mut cp = prefix.to_string();
    push_all(&mut cp, if is_last { "    " } else { "│   " });
    assert(cp@ == tree_child_prefix(prefix@, is_last));
    let m = n.children.len();
    let ghost cs = n.children@;
    let mut last: Option<usize> = None;
    for i in 0..m
        invariant
            m == cs.len(),
            cs == n.children@,
            match last {
                Some(k) => k < i && shown_node(cs[k as int], all) && forall|j: int| k < j < i ==> !shown_node(#[trigger] cs[j], all),
                None => forall|j: int| 0 <= j < i ==> !shown_node(#[trigger] cs[j], all),
            },
    {
        if all || crate::task::is_active(&n.children[i].task) {
            last = Some(i);
        }
    }
    let ghost mid = row_views(out@);
    for i in 0..m
        invariant
            m == cs.len(),
            cs == n.children@,
            cp@ == tree_child_prefix(prefix@, is_last),
            match last {
                Some(k) => k < m && shown_node(cs[k as int], all) && forall|j: int| k < j < m ==> !shown_node(#[trigger] cs[j], all),
                None => forall|j: int| 0 <= j < m ==> !shown_node(#[trigger] cs[j], all),
            },
            row_views(out@) + kids_rows(*n, i as int, cp@, all) == mid + kids_rows(*n, 0, cp@, all),
    {
        let c = &n.children[i];
        assert(*c == cs[i as int]);
        if all || crate::task::is_active(&c.task) {
            let il = match last {
                Some(k) => k == i,
                None => false,
            };
            assert(il == last_shown(cs, i as int, all)) by {
                match last {
                    Some(k) => {
                        if k != i {
                            if k < i {
                            } else {
                                assert(!last_shown(cs, i as int, all)) by {
                                    assert(shown_node(cs[k as int], all));
                                }
                            }
                        }
                    },
                    None => {},
                }
            }
            let ghost o1 = row_views(out@);
            push_node_rows(c, cp.as_str(), il, all, out);
            assert(row_views(out@) + kids_rows(*n, i + 1, cp@, all) =~= o1 + kids_rows(*n, i as int, cp@, all));
        }
    }
    assert(row_views(out@) =~= o0 + node_rows(*n, prefix@, is_last, all));
}

/// The lines of the tree display for a dependency tree, from its root
/// (see `node_rows`); children that are done or cancelled are left out
/// unless `all`.
pub fn tree_rows(node: &DepNode, all: bool) -> (r: Vec<TreeRow>)
    ensures
        row_views(r@) == node_rows(*node, Seq::empty(), true, all),
{
    proof {
        reveal_strlit("");
    }
    let mut out: Vec<TreeRow> = Vec::new();
    assert(row_views(out@) =~= Seq::<TreeRowView>::empty());
    assert(""@ =~= Seq::<char>::empty());
    push_node_rows(node, "", true, all, &mut out);
    assert(row_views(out@) =~= node_rows(*node, Seq::empty(), true, all));
    out
}

} // verus!
