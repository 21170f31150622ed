use vstd::prelude::*;

verus! {

/// A node index: nodes of a graph are numbered densely from zero.
pub type NodeIndex = usize;

/// Edge direction.
#[derive(Copy, Clone, Debug, Eq, PartialEq, Structural)]
pub enum Direction {
    Outgoing,
    Incoming,
}

/// A labeled graph, directed or undirected, stored as an edge list with
/// adjacency lists derived from it.
///
/// Node labels and edge labels are `u64` values.
#[derive(Clone, Debug)]
pub struct Graph {
    directed: bool,
    labels: Vec<u64>,
    edges: Vec<(usize, usize, u64)>,
    out_adj: Vec<Vec<usize>>,
    in_adj: Vec<Vec<usize>>,
}

impl Graph {
    pub closed spec fn spec_directed(&self) -> bool {
        self.directed
    }

    pub closed spec fn spec_node_count(&self) -> nat {
        self.labels@.len()
    }

    pub closed spec fn spec_node_label(&self, n: int) -> u64 {
        self.labels@[n]
    }

    /// Edge `k` of the list joins `s` to `t` (either way round when undirected).
    spec fn joins(&self, k: int, s: int, t: int) -> bool {
        joins_edge(self.directed, self.edges@[k], s, t)
    }

    /// There is an edge from `s` to `t` (between them when undirected).
    pub closed spec fn has_edge(&self, s: int, t: int) -> bool {
        listed(self.directed, self.edges@, s, t)
    }

    /// The label of the first edge of the list, from `start` on, that joins `s` to `t`.
    spec fn label_from(&self, s: int, t: int, start: nat) -> u64
        decreases self.edges@.len() - start,
    {
        if start >= self.edges@.len() {
            0
        } else if self.joins(start as int, s, t) {
            self.edges@[start as int].2
        } else {
            self.label_from(s, t, start + 1)
        }
    }

    /// The label of the edge from `s` to `t`: that of the first one in the edge list.
    pub closed spec fn edge_label_of(&self, s: int, t: int) -> u64 {
        self.label_from(s, t, 0)
    }

    /// The neighbours of `n` listed in `direction` (all of them when undirected).
    pub closed spec fn neighbors_of(&self, n: int, direction: Direction) -> Seq<usize> {
        if self.directed && direction == Direction::Incoming {
            self.in_adj@[n]@
        } else {
            self.out_adj@[n]@
        }
    }

    pub open spec fn edges_fit(n: nat, edges: Seq<(usize, usize, u64)>) -> bool {
        forall|k: int| 0 <= k < edges.len() ==> (#[trigger] edges[k]).0 < n && edges[k].1 < n
    }

    pub closed spec fn wf(&self) -> bool {
        &&& Self::edges_fit(self.labels@.len(), self.edges@)
        &&& self.out_adj@.len() == self.labels@.len()
        &&& self.in_adj@.len() == self.labels@.len()
        &&& forall|v: int, j: int|
            0 <= v < self.labels@.len() && 0 <= j < self.out_adj@[v]@.len() ==> {
                &&& (#[trigger] self.out_adj@[v]@[j]) < self.labels@.len()
                &&& self.has_edge(v, self.out_adj@[v]@[j] as int)
            }
        &&& forall|v: int, j: int|
            0 <= v < self.labels@.len() && 0 <= j < self.in_adj@[v]@.len() ==> {
                &&& (#[trigger] self.in_adj@[v]@[j]) < self.labels@.len()
                &&& self.has_edge(self.in_adj@[v]@[j] as int, v)
            }
        &&& forall|v: int, t: int|
            0 <= v < self.labels@.len() && #[trigger] self.has_edge(v, t) ==> self.out_adj@[v]@.contains(
                t as usize,
            )
        &&& forall|s: int, v: int|
            0 <= v < self.labels@.len() && #[trigger] self.has_edge(s, v) ==> self.in_adj@[v]@.contains(
                s as usize,
            )
    }

    /// Facts on edges and neighbour lists that the matcher relies on.
    pub proof fn lemma_edges(&self)
        requires
            self.wf(),
        ensures
            forall|s: int, t: int| #[trigger]
                self.has_edge(s, t) ==> 0 <= s < self.spec_node_count() && 0 <= t
                    < self.spec_node_count(),
            !self.spec_directed() ==> forall|s: int, t: int| #[trigger]
                self.has_edge(s, t) ==> self.has_edge(t, s),
            !self.spec_directed() ==> forall|s: int, t: int|
                #[trigger] self.edge_label_of(s, t) == self.edge_label_of(t, s),
    {
        assert forall|s: int, t: int| #[trigger]
            self.has_edge(s, t) implies 0 <= s < self.spec_node_count() && 0 <= t
            < self.spec_node_count() by {
            let k = choose|k: int|
                0 <= k < self.edges@.len() && #[trigger] joins_edge(
                    self.directed,
                    self.edges@[k],
                    s,
                    t,
                );
            assert(Self::edges_fit(self.labels@.len(), self.edges@));
            assert(self.edges@[k].0 < self.labels@.len());
        }
        if !self.directed {
            assert forall|s: int, t: int| #[trigger] self.has_edge(s, t) implies self.has_edge(
                t,
                s,
            ) by {
                let k = choose|k: int|
                    0 <= k < self.edges@.len() && #[trigger] joins_edge(
                        self.directed,
                        self.edges@[k],
                        s,
                        t,
                    );
                assert(joins_edge(self.directed, self.edges@[k], t, s));
            }
            assert forall|s: int, t: int|
                #[trigger] self.edge_label_of(s, t) == self.edge_label_of(t, s) by {
                self.lemma_label_symmetric(s, t, 0);
            }
        }
    }

    proof fn lemma_label_symmetric(&self, s: int, t: int, start: nat)
        requires
            !self.directed,
        ensures
            self.label_from(s, t, start) == self.label_from(t, s, start),
        decreases self.edges@.len() - start,
    {
        if start < self.edges@.len() {
            assert(self.joins(start as int, s, t) == self.joins(start as int, t, s));
            self.lemma_label_symmetric(s, t, start + 1);
        }
    }

    /// Facts on the neighbour list of `v` in `direction`.
    pub proof fn lemma_neighbors(&self, v: int, direction: Direction)
        requires
            self.wf(),
            0 <= v < self.spec_node_count(),
        ensures
            forall|j: int|
                0 <= j < self.neighbors_of(v, direction).len() ==> {
                    &&& (#[trigger] self.neighbors_of(v, direction)[j]) < self.spec_node_count()
                    &&& direction == Direction::Outgoing ==> self.has_edge(
                        v,
                        self.neighbors_of(v, direction)[j] as int,
                    )
                    &&& direction == Direction::Incoming ==> self.has_edge(
                        self.neighbors_of(v, direction)[j] as int,
                        v,
                    )
                },
            direction == Direction::Outgoing ==> forall|t: int| #[trigger]
                self.has_edge(v, t) ==> self.neighbors_of(v, direction).contains(t as usize),
            direction == Direction::Incoming ==> forall|s: int| #[trigger]
                self.has_edge(s, v) ==> self.neighbors_of(v, direction).contains(s as usize),
    {
        self.lemma_edges();
        let nb = self.neighbors_of(v, direction);
        assert forall|j: int| 0 <= j < nb.len() implies {
            &&& (#[trigger] nb[j]) < self.spec_node_count()
            &&& direction == Direction::Outgoing ==> self.has_edge(v, nb[j] as int)
            &&& direction == Direction::Incoming ==> self.has_edge(nb[j] as int, v)
        } by {
            if self.directed && direction == Direction::Incoming {
                assert(self.in_adj@[v]@[j] == nb[j]);
            } else {
                assert(self.out_adj@[v]@[j] == nb[j]);
                assert(self.has_edge(v, nb[j] as int));
            }
        }
        if direction == Direction::Incoming {
            assert forall|s: int| #[trigger] self.has_edge(s, v) implies nb.contains(
                s as usize,
            ) by {
                if !self.directed {
                    assert(self.has_edge(v, s));
                }
            }
        }
    }

    /// Builds a graph with `labels.len()` nodes, node `i` labeled `labels[i]`,
    /// and an edge `(s, t, l)` from `s` to `t` labeled `l` for each entry of `edges`.
    pub fn new(directed: bool, labels: Vec<u64>, edges: Vec<(usize, usize, u64)>) -> (r: Self)
        requires
            Self::edges_fit(labels@.len(), edges@),
        ensures
            r.wf(),
            r.spec_directed() == directed,
            r.spec_node_count() == labels@.len(),
            forall|i: int| 0 <= i < labels@.len() ==> r.spec_node_label(i) == labels@[i],
            forall|s: int, t: int|
                r.has_edge(s, t) <==> exists|k: int|
                    0 <= k < edges@.len() && ((#[trigger] edges@[k]).0 == s && edges@[k].1 == t
                        || !directed && edges@[k].0 == t && edges@[k].1 == s),
    {
        let n = labels.len();
        let mut out_adj: Vec<Vec<usize>> = Vec::new();
        let mut in_adj: Vec<Vec<usize>> = Vec::new();
        let mut v: usize = 0;
        while v < n
            invariant
                n == labels@.len(),
                Self::edges_fit(labels@.len(), edges@),
                v <= n,
                out_adj@.len() == v,
                in_adj@.len() == v,
                forall|u: int, j: int|
                    0 <= u < v && 0 <= j < out_adj@[u]@.len() ==> {
                        &&& (#[trigger] out_adj@[u]@[j]) < n
                        &&& listed(directed, edges@, u, out_adj@[u]@[j] as int)
                    },
                forall|u: int, j: int|
                    0 <= u < v && 0 <= j < in_adj@[u]@.len() ==> {
                        &&& (#[trigger] in_adj@[u]@[j]) < n
                        &&& listed(directed, edges@, in_adj@[u]@[j] as int, u)
                    },
                forall|u: int, t: int|
                    0 <= u < v && #[trigger] listed(directed, edges@, u, t) ==> out_adj@[u]@.contains(t as usize),
                forall|s: int, u: int|
                    0 <= u < v && #[trigger] listed(directed, edges@, s, u) ==> in_adj@[u]@.contains(s as usize),
            decreases n - v,
        {
            let row = adjacency_row(directed, &edges, n, v, true);
            out_adj.push(row);
            let row = adjacency_row(directed, &edges, n, v, false);
            in_adj.push(row);
            v = v + 1;
        }
        let r = Graph { directed, labels, edges, out_adj, in_adj };
        assert forall|s: int, t: int|
            (exists|k: int|
                0 <= k < r.edges@.len() && ((#[trigger] r.edges@[k]).0 == s && r.edges@[k].1 == t
                    || !directed && r.edges@[k].0 == t && r.edges@[k].1 == s)) implies r.has_edge(
            s,
            t,
        ) by {
            let k = choose|k: int|
                0 <= k < r.edges@.len() && ((#[trigger] r.edges@[k]).0 == s && r.edges@[k].1 == t
                    || !directed && r.edges@[k].0 == t && r.edges@[k].1 == s);
            assert(r.joins(k, s, t));
        }
        r
    }

    /// Returns `true` if the graph is directed, `false` if undirected.
    pub fn is_directed(&self) -> (r: bool)
        ensures
            r == self.spec_directed(),
    {
        self.directed
    }

    /// Returns the number of nodes in the graph.
    pub fn node_count(&self) -> (r: usize)
        ensures
            r == self.spec_node_count(),
    {
        self.labels.len()
    }

    /// Returns the label of `node`, or `None` if there is no such node.
    pub fn node_label(&self, node: NodeIndex) -> (r: Option<u64>)
        ensures
            node < self.spec_node_count() ==> r == Some(self.spec_node_label(node as int)),
            node >= self.spec_node_count() ==> r.is_none(),
    {
        if node < self.labels.len() {
            Some(self.labels[node])
        } else {
            None
        }
    }

    /// Returns the neighbours of `node` in `direction`; all of them if undirected.
    pub fn neighbors(&self, node: NodeIndex, direction: Direction) -> (r: &Vec<NodeIndex>)
        requires
            self.wf(),
            node < self.spec_node_count(),
        ensures
            r@ == self.neighbors_of(node as int, direction),
    {
        if self.directed && direction == Direction::Incoming {
            &self.in_adj[node]
        } else {
            &self.out_adj[node]
        }
    }

    /// Returns `true` if there is an edge from `source` to `target`
    /// (between them, if undirected).
    pub fn contains_edge(&self, source: NodeIndex, target: NodeIndex) -> (r: bool)
        requires
            self.wf(),
        ensures
            r == self.has_edge(source as int, target as int),
    {
        proof {
            self.lemma_edges();
        }
        if source >= self.labels.len() {
            return false;
        }
        let row = &self.out_adj[source];
        let mut j: usize = 0;
        while j < row.len()
            invariant
                self.wf(),
                source < self.labels@.len(),
                row@ == self.out_adj@[source as int]@,
                j <= row@.len(),
                forall|i: int| 0 <= i < j ==> row@[i] != target,
            decreases row@.len() - j,
        {
            if row[j] == target {
                assert(self.out_adj@[source as int]@[j as int] == target);
                return true;
            }
            j = j + 1;
        }
        proof {
            if self.has_edge(source as int, target as int) {
                assert(self.out_adj@[source as int]@.contains(target));
            }
        }
        false
    }

    /// Returns the label of the edge from `source` to `target`, or `None` if there is
    /// no such edge. With parallel edges, the first one given at construction counts.
    pub fn edge_label(&self, source: NodeIndex, target: NodeIndex) -> (r: Option<u64>)
        ensures
            self.has_edge(source as int, target as int) ==> r == Some(
                self.edge_label_of(source as int, target as int),
            ),
            !self.has_edge(source as int, target as int) ==> r.is_none(),
    {
        let mut k: usize = 0;
        while k < self.edges.len()
            invariant
                k <= self.edges@.len(),
                forall|i: int|
                    0 <= i < k ==> !#[trigger] joins_edge(
                        self.directed,
                        self.edges@[i],
                        source as int,
                        target as int,
                    ),
                self.label_from(source as int, target as int, 0) == self.label_from(
                    source as int,
                    target as int,
                    k as nat,
                ),
            decreases self.edges@.len() - k,
        {
            let e = self.edges[k];
            if e.0 == source && e.1 == target || !self.directed && e.0 == target && e.1 == source {
                assert(self.joins(k as int, source as int, target as int));
                return Some(e.2);
            }
            assert(!self.joins(k as int, source as int, target as int));
            k = k + 1;
        }
        None
    }
}

/// The edge `e` joins `s` to `t` (either way round when undirected).
spec fn joins_edge(directed: bool, e: (usize, usize, u64), s: int, t: int) -> bool {
    (e.0 == s && e.1 == t) || (!directed && e.0 == t && e.1 == s)
}

/// Some edge of `edges` joins `s` to `t`.
spec fn listed(directed: bool, edges: Seq<(usize, usize, u64)>, s: int, t: int) -> bool {
    exists|k: int| 0 <= k < edges.len() && #[trigger] joins_edge(directed, edges[k], s, t)
}

/// Neighbours of `v` listed by scanning the edge list: targets of edges leaving `v`
/// when `outgoing`, sources of edges entering `v` otherwise (both when undirected).
fn adjacency_row(
    directed: bool,
    edges: &Vec<(usize, usize, u64)>,
    n: usize,
    v: usize,
    outgoing: bool,
) -> (row: Vec<usize>)
    requires
        Graph::edges_fit(n as nat, edges@),
    ensures
        forall|j: int|
            0 <= j < row@.len() ==> {
                &&& (#[trigger] row@[j]) < n
                &&& outgoing ==> listed(directed, edges@, v as int, row@[j] as int)
                &&& !outgoing ==> listed(directed, edges@, row@[j] as int, v as int)
            },
        outgoing ==> forall|t: int| #[trigger] listed(directed, edges@, v as int, t) ==> row@.contains(t as usize),
        !outgoing ==> forall|s: int| #[trigger] listed(directed, edges@, s, v as int) ==> row@.contains(s as usize),
{
    let mut row: Vec<usize> = Vec::new();
    let mut k: usize = 0;
    while k < edges.len()
        invariant
            Graph::edges_fit(n as nat, edges@),
            k <= edges@.len(),
            forall|j: int|
                0 <= j < row@.len() ==> {
                    &&& (#[trigger] row@[j]) < n
                    &&& outgoing ==> listed(directed, edges@, v as int, row@[j] as int)
                    &&& !outgoing ==> listed(directed, edges@, row@[j] as int, v as int)
                },
            outgoing ==> forall|i: int, t: int|
                0 <= i < k && #[trigger] joins_edge(directed, edges@[i], v as int, t) ==> row@.contains(t as usize),
            !outgoing ==> forall|i: int, s: int|
                0 <= i < k && #[trigger] joins_edge(directed, edges@[i], s, v as int) ==> row@.contains(s as usize),
        decreases edges@.len() - k,
    {
        let e = edges[k];
        assert(e.0 < n && e.1 < n);
        let ghost old_row = row@;
        let (near, far) = if outgoing {
            (e.0, e.1)
        } else {
            (e.1, e.0)
        };
        if near == v {
            row.push(far);
        } else if !directed && far == v {
            row.push(near);
        }
        proof {
            assert forall|j: int| 0 <= j < row@.len() implies {
                &&& (#[trigger] row@[j]) < n
                &&& outgoing ==> listed(directed, edges@, v as int, row@[j] as int)
                &&& !outgoing ==> listed(directed, edges@, row@[j] as int, v as int)
            } by {
                if j == old_row.len() {
                    if outgoing {
                        assert(joins_edge(directed, edges@[k as int], v as int, row@[j] as int));
                    } else {
                        assert(joins_edge(directed, edges@[k as int], row@[j] as int, v as int));
                    }
                } else {
                    assert(row@[j] == old_row[j]);
                }
            }
            assert forall|x: usize| old_row.contains(x) implies row@.contains(x) by {
                let j = choose|j: int| 0 <= j < old_row.len() && old_row[j] == x;
                assert(row@[j] == x);
            }
            if outgoing {
                assert forall|i: int, t: int|
                    0 <= i < k + 1 && #[trigger] joins_edge(directed, edges@[i], v as int, t) implies row@.contains(
                    t as usize,
                ) by {
                    if i == k {
                        assert(row@[row@.len() - 1] == t as usize);
                    }
                }
            } else {
                assert forall|i: int, s: int|
                    0 <= i < k + 1 && #[trigger] joins_edge(directed, edges@[i], s, v as int) implies row@.contains(
                    s as usize,
                ) by {
                    if i == k {
                        assert(row@[row@.len() - 1] == s as usize);
                    }
                }
            }
        }
        k = k + 1;
    }
    row
}

} // verus!
