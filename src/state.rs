use vstd::prelude::*;
use crate::counting::{
    digits_in, lemma_count_all, lemma_count_full, lemma_count_witness, lemma_lex_bounds,
    lemma_lex_increase, lex_value, weight,
};
use crate::graph::{Direction, Graph, NodeIndex};
use crate::graph_state::{covered_in, terminal, GraphState, Pair, Source, NOT_IN_MAP};
use crate::isomorphism::{has_preimage, is_match, is_onto};
use crate::labels::LabelEq;
use crate::order::{
    edge_dir, images, in_pool, next_query_node, pool_for, search_before, search_path, splits_at,
};

verus! {

/// The label of the edge that `edge_dir` speaks of.
pub open spec fn label_dir(g: Graph, a: int, b: int, direction: Direction) -> u64 {
    match direction {
        Direction::Outgoing => g.edge_label_of(a, b),
        Direction::Incoming => g.edge_label_of(b, a),
    }
}

/// Orients the edge between `node` and `neighbor` as `(source, target)`.
fn source_target(node: NodeIndex, neighbor: NodeIndex, direction: Direction) -> (r: (
    NodeIndex,
    NodeIndex,
))
    ensures
        direction == Direction::Outgoing ==> r == (node, neighbor),
        direction == Direction::Incoming ==> r == (neighbor, node),
{
    match direction {
        Direction::Outgoing => (node, neighbor),
        Direction::Incoming => (neighbor, node),
    }
}


/// The covered query nodes are mapped as a match must map them.
pub open spec fn consistent_maps<'a, NE: LabelEq, EE: LabelEq>(
    query: GraphState<'a>,
    data: GraphState<'a>,
    induced: bool,
    node_eq: Option<NE>,
    edge_eq: Option<EE>,
) -> bool {
    let qn = query.n();
    &&& query.graph.spec_directed() == data.graph.spec_directed() ==> forall|u: int, v: int|
        0 <= u < qn && 0 <= v < qn && u != v && query.covered(u) && query.covered(v)
            && #[trigger] query.graph.has_edge(u, v) ==> data.graph.has_edge(query.image(u), query.image(v))
    &&& query.graph.spec_directed() == data.graph.spec_directed() && induced ==> forall|u: int, v: int|
        0 <= u < qn && 0 <= v < qn && u != v && query.covered(u) && query.covered(v)
            && #[trigger] data.graph.has_edge(query.image(u), query.image(v)) ==> query.graph.has_edge(u, v)
    &&& node_eq matches Some(p) ==> forall|u: int|
        0 <= u < qn && #[trigger] query.covered(u) ==> p.accepts(
            query.graph.spec_node_label(u),
            data.graph.spec_node_label(query.image(u)),
        )
    &&& query.graph.spec_directed() == data.graph.spec_directed() ==> (edge_eq matches Some(p) ==> forall|u: int, v: int|
        0 <= u < qn && 0 <= v < qn && u != v && query.covered(u) && query.covered(v)
            && #[trigger] query.graph.has_edge(u, v) ==> p.accepts(
            query.graph.edge_label_of(u, v),
            data.graph.edge_label_of(query.image(u), query.image(v)),
        ))
}

/// `m` maps the query node covered at each depth below `i` as the search did.
pub open spec fn agrees_below(
    query_stack: Seq<NodeIndex>,
    data_stack: Seq<NodeIndex>,
    m: Seq<NodeIndex>,
    i: int,
) -> bool {
    forall|j: int| 0 <= j < i ==> m[#[trigger] query_stack[j] as int] == data_stack[j]
}

/// `m` follows the search down to depth `i` and then maps the query node covered
/// there to a later data node.
pub open spec fn diverges_at(
    query_stack: Seq<NodeIndex>,
    data_stack: Seq<NodeIndex>,
    m: Seq<NodeIndex>,
    i: int,
) -> bool {
    agrees_below(query_stack, data_stack, m, i) && m[query_stack[i] as int] > data_stack[i]
}

/// `m` lies in the part of the search tree that is still to be explored.
pub open spec fn ahead_of(
    query_stack: Seq<NodeIndex>,
    data_stack: Seq<NodeIndex>,
    depth: int,
    query_count: int,
    previous: Option<Pair>,
    m: Seq<NodeIndex>,
) -> bool {
    ||| exists|i: int| 0 <= i < depth && #[trigger] diverges_at(query_stack, data_stack, m, i)
    ||| {
        &&& agrees_below(query_stack, data_stack, m, depth)
        &&& depth < query_count
        &&& previous matches Some(p) ==> m[p.query_node as int] > p.data_node
    }
}

/// The state of the depth-first search for embeddings of a query graph into a data graph.
#[derive(Clone, Debug)]
pub struct State<'a, NE, EE> {
    /// Whether the embedding must be induced.
    pub induced: bool,
    /// Depth in the search tree: the number of covered query nodes.
    pub depth: usize,
    /// Query graph state.
    pub query: GraphState<'a>,
    /// Data graph state.
    pub data: GraphState<'a>,
    /// The source of the candidate pairs at depth `i + 1` is at index `i`.
    pub source_stack: Vec<Source>,
    /// The last candidate pair tried at the current depth.
    pub previous: Option<Pair>,
    /// Node equality test.
    pub node_eq: Option<NE>,
    /// Edge equality test.
    pub edge_eq: Option<EE>,
}

impl<'a, NE: LabelEq, EE: LabelEq> State<'a, NE, EE> {
    pub open spec fn qg(&self) -> Graph {
        *self.query.graph
    }

    pub open spec fn dg(&self) -> Graph {
        *self.data.graph
    }

    pub open spec fn same_kind(&self) -> bool {
        self.qg().spec_directed() == self.dg().spec_directed()
    }


    /// Covering `pair` keeps the edges towards covered nodes in `direction` consistent.
    pub open spec fn dir_fits(&self, pair: Pair, direction: Direction) -> bool {
        let q = pair.query_node as int;
        let d = pair.data_node as int;
        forall|v: int|
            0 <= v < self.query.n() && #[trigger] self.query.covered(v) ==> {
                &&& edge_dir(self.qg(), q, v, direction) ==> edge_dir(
                    self.dg(),
                    d,
                    self.query.image(v),
                    direction,
                )
                &&& self.induced && edge_dir(self.dg(), d, self.query.image(v), direction) ==> edge_dir(
                    self.qg(),
                    q,
                    v,
                    direction,
                )
            }
    }

    /// Each edge in `direction` between the query node of `pair` and a covered query node
    /// has its counterpart in the data graph, so the data edge's label exists.
    pub open spec fn edges_mapped(&self, pair: Pair, direction: Direction) -> bool {
        let q = pair.query_node as int;
        let d = pair.data_node as int;
        forall|v: int|
            0 <= v < self.query.n() && #[trigger] self.query.covered(v) && edge_dir(
                self.qg(),
                q,
                v,
                direction,
            ) ==> edge_dir(self.dg(), d, self.query.image(v), direction)
    }

    /// Covering `pair` keeps the edge labels towards covered nodes in `direction` equal.
    pub open spec fn dir_labels_fit(&self, pair: Pair, direction: Direction) -> bool {
        let q = pair.query_node as int;
        let d = pair.data_node as int;
        forall|v: int|
            0 <= v < self.query.n() && #[trigger] self.query.covered(v) && edge_dir(
                self.qg(),
                q,
                v,
                direction,
            ) ==> (self.edge_eq matches Some(p) ==> p.accepts(
                label_dir(self.qg(), q, v, direction),
                label_dir(self.dg(), d, self.query.image(v), direction),
            ))
    }

    pub open spec fn node_fits(&self, pair: Pair) -> bool {
        self.node_eq matches Some(p) ==> p.accepts(
            self.qg().spec_node_label(pair.query_node as int),
            self.dg().spec_node_label(pair.data_node as int),
        )
    }

    /// The label tests that are set always give the same answer on the same labels.
    pub open spec fn decisive(&self) -> bool {
        &&& self.node_eq matches Some(p) ==> p.decisive()
        &&& self.edge_eq matches Some(p) ==> p.decisive()
    }

    /// Covering `pair` keeps the partial map consistent.
    pub open spec fn pair_fits(&self, pair: Pair) -> bool {
        &&& self.node_fits(pair)
        &&& self.same_kind() ==> self.dir_fits(pair, Direction::Outgoing) && self.dir_fits(
            pair,
            Direction::Incoming,
        )
        &&& self.same_kind() ==> self.dir_labels_fit(pair, Direction::Outgoing)
            && self.dir_labels_fit(pair, Direction::Incoming)
    }

    /// The covered query nodes are mapped as a match must map them.
    pub open spec fn consistent(&self) -> bool {
        consistent_maps(self.query, self.data, self.induced, self.node_eq, self.edge_eq)
    }

    pub open spec fn inv(&self) -> bool {
        let qn = self.query.n();
        let dn = self.data.n();
        &&& self.query.wf(self.depth as nat)
        &&& self.data.wf(self.depth as nat)
        &&& self.same_kind()
        &&& 0 < qn <= dn
        &&& self.source_stack@.len() == qn
        &&& forall|u: int|
            0 <= u < qn && #[trigger] self.query.covered(u) ==> self.query.image(u) < dn
                && self.data.map@[self.query.image(u)] == u
        &&& forall|x: int|
            0 <= x < dn && #[trigger] self.data.covered(x) ==> self.data.map@[x] < qn
                && self.query.map@[self.data.map@[x] as int] == x
        &&& forall|i: int|
            0 <= i < self.depth ==> self.query.map@[#[trigger] self.query.node_stack@[i] as int]
                == self.data.node_stack@[i]
        &&& self.previous matches Some(p) ==> {
            &&& p.query_node < qn
            &&& !self.query.covered(p.query_node as int)
            &&& p.data_node < dn
            &&& self.depth < qn
        }
        &&& self.node_eq matches Some(p) ==> p.ready()
        &&& self.edge_eq matches Some(p) ==> p.ready()
        &&& self.consistent()
        &&& self.previous matches Some(p) ==> self.query.in_source(
            self.source_stack@[self.depth as int],
            p.query_node as int,
        )
        &&& forall|k: int|
            0 <= k < self.depth ==> self.query.in_source_at(
                k as nat,
                self.source_stack@[k],
                #[trigger] self.query.node_stack@[k] as int,
            )
        &&& forall|k: int| 0 <= k < self.depth ==> #[trigger] self.follows_order(k)
        &&& self.previous matches Some(p) ==> {
            &&& p.query_node as int == self.next_query_at(self.depth as int)
            &&& self.source_stack@[self.depth as int] == self.pool_at(self.depth as int)
        }
    }

    /// The query node that the search covers after the pairs of the depths below `k`.
    pub open spec fn next_query_at(&self, k: int) -> int {
        next_query_node(
            self.qg(),
            self.dg(),
            self.query.node_stack@.subrange(0, k),
            self.data.node_stack@.subrange(0, k),
        )
    }

    /// The order facts at depth `k` carry over to a state with the same pairs below and
    /// at `k` and the same source there.
    pub proof fn lemma_order_frame(&self, other: &Self, k: int)
        requires
            0 <= k < self.query.node_stack@.len(),
            k < self.data.node_stack@.len(),
            k < other.query.node_stack@.len(),
            k < other.data.node_stack@.len(),
            k < self.source_stack@.len(),
            k < other.source_stack@.len(),
            self.qg() == other.qg(),
            self.dg() == other.dg(),
            forall|j: int| 0 <= j <= k ==> self.query.node_stack@[j] == other.query.node_stack@[j],
            forall|j: int| 0 <= j < k ==> self.data.node_stack@[j] == other.data.node_stack@[j],
            self.source_stack@[k] == other.source_stack@[k],
            self.follows_order(k),
        ensures
            other.follows_order(k),
    {
        reveal(State::follows_order);
        assert(self.query.node_stack@.subrange(0, k) =~= other.query.node_stack@.subrange(0, k));
        assert(self.data.node_stack@.subrange(0, k) =~= other.data.node_stack@.subrange(0, k));
    }

    /// The sources of the state are the pools of the search order.
    pub proof fn lemma_pools(&self, source: Source)
        requires
            self.inv(),
        ensures
            self.fresh_source() == self.pool_at(self.depth as int),
            forall|x: int|
                0 <= x < self.query.n() ==> #[trigger] self.query.in_source(source, x) == in_pool(
                    self.qg(),
                    self.query.node_stack@.subrange(0, self.depth as int),
                    source,
                    x,
                ),
            forall|y: int|
                0 <= y < self.data.n() ==> #[trigger] self.data.in_source(source, y) == in_pool(
                    self.dg(),
                    self.data.node_stack@.subrange(0, self.depth as int),
                    source,
                    y,
                ),
    {
        reveal(pool_for);
        self.query.lemma_size_pool(self.depth as nat);
        self.data.lemma_size_pool(self.depth as nat);
        assert forall|x: int| 0 <= x < self.query.n() implies #[trigger] self.query.in_source(
            source,
            x,
        ) == in_pool(
            self.qg(),
            self.query.node_stack@.subrange(0, self.depth as int),
            source,
            x,
        ) by {
            self.query.lemma_in_pool(self.depth as nat, source, x);
        }
        assert forall|y: int| 0 <= y < self.data.n() implies #[trigger] self.data.in_source(
            source,
            y,
        ) == in_pool(
            self.dg(),
            self.data.node_stack@.subrange(0, self.depth as int),
            source,
            y,
        ) by {
            self.data.lemma_in_pool(self.depth as nat, source, y);
        }
    }

    /// The least query node of the pool is the one the search order picks.
    pub proof fn lemma_least_is_next(&self, q: int)
        requires
            self.inv(),
            0 <= q < self.query.n(),
            self.query.in_source(self.fresh_source(), q),
            forall|x: int| 0 <= x < q ==> !self.query.in_source(self.fresh_source(), x),
        ensures
            q == self.next_query_at(self.depth as int),
    {
        let s = self.fresh_source();
        self.lemma_pools(s);
        let placed = self.query.node_stack@.subrange(0, self.depth as int);
        reveal(next_query_node);
        assert(in_pool(self.qg(), placed, s, q));
        assert forall|y: int| 0 <= y < q implies !in_pool(self.qg(), placed, s, y) by {
            assert(!self.query.in_source(s, y));
        }
        let c = self.next_query_at(self.depth as int);
        assert(in_pool(self.qg(), placed, s, c) && forall|y: int|
            0 <= y < c ==> !in_pool(self.qg(), placed, s, y));
        if c < q {
            assert(self.query.in_source(s, c));
        }
        if c > q {
            assert(!in_pool(self.qg(), placed, s, q));
        }
    }

    /// The source of the pairs after the pairs of the depths below `k`.
    pub open spec fn pool_at(&self, k: int) -> Source {
        pool_for(
            self.qg(),
            self.dg(),
            self.query.node_stack@.subrange(0, k),
            self.data.node_stack@.subrange(0, k),
        )
    }

    /// The query node and source at depth `k + 1` are those the search order picks.
    #[verifier::opaque]
    pub open spec fn follows_order(&self, k: int) -> bool {
        &&& self.query.node_stack@[k] as int == self.next_query_at(k)
        &&& self.source_stack@[k] == self.pool_at(k)
    }

    /// The search position as digits, one per depth: inside the subtree of the data
    /// node covered there, or, at the current depth, the last data node tried.
    pub open spec fn key(&self) -> Seq<int> {
        Seq::new(
            (self.depth + 1) as nat,
            |i: int|
                if i < self.depth {
                    2 * self.data.node_stack@[i] + 1
                } else {
                    match self.previous {
                        None => 0,
                        Some(p) => 2 * p.data_node + 2,
                    }
                },
        )
    }

    pub open spec fn base(&self) -> int {
        2 * self.data.n() as int + 2
    }

    /// What is left of the search; each step that does not stop the driver lowers it.
    pub open spec fn measure(&self) -> int {
        weight(self.base(), self.query.n() + 1) - lex_value(
            self.key(),
            self.query.n() + 1,
            self.base(),
        )
    }

    /// Fields that no step changes.
    pub open spec fn same_search(&self, other: &Self) -> bool {
        &&& self.induced == other.induced
        &&& self.query.graph == other.query.graph
        &&& self.data.graph == other.data.graph
        &&& self.node_eq == other.node_eq
        &&& self.edge_eq == other.edge_eq
    }

    /// The source chosen for the first pair of a fresh depth.
    pub open spec fn fresh_source(&self) -> Source {
        if self.query.outgoing_size > 0 && self.data.outgoing_size > 0 {
            Source::Outgoing
        } else if self.query.incoming_size > 0 && self.data.incoming_size > 0 {
            Source::Incoming
        } else {
            Source::Uncovered
        }
    }

    /// No candidate pair is left to try at the current depth.
    pub open spec fn no_candidate(&self) -> bool {
        if self.depth == self.query.n() {
            true
        } else {
            match self.previous {
                Some(p) => forall|y: int|
                    p.data_node < y < self.data.n() ==> !#[trigger] self.data.in_source(
                        self.source_stack@[self.depth as int],
                        y,
                    ),
                None => {
                    ||| forall|x: int|
                        0 <= x < self.query.n() ==> !#[trigger] self.query.in_source(
                            self.fresh_source(),
                            x,
                        )
                    ||| forall|y: int|
                        0 <= y < self.data.n() ==> !#[trigger] self.data.in_source(
                            self.fresh_source(),
                            y,
                        )
                },
            }
        }
    }

    /// The search is over: no candidate is left at depth zero.
    pub open spec fn exhausted(&self) -> bool {
        self.depth == 0 && self.no_candidate()
    }

    /// `m` is a match that this search looks for.
    pub open spec fn solution(&self, m: Seq<NodeIndex>) -> bool {
        is_match(self.qg(), self.dg(), self.induced, self.node_eq, self.edge_eq, m)
    }

    /// `m` is still to be found by the search.
    pub open spec fn ahead(&self, m: Seq<NodeIndex>) -> bool {
        ahead_of(
            self.query.node_stack@,
            self.data.node_stack@,
            self.depth as int,
            self.query.n() as int,
            self.previous,
            m,
        )
    }

    /// A match that agrees with the search below the current depth maps the covered
    /// query nodes as the partial map does.
    pub proof fn lemma_agrees_covered(&self, m: Seq<NodeIndex>)
        requires
            self.inv(),
            agrees_below(self.query.node_stack@, self.data.node_stack@, m, self.depth as int),
        ensures
            forall|u: int|
                0 <= u < self.query.n() && #[trigger] self.query.covered(u) ==> self.query.image(u)
                    == m[u] as int,
    {
        assert forall|u: int| 0 <= u < self.query.n() && #[trigger] self.query.covered(
            u,
        ) implies self.query.image(u) == m[u] as int by {
            assert(self.query.stacked(u, self.depth as nat));
            let j = choose|j: int| 0 <= j < self.depth && #[trigger] self.query.node_stack@[j] == u;
            assert(self.query.map@[self.query.node_stack@[j] as int] == self.data.node_stack@[j]);
        }
    }

    /// A query node that may be drawn from `source` is mapped by a match that agrees
    /// with the search to a data node that may be drawn from `source` too.
    pub proof fn lemma_candidate(&self, m: Seq<NodeIndex>, q: int, source: Source)
        requires
            self.inv(),
            self.same_kind(),
            self.solution(m),
            agrees_below(self.query.node_stack@, self.data.node_stack@, m, self.depth as int),
            0 <= q < self.query.n(),
            self.query.in_source(source, q),
        ensures
            m[q] < self.data.n(),
            self.data.in_source(source, m[q] as int),
    {
        let qn = self.query.n();
        let dn = self.data.n();
        let x = m[q] as int;
        self.lemma_agrees_covered(m);
        assert(m[q] < dn);
        if self.data.covered(x) {
            let u = self.data.map@[x] as int;
            assert(self.query.covered(u));
            assert(self.query.image(u) == x);
            assert(m[u] == m[q]);
        }
        match source {
            Source::Outgoing => {
                let k = self.query.outgoing@[q];
                assert(self.query.entered_by(self.query.outgoing@, q, self.depth as nat, Direction::Outgoing));
                let u = self.query.node_stack@[k - 1];
                assert(self.query.covered(u as int));
                self.qg().lemma_neighbors(u as int, Direction::Outgoing);
                let j = choose|j: int|
                    0 <= j < self.qg().neighbors_of(u as int, Direction::Outgoing).len()
                        && self.qg().neighbors_of(u as int, Direction::Outgoing)[j] == q as usize;
                assert(self.qg().has_edge(u as int, q));
                assert(self.query.image(u as int) == m[u as int] as int);
                let y = self.data.node_stack@[k - 1];
                assert(self.query.map@[self.query.node_stack@[k - 1] as int] == y);
                assert(self.dg().has_edge(y as int, x));
                assert(y < dn);
                self.dg().lemma_neighbors(y as int, Direction::Outgoing);
                assert(self.dg().neighbors_of(y as int, Direction::Outgoing).contains(x as usize));
                assert(self.data.holds_neighbors(self.data.outgoing@, self.depth as nat, Direction::Outgoing));
            },
            Source::Incoming => {
                let k = self.query.incoming@[q];
                assert(self.query.entered_by(self.query.incoming@, q, self.depth as nat, Direction::Incoming));
                assert(self.qg().spec_directed());
                let u = self.query.node_stack@[k - 1];
                assert(self.query.covered(u as int));
                self.qg().lemma_neighbors(u as int, Direction::Incoming);
                let j = choose|j: int|
                    0 <= j < self.qg().neighbors_of(u as int, Direction::Incoming).len()
                        && self.qg().neighbors_of(u as int, Direction::Incoming)[j] == q as usize;
                assert(self.qg().has_edge(q, u as int));
                assert(self.query.image(u as int) == m[u as int] as int);
                let y = self.data.node_stack@[k - 1];
                assert(self.query.map@[self.query.node_stack@[k - 1] as int] == y);
                assert(self.dg().has_edge(x, y as int));
                assert(y < dn);
                self.dg().lemma_neighbors(y as int, Direction::Incoming);
                assert(self.dg().neighbors_of(y as int, Direction::Incoming).contains(x as usize));
                assert(self.data.holds_neighbors(self.data.incoming@, self.depth as nat, Direction::Incoming));
            },
            Source::Uncovered => {},
        }
    }

    /// A match that agrees with the search accepts its own image of an uncovered
    /// query node as the next pair.
    pub proof fn lemma_solution_fits(&self, m: Seq<NodeIndex>, pair: Pair)
        requires
            self.inv(),
            self.same_kind(),
            self.solution(m),
            agrees_below(self.query.node_stack@, self.data.node_stack@, m, self.depth as int),
            pair.query_node < self.query.n(),
            !self.query.covered(pair.query_node as int),
            pair.data_node == m[pair.query_node as int],
        ensures
            self.pair_fits(pair),
    {
        let q = pair.query_node as int;
        let d = pair.data_node as int;
        self.lemma_agrees_covered(m);
        assert forall|direction: Direction| #[trigger] self.dir_fits(pair, direction) by {
            assert forall|v: int| 0 <= v < self.query.n() && #[trigger] self.query.covered(v) implies {
                &&& edge_dir(self.qg(), q, v, direction) ==> edge_dir(
                    self.dg(),
                    d,
                    self.query.image(v),
                    direction,
                )
                &&& self.induced && edge_dir(self.dg(), d, self.query.image(v), direction)
                    ==> edge_dir(self.qg(), q, v, direction)
            } by {
                assert(v != q);
                assert(self.query.image(v) == m[v] as int);
                if direction == Direction::Outgoing {
                    if self.qg().has_edge(q, v) {
                        assert(self.dg().has_edge(m[q] as int, m[v] as int));
                    }
                    if self.induced && self.dg().has_edge(m[q] as int, m[v] as int) {
                        assert(self.qg().has_edge(q, v));
                    }
                } else {
                    if self.qg().has_edge(v, q) {
                        assert(self.dg().has_edge(m[v] as int, m[q] as int));
                    }
                    if self.induced && self.dg().has_edge(m[v] as int, m[q] as int) {
                        assert(self.qg().has_edge(v, q));
                    }
                }
            }
        }
        assert forall|direction: Direction| #[trigger] self.dir_labels_fit(pair, direction) by {
            assert forall|v: int|
                0 <= v < self.query.n() && #[trigger] self.query.covered(v) && edge_dir(
                    self.qg(),
                    q,
                    v,
                    direction,
                ) implies (self.edge_eq matches Some(p) ==> p.accepts(
                label_dir(self.qg(), q, v, direction),
                label_dir(self.dg(), d, self.query.image(v), direction),
            )) by {
                assert(v != q);
                assert(self.query.image(v) == m[v] as int);
                if direction == Direction::Outgoing {
                    assert(self.qg().has_edge(q, v));
                } else {
                    assert(self.qg().has_edge(v, q));
                }
            }
        }
        assert(self.dir_fits(pair, Direction::Outgoing));
        assert(self.dir_fits(pair, Direction::Incoming));
        assert(self.dir_labels_fit(pair, Direction::Outgoing));
        assert(self.dir_labels_fit(pair, Direction::Incoming));
    }

    /// Below full depth, the source chosen for a fresh depth holds a query node.
    pub proof fn lemma_fresh_has_query(&self) -> (x: int)
        requires
            self.inv(),
            self.depth < self.query.n(),
        ensures
            0 <= x < self.query.n(),
            self.query.in_source(self.fresh_source(), x),
    {
        let n = self.query.n();
        match self.fresh_source() {
            Source::Outgoing => {
                lemma_count_witness(n, terminal(self.query.outgoing@, self.query.map@));
                choose|x: int|
                    0 <= x < n && #[trigger] terminal(self.query.outgoing@, self.query.map@)(x)
            },
            Source::Incoming => {
                lemma_count_witness(n, terminal(self.query.incoming@, self.query.map@));
                choose|x: int|
                    0 <= x < n && #[trigger] terminal(self.query.incoming@, self.query.map@)(x)
            },
            Source::Uncovered => {
                if forall|x: int| 0 <= x < n ==> #[trigger] covered_in(self.query.map@)(x) {
                    lemma_count_all(n, covered_in(self.query.map@));
                }
                choose|x: int| 0 <= x < n && !#[trigger] covered_in(self.query.map@)(x)
            },
        }
    }

    /// A match that agrees with the search and lies past the last pair tried at the
    /// current depth leaves a candidate there.
    pub proof fn lemma_candidate_left(&self, m: Seq<NodeIndex>)
        requires
            self.inv(),
            self.same_kind(),
            self.solution(m),
            agrees_below(self.query.node_stack@, self.data.node_stack@, m, self.depth as int),
            self.depth < self.query.n(),
            self.previous matches Some(p) ==> m[p.query_node as int] > p.data_node,
        ensures
            !self.no_candidate(),
    {
        match self.previous {
            Some(p) => {
                let s = self.source_stack@[self.depth as int];
                self.lemma_candidate(m, p.query_node as int, s);
            },
            None => {
                let x = self.lemma_fresh_has_query();
                self.lemma_candidate(m, x, self.fresh_source());
            },
        }
    }

    /// Popping after the last candidate at the current depth keeps every match that
    /// was still to be found so.
    pub proof fn lemma_pop_keeps_ahead(&self, next: &Self, m: Seq<NodeIndex>)
        requires
            self.inv(),
            self.same_kind(),
            self.solution(m),
            self.ahead(m),
            self.no_candidate(),
            self.depth > 0,
            next.depth == self.depth - 1,
            next.query.node_stack == self.query.node_stack,
            next.data.node_stack == self.data.node_stack,
            next.query.n() == self.query.n(),
            next.previous == Some(
                Pair {
                    query_node: self.query.node_stack@[self.depth - 1],
                    data_node: self.data.node_stack@[self.depth - 1],
                },
            ),
        ensures
            next.ahead(m),
    {
        let qs = self.query.node_stack@;
        let ds = self.data.node_stack@;
        let d = self.depth as int;
        if exists|i: int| 0 <= i < d && #[trigger] diverges_at(qs, ds, m, i) {
            let i = choose|i: int| 0 <= i < d && #[trigger] diverges_at(qs, ds, m, i);
            if i < d - 1 {
                assert(diverges_at(qs, ds, m, i));
            } else {
                assert(agrees_below(qs, ds, m, d - 1));
            }
        } else {
            self.lemma_candidate_left(m);
        }
    }

    /// Trying the next pair puts no match ahead that was not ahead before.
    pub proof fn lemma_try_adds_nothing(&self, next: &Self, pair: Pair, pushed: bool, m: Seq<NodeIndex>)
        requires
            self.inv(),
            next.inv(),
            self.depth < self.query.n(),
            self.previous matches Some(prev) ==> pair.query_node == prev.query_node
                && prev.data_node < pair.data_node,
            pushed ==> {
                &&& next.depth == self.depth + 1
                &&& next.query.node_stack@ == self.query.node_stack@.update(
                    self.depth as int,
                    pair.query_node,
                )
                &&& next.data.node_stack@ == self.data.node_stack@.update(
                    self.depth as int,
                    pair.data_node,
                )
                &&& next.previous is None
            },
            !pushed ==> {
                &&& next.depth == self.depth
                &&& next.query.node_stack == self.query.node_stack
                &&& next.data.node_stack == self.data.node_stack
                &&& next.previous == Some(pair)
            },
            next.query.n() == self.query.n(),
            next.ahead(m) || (next.depth == next.query.n() && m == next.query.map@),
        ensures
            self.ahead(m),
    {
        assert forall|j: int| 0 <= j < next.depth implies next.query.map@[#[trigger] next.query.node_stack@[j] as int]
            == next.data.node_stack@[j] by {}
        let qs = self.query.node_stack@;
        let ds = self.data.node_stack@;
        let nqs = next.query.node_stack@;
        let nds = next.data.node_stack@;
        let d = self.depth as int;
        assert forall|i: int| 0 <= i <= d implies #[trigger] agrees_below(nqs, nds, m, i)
            == agrees_below(qs, ds, m, i) by {
            if agrees_below(qs, ds, m, i) {
                assert forall|j: int| 0 <= j < i implies m[#[trigger] nqs[j] as int] == nds[j] by {
                    assert(m[qs[j] as int] == ds[j]);
                }
            }
            if agrees_below(nqs, nds, m, i) {
                assert forall|j: int| 0 <= j < i implies m[#[trigger] qs[j] as int] == ds[j] by {
                    assert(m[nqs[j] as int] == nds[j]);
                }
            }
        }
        let nd = next.depth as int;
        if exists|i: int| 0 <= i < nd && #[trigger] diverges_at(nqs, nds, m, i) {
            let i = choose|i: int| 0 <= i < nd && #[trigger] diverges_at(nqs, nds, m, i);
            if i < d {
                assert(diverges_at(qs, ds, m, i));
            } else {
                assert(agrees_below(qs, ds, m, d));
            }
        } else if next.ahead(m) {
            if pushed {
                assert(agrees_below(nqs, nds, m, d));
                assert(m[nqs[d] as int] == nds[d]);
            }
            assert(agrees_below(qs, ds, m, d));
        } else {
            assert(agrees_below(nqs, nds, m, nd));
            if pushed {
                assert(agrees_below(nqs, nds, m, d));
                assert(m[nqs[d] as int] == nds[d]);
            }
            assert(agrees_below(qs, ds, m, d));
        }
    }

    /// Trying the next pair keeps every match that was still to be found so, or
    /// completes it.
    pub proof fn lemma_try_keeps_ahead(
        &self,
        mid: &Self,
        next: &Self,
        pair: Pair,
        pushed: bool,
        m: Seq<NodeIndex>,
    )
        requires
            self.inv(),
            mid.inv(),
            next.inv(),
            self.same_kind(),
            self.solution(m),
            self.ahead(m),
            self.depth < self.query.n(),
            mid.same_search(self),
            mid.query == self.query,
            mid.data == self.data,
            mid.depth == self.depth,
            mid.previous == Some(pair),
            pair.query_node < self.query.n(),
            mid.query.in_source(mid.source_stack@[self.depth as int], pair.query_node as int),
            self.previous is None ==> {
                &&& mid.source_stack@[self.depth as int] == self.fresh_source()
                &&& forall|y: int|
                    0 <= y < pair.data_node ==> !self.data.in_source(self.fresh_source(), y)
            },
            self.previous matches Some(prev) ==> {
                &&& pair.query_node == prev.query_node
                &&& mid.source_stack@[self.depth as int] == self.source_stack@[self.depth as int]
                &&& forall|y: int|
                    prev.data_node < y < pair.data_node ==> !self.data.in_source(
                        self.source_stack@[self.depth as int],
                        y,
                    )
            },
            mid.pair_fits(pair) ==> pushed,
            pushed ==> {
                &&& next.depth == self.depth + 1
                &&& next.query.node_stack@ == self.query.node_stack@.update(
                    self.depth as int,
                    pair.query_node,
                )
                &&& next.data.node_stack@ == self.data.node_stack@.update(
                    self.depth as int,
                    pair.data_node,
                )
                &&& next.previous is None
            },
            !pushed ==> {
                &&& next.depth == self.depth
                &&& next.query.node_stack == self.query.node_stack
                &&& next.data.node_stack == self.data.node_stack
                &&& next.previous == Some(pair)
            },
            next.query.n() == self.query.n(),
        ensures
            next.ahead(m) || (next.depth == next.query.n() && m == next.query.map@),
    {
        let qs = self.query.node_stack@;
        let ds = self.data.node_stack@;
        let nqs = next.query.node_stack@;
        let nds = next.data.node_stack@;
        let d = self.depth as int;
        let q = pair.query_node as int;
        assert forall|i: int| 0 <= i <= d implies #[trigger] agrees_below(nqs, nds, m, i)
            == agrees_below(qs, ds, m, i) by {
            if agrees_below(qs, ds, m, i) {
                assert forall|j: int| 0 <= j < i implies m[#[trigger] nqs[j] as int] == nds[j] by {
                    assert(m[qs[j] as int] == ds[j]);
                }
            }
            if agrees_below(nqs, nds, m, i) {
                assert forall|j: int| 0 <= j < i implies m[#[trigger] qs[j] as int] == ds[j] by {
                    assert(m[nqs[j] as int] == nds[j]);
                }
            }
        }
        if exists|i: int| 0 <= i < d && #[trigger] diverges_at(qs, ds, m, i) {
            let i = choose|i: int| 0 <= i < d && #[trigger] diverges_at(qs, ds, m, i);
            assert(agrees_below(nqs, nds, m, i));
            assert(diverges_at(nqs, nds, m, i));
        } else {
            let s = mid.source_stack@[d];
            self.lemma_candidate(m, q, s);
            let x = m[q];
            assert(x >= pair.data_node);
            if x > pair.data_node {
                if pushed {
                    assert(diverges_at(nqs, nds, m, d));
                }
            } else {
                mid.lemma_solution_fits(m, pair);
                assert(agrees_below(nqs, nds, m, d + 1)) by {
                    assert forall|j: int| 0 <= j < d + 1 implies m[#[trigger] nqs[j] as int]
                        == nds[j] by {
                        if j < d {
                            assert(agrees_below(nqs, nds, m, d));
                        }
                    }
                }
                if next.depth == next.query.n() {
                    next.lemma_agrees_covered(m);
                    lemma_count_full(next.query.n(), covered_in(next.query.map@));
                    assert forall|u: int| 0 <= u < m.len() implies m[u] == next.query.map@[u] by {
                        assert(covered_in(next.query.map@)(u));
                        assert(next.query.covered(u));
                    }
                    assert(m =~= next.query.map@);
                }
            }
        }
    }

    /// A map that agrees with the search below depth `k` follows the search path there.
    pub proof fn lemma_path(&self, m: Seq<NodeIndex>, k: int)
        requires
            self.inv(),
            0 <= k <= self.depth,
            agrees_below(self.query.node_stack@, self.data.node_stack@, m, k),
        ensures
            search_path(self.qg(), self.dg(), m, k as nat) == self.query.node_stack@.subrange(0, k),
            images(m, self.query.node_stack@.subrange(0, k)) == self.data.node_stack@.subrange(0, k),
        decreases k,
    {
        let qs = self.query.node_stack@;
        let ds = self.data.node_stack@;
        if k == 0 {
            assert(search_path(self.qg(), self.dg(), m, 0) =~= qs.subrange(0, 0));
            assert(images(m, qs.subrange(0, 0)) =~= ds.subrange(0, 0));
        } else {
            assert(agrees_below(qs, ds, m, k - 1));
            self.lemma_path(m, k - 1);
            assert(self.follows_order(k - 1));
            reveal(State::follows_order);
            assert(search_path(self.qg(), self.dg(), m, k as nat) =~= qs.subrange(0, k));
            assert(images(m, qs.subrange(0, k)) =~= ds.subrange(0, k)) by {
                assert forall|j: int| 0 <= j < k implies images(m, qs.subrange(0, k))[j] == ds[j] by {
                    assert(m[qs[j] as int] == ds[j]);
                }
            }
        }
    }

    /// At full depth, every match still ahead comes after the complete map.
    pub proof fn lemma_complete_before(&self, m: Seq<NodeIndex>)
        requires
            self.inv(),
            self.depth == self.query.n(),
            self.ahead(m),
        ensures
            search_before(self.qg(), self.dg(), self.query.map@, m),
    {
        let qs = self.query.node_stack@;
        let ds = self.data.node_stack@;
        let x = self.query.map@;
        let i = choose|i: int| 0 <= i < self.depth && #[trigger] diverges_at(qs, ds, m, i);
        assert(agrees_below(qs, ds, x, self.depth as int)) by {
            assert forall|j: int| 0 <= j < self.depth implies x[#[trigger] qs[j] as int] == ds[j] by {}
        }
        assert(agrees_below(qs, ds, x, i));
        self.lemma_path(m, i);
        self.lemma_path(x, i);
        assert(self.follows_order(i));
        reveal(State::follows_order);
        assert(x[qs[i] as int] == ds[i]);
        assert(splits_at(self.qg(), self.dg(), x, m, i));
    }

    /// A complete map is not ahead of the state that holds it.
    pub proof fn lemma_complete_not_ahead(&self)
        requires
            self.inv(),
            self.depth == self.query.n(),
        ensures
            !self.ahead(self.query.map@),
    {
        let qs = self.query.node_stack@;
        let ds = self.data.node_stack@;
        let m = self.query.map@;
        assert forall|i: int| 0 <= i < self.depth implies !#[trigger] diverges_at(qs, ds, m, i) by {
            assert(m[qs[i] as int] == ds[i]);
        }
    }

    pub proof fn lemma_key_digits(&self)
        requires
            self.inv(),
        ensures
            digits_in(self.key(), self.base()),
            self.key().len() <= self.query.n() + 1,
            self.base() >= 1,
            0 <= self.measure(),
    {
        let k = self.key();
        assert forall|i: int| 0 <= i < k.len() implies 0 <= #[trigger] k[i] < self.base() by {
            if i < self.depth {
                assert(self.data.node_stack@[i] < self.data.n());
            }
        }
        lemma_lex_bounds(k, self.query.n() + 1, self.base());
    }

    /// The measure falls when the key rises at `i` with the digits before `i` kept.
    proof fn lemma_measure_falls(&self, next: &Self, i: int)
        requires
            self.inv(),
            next.inv(),
            self.query.n() == next.query.n(),
            self.data.n() == next.data.n(),
            0 <= i <= self.depth,
            i <= next.depth,
            forall|j: int| 0 <= j < i ==> self.key()[j] == next.key()[j],
            self.key()[i] < next.key()[i],
        ensures
            next.measure() < self.measure(),
    {
        self.lemma_key_digits();
        next.lemma_key_digits();
        lemma_lex_increase(self.key(), next.key(), self.query.n() + 1, self.base(), i);
    }

    /// Creates the search state at depth zero.
    pub fn new(
        query: &'a Graph,
        data: &'a Graph,
        node_eq: Option<NE>,
        edge_eq: Option<EE>,
        induced: bool,
    ) -> (r: Self)
        requires
            query.wf(),
            data.wf(),
            query.spec_directed() == data.spec_directed(),
            0 < query.spec_node_count() <= data.spec_node_count(),
            data.spec_node_count() < NOT_IN_MAP,
            node_eq matches Some(p) ==> p.ready(),
            edge_eq matches Some(p) ==> p.ready(),
        ensures
            r.inv(),
            r.depth == 0,
            r.previous is None,
            r.query.graph == query,
            r.data.graph == data,
            r.node_eq == node_eq,
            r.edge_eq == edge_eq,
            r.induced == induced,
    {
        let qn = query.node_count();
        State {
            induced,
            depth: 0,
            query: GraphState::new(query),
            data: GraphState::new(data),
            source_stack: vec![Source::Outgoing; qn],
            previous: None,
            node_eq,
            edge_eq,
        }
    }

    /// Returns `true` if all query nodes are covered.
    pub fn all_covered(&self) -> (r: bool)
        ensures
            r == (self.depth == self.query.n()),
    {
        self.depth == self.query.map.len()
    }

    /// Returns `true` if the graphs are directed.
    pub fn is_directed(&self) -> (r: bool)
        ensures
            r == self.qg().spec_directed(),
    {
        self.query.graph.is_directed()
    }

    /// Returns a reference to the query partial map.
    pub fn query_map(&self) -> (r: &Vec<NodeIndex>)
        ensures
            r@ == self.query.map@,
    {
        &self.query.map
    }

    /// Returns the first candidate pair and its source: the source is the outgoing
    /// terminal sets if both are nonempty, else the incoming ones if both are
    /// nonempty, else the uncovered nodes.
    pub fn first_pair(&self) -> (r: Option<(Pair, Source)>)
        requires
            self.inv(),
        ensures
            r is None <==> {
                ||| forall|x: int|
                    0 <= x < self.query.n() ==> !#[trigger] self.query.in_source(
                        self.fresh_source(),
                        x,
                    )
                ||| forall|y: int|
                    0 <= y < self.data.n() ==> !#[trigger] self.data.in_source(
                        self.fresh_source(),
                        y,
                    )
            },
            r matches Some((p, s)) ==> s == self.fresh_source(),
            r matches Some((p, s)) ==> {
                &&& p.query_node < self.query.n()
                &&& p.data_node < self.data.n()
                &&& self.query.in_source(s, p.query_node as int)
                &&& self.data.in_source(s, p.data_node as int)
                &&& forall|y: int| 0 <= y < p.data_node ==> !self.data.in_source(s, y)
                &&& forall|x: int| 0 <= x < p.query_node ==> !self.query.in_source(s, x)
            },
    {
        let source = if self.query.outgoing_size > 0 && self.data.outgoing_size > 0 {
            Source::Outgoing
        } else if self.query.incoming_size > 0 && self.data.incoming_size > 0 {
            Source::Incoming
        } else {
            Source::Uncovered
        };
        match self.first_pair_in(source) {
            Some(pair) => Some((pair, source)),
            None => None,
        }
    }

    /// Returns the first candidate pair from `source`: its least query node and its
    /// least data node.
    pub fn first_pair_in(&self, source: Source) -> (r: Option<Pair>)
        requires
            self.inv(),
        ensures
            r is None <==> {
                ||| forall|x: int|
                    0 <= x < self.query.n() ==> !#[trigger] self.query.in_source(source, x)
                ||| forall|y: int| 0 <= y < self.data.n() ==> !#[trigger] self.data.in_source(source, y)
            },
            r matches Some(p) ==> {
                &&& p.query_node < self.query.n()
                &&& p.data_node < self.data.n()
                &&& self.query.in_source(source, p.query_node as int)
                &&& self.data.in_source(source, p.data_node as int)
                &&& forall|y: int| 0 <= y < p.data_node ==> !self.data.in_source(source, y)
                &&& forall|x: int| 0 <= x < p.query_node ==> !self.query.in_source(source, x)
            },
    {
        if let Some(query_node) = self.query.first_node(source) {
            if let Some(data_node) = self.data.first_node(source) {
                return Some(Pair::new(query_node, data_node));
            }
        }
        None
    }

    /// Returns the candidate pair from `source` that follows `previous`: the same
    /// query node with the next data node.
    pub fn following_pair(&self, source: Source, previous: Pair) -> (r: Option<Pair>)
        requires
            self.inv(),
            previous.data_node < self.data.n(),
        ensures
            r is None <==> forall|y: int|
                previous.data_node < y < self.data.n() ==> !#[trigger] self.data.in_source(source, y),
            r matches Some(p) ==> {
                &&& p.query_node == previous.query_node
                &&& previous.data_node < p.data_node < self.data.n()
                &&& self.data.in_source(source, p.data_node as int)
                &&& forall|y: int|
                    previous.data_node < y < p.data_node ==> !self.data.in_source(source, y)
            },
    {
        match self.data.next_node(source, previous.data_node + 1) {
            Some(data_node) => Some(Pair::new(previous.query_node, data_node)),
            None => None,
        }
    }

    /// Returns the next candidate pair, or `None` if the current depth has no more.
    pub fn next_pair(&mut self) -> (r: Option<Pair>)
        requires
            old(self).inv(),
        ensures
            final(self).inv(),
            final(self).same_search(old(self)),
            final(self).depth == old(self).depth,
            final(self).query == old(self).query,
            final(self).data == old(self).data,
            final(self).previous == old(self).previous,
            r is None <==> old(self).no_candidate(),
            r is None ==> *final(self) == *old(self),
            forall|k: int|
                0 <= k < final(self).source_stack@.len() && k != old(self).depth
                    ==> final(self).source_stack@[k] == old(self).source_stack@[k],
            r matches Some(p) ==> {
                &&& p.query_node as int == old(self).next_query_at(old(self).depth as int)
                &&& final(self).source_stack@[old(self).depth as int] == old(self).pool_at(
                    old(self).depth as int,
                )
            },
            r matches Some(p) ==> old(self).previous is None ==> forall|x: int|
                0 <= x < p.query_node ==> !old(self).query.in_source(old(self).fresh_source(), x),
            r matches Some(p) ==> final(self).query.in_source(
                final(self).source_stack@[old(self).depth as int],
                p.query_node as int,
            ),
            r matches Some(p) ==> final(self).data.in_source(
                final(self).source_stack@[old(self).depth as int],
                p.data_node as int,
            ),
            r matches Some(p) ==> old(self).previous is None ==> {
                &&& final(self).source_stack@[old(self).depth as int] == old(self).fresh_source()
                &&& forall|y: int|
                    0 <= y < p.data_node ==> !old(self).data.in_source(old(self).fresh_source(), y)
            },
            r matches Some(p) ==> old(self).previous matches Some(prev) ==> {
                &&& final(self).source_stack@[old(self).depth as int] == old(
                    self,
                ).source_stack@[old(self).depth as int]
                &&& forall|y: int|
                    prev.data_node < y < p.data_node ==> !old(self).data.in_source(
                        old(self).source_stack@[old(self).depth as int],
                        y,
                    )
            },
            r matches Some(p) ==> {
                &&& old(self).depth < old(self).query.n()
                &&& p.query_node < old(self).query.n()
                &&& !old(self).query.covered(p.query_node as int)
                &&& p.data_node < old(self).data.n()
                &&& !old(self).data.covered(p.data_node as int)
                &&& old(self).previous matches Some(prev) ==> p.query_node == prev.query_node
                    && prev.data_node < p.data_node
            },
    {
        if self.all_covered() {
            None
        } else if let Some(previous) = self.previous {
            let source = self.source_stack[self.depth];
            self.following_pair(source, previous)
        } else {
            match self.first_pair() {
                Some((pair, source)) => {
                    let ghost before = *self;
                    proof {
                        before.lemma_pools(source);
                        before.lemma_least_is_next(pair.query_node as int);
                    }
                    self.source_stack.set(self.depth, source);
                    proof {
                        assert forall|k: int| 0 <= k < self.depth implies #[trigger] self.follows_order(
                            k,
                        ) by {
                            before.lemma_order_frame(self, k);
                        }
                    }
                    Some(pair)
                },
                None => None,
            }
        }
    }

    /// Returns `true` if the edges between `pair` and the covered nodes, in `direction`,
    /// agree on both sides (on the data side too when the match is induced).
    pub fn rule_neighbors(&self, pair: Pair, direction: Direction) -> (r: bool)
        requires
            self.inv(),
            pair.query_node < self.query.n(),
            pair.data_node < self.data.n(),
        ensures
            r == self.dir_fits(pair, direction),
    {
        let query_graph = self.query.graph;
        let data_graph = self.data.graph;
        let q = pair.query_node;
        let d = pair.data_node;
        let query_neighbors = query_graph.neighbors(q, direction);
        proof {
            query_graph.lemma_neighbors(q as int, direction);
            data_graph.lemma_neighbors(d as int, direction);
        }
        let mut j: usize = 0;
        while j < query_neighbors.len()
            invariant
                self.inv(),
                query_graph == self.query.graph,
                data_graph == self.data.graph,
                q == pair.query_node,
                d == pair.data_node,
                q < self.query.n(),
                d < self.data.n(),
                query_neighbors@ == query_graph.neighbors_of(q as int, direction),
                forall|i: int|
                    0 <= i < query_neighbors@.len() ==> #[trigger] query_neighbors@[i] < self.query.n()
                        && edge_dir(self.qg(), q as int, query_neighbors@[i] as int, direction),
                j <= query_neighbors@.len(),
                forall|i: int|
                    0 <= i < j && self.query.covered(#[trigger] query_neighbors@[i] as int) ==> edge_dir(
                        self.dg(),
                        d as int,
                        self.query.image(query_neighbors@[i] as int),
                        direction,
                    ),
            decreases query_neighbors@.len() - j,
        {
            let neighbor = query_neighbors[j];
            if self.query.is_covered(neighbor) {
                let mapped = self.query.map[neighbor];
                let (source, target) = source_target(d, mapped, direction);
                if !data_graph.contains_edge(source, target) {
                    proof {
                        assert(self.query.covered(neighbor as int));
                        assert(query_neighbors@[j as int] == neighbor);
                        assert(edge_dir(self.qg(), q as int, neighbor as int, direction));
                        assert(!edge_dir(self.dg(), d as int, mapped as int, direction));
                        assert(!self.dir_fits(pair, direction)) by {
                            if self.dir_fits(pair, direction) {
                                assert(self.query.covered(neighbor as int));
                                assert(self.query.image(neighbor as int) == mapped as int);
                            }
                        }
                    }
                    return false;
                }
            }
            j = j + 1;
        }
        proof {
            assert forall|v: int|
                0 <= v < self.query.n() && #[trigger] self.query.covered(v) && edge_dir(
                    self.qg(),
                    q as int,
                    v,
                    direction,
                ) implies edge_dir(self.dg(), d as int, self.query.image(v), direction) by {
                assert(query_neighbors@.contains(v as usize));
                let i = choose|i: int| 0 <= i < query_neighbors@.len() && query_neighbors@[i] == v as usize;
                assert(self.query.covered(query_neighbors@[i] as int));
            }
        }
        if !self.induced {
            return true;
        }
        let data_neighbors = data_graph.neighbors(d, direction);
        let mut j: usize = 0;
        while j < data_neighbors.len()
            invariant
                self.inv(),
                self.induced,
                query_graph == self.query.graph,
                data_graph == self.data.graph,
                q == pair.query_node,
                d == pair.data_node,
                q < self.query.n(),
                d < self.data.n(),
                data_neighbors@ == data_graph.neighbors_of(d as int, direction),
                forall|i: int|
                    0 <= i < data_neighbors@.len() ==> #[trigger] data_neighbors@[i] < self.data.n()
                        && edge_dir(self.dg(), d as int, data_neighbors@[i] as int, direction),
                j <= data_neighbors@.len(),
                forall|i: int|
                    0 <= i < j && self.data.covered(#[trigger] data_neighbors@[i] as int) ==> edge_dir(
                        self.qg(),
                        q as int,
                        self.data.map@[data_neighbors@[i] as int] as int,
                        direction,
                    ),
                forall|v: int|
                    0 <= v < self.query.n() && #[trigger] self.query.covered(v) && edge_dir(
                        self.qg(),
                        q as int,
                        v,
                        direction,
                    ) ==> edge_dir(self.dg(), d as int, self.query.image(v), direction),
            decreases data_neighbors@.len() - j,
        {
            let neighbor = data_neighbors[j];
            if self.data.is_covered(neighbor) {
                let mapped = self.data.map[neighbor];
                let (source, target) = source_target(q, mapped, direction);
                if !query_graph.contains_edge(source, target) {
                    proof {
                        assert(data_neighbors@[j as int] == neighbor);
                        assert(self.data.covered(neighbor as int));
                        assert(self.query.covered(mapped as int));
                        assert(self.query.image(mapped as int) == neighbor);
                        assert(edge_dir(self.dg(), d as int, neighbor as int, direction));
                        assert(!edge_dir(self.qg(), q as int, mapped as int, direction));
                        assert(!self.dir_fits(pair, direction)) by {
                            if self.dir_fits(pair, direction) {
                                assert(self.query.covered(mapped as int));
                            }
                        }
                    }
                    return false;
                }
            }
            j = j + 1;
        }
        proof {
            assert forall|v: int|
                0 <= v < self.query.n() && #[trigger] self.query.covered(v) && edge_dir(
                    self.dg(),
                    d as int,
                    self.query.image(v),
                    direction,
                ) implies edge_dir(self.qg(), q as int, v, direction) by {
                let x = self.query.image(v);
                assert(data_neighbors@.contains(x as usize));
                let i = choose|i: int| 0 <= i < data_neighbors@.len() && data_neighbors@[i] == x as usize;
                assert(self.data.covered(data_neighbors@[i] as int));
            }
        }
        true
    }

    /// Returns `true` if the in rule holds; the search is complete without it.
    pub fn rule_in(&self, _pair: Pair) -> (r: bool)
        ensures
            r,
    {
        true
    }

    /// Returns `true` if the out rule holds; the search is complete without it.
    pub fn rule_out(&self, _pair: Pair) -> (r: bool)
        ensures
            r,
    {
        true
    }

    /// Returns `true` if the new rule holds; the search is complete without it.
    pub fn rule_new(&self, _pair: Pair) -> (r: bool)
        ensures
            r,
    {
        true
    }

    /// Returns `true` if covering `pair` keeps the graph structures consistent.
    pub fn feasible_syntactic(&self, pair: Pair) -> (r: bool)
        requires
            self.inv(),
            pair.query_node < self.query.n(),
            pair.data_node < self.data.n(),
        ensures
            r == (self.dir_fits(pair, Direction::Outgoing) && (self.qg().spec_directed()
                ==> self.dir_fits(pair, Direction::Incoming))),
    {
        let consistent = if self.is_directed() {
            self.rule_neighbors(pair, Direction::Incoming) && self.rule_neighbors(
                pair,
                Direction::Outgoing,
            )
        } else {
            // Undirected neighbour lists hold all neighbours.
            self.rule_neighbors(pair, Direction::Outgoing)
        };
        consistent && self.rule_in(pair) && self.rule_out(pair) && self.rule_new(pair)
    }

    /// Returns `true` if the node labels of `pair` pass the node equality test.
    pub fn nodes_are_eq(&self, pair: Pair) -> (r: bool)
        requires
            self.inv(),
            pair.query_node < self.query.n(),
            pair.data_node < self.data.n(),
        ensures
            r ==> self.node_fits(pair),
            self.node_eq is None ==> r,
            self.node_eq matches Some(p) && p.decisive() ==> r == self.node_fits(pair),
    {
        match &self.node_eq {
            None => true,
            Some(node_eq) => node_eq.label_eq(
                self.query.node_label(pair.query_node),
                self.data.node_label(pair.data_node),
            ),
        }
    }

    /// Returns `true` if the labels of the edges between `pair` and the covered nodes,
    /// in `direction`, pass the edge equality test.
    pub fn edges_are_eq(&self, pair: Pair, direction: Direction) -> (r: bool)
        requires
            self.inv(),
            pair.query_node < self.query.n(),
            pair.data_node < self.data.n(),
            self.edge_eq is Some ==> self.edges_mapped(pair, direction),
        ensures
            r ==> self.dir_labels_fit(pair, direction),
            self.edge_eq is None ==> r,
            self.edge_eq matches Some(p) && p.decisive() ==> r == self.dir_labels_fit(
                pair,
                direction,
            ),
    {
        let edge_eq = match &self.edge_eq {
            None => return true,
            Some(edge_eq) => edge_eq,
        };
        let query_graph = self.query.graph;
        let q = pair.query_node;
        let d = pair.data_node;
        let query_neighbors = query_graph.neighbors(q, direction);
        proof {
            query_graph.lemma_neighbors(q as int, direction);
        }
        let mut j: usize = 0;
        while j < query_neighbors.len()
            invariant
                self.inv(),
                self.edges_mapped(pair, direction),
                self.edge_eq == Some(*edge_eq),
                query_graph == self.query.graph,
                q == pair.query_node,
                d == pair.data_node,
                q < self.query.n(),
                d < self.data.n(),
                query_neighbors@ == query_graph.neighbors_of(q as int, direction),
                forall|i: int|
                    0 <= i < query_neighbors@.len() ==> {
                        &&& (#[trigger] query_neighbors@[i]) < self.query.n()
                        &&& edge_dir(self.qg(), q as int, query_neighbors@[i] as int, direction)
                    },
                j <= query_neighbors@.len(),
                forall|i: int|
                    0 <= i < j && self.query.covered(#[trigger] query_neighbors@[i] as int)
                        ==> edge_eq.accepts(
                        label_dir(self.qg(), q as int, query_neighbors@[i] as int, direction),
                        label_dir(
                            self.dg(),
                            d as int,
                            self.query.image(query_neighbors@[i] as int),
                            direction,
                        ),
                    ),
            decreases query_neighbors@.len() - j,
        {
            let neighbor = query_neighbors[j];
            if self.query.is_covered(neighbor) {
                let (query_source, query_target) = source_target(q, neighbor, direction);
                let mapped = self.query.map[neighbor];
                let (data_source, data_target) = source_target(d, mapped, direction);
                proof {
                    assert(self.query.covered(neighbor as int));
                }
                if !edge_eq.label_eq(
                    self.query.edge_label(query_source, query_target),
                    self.data.edge_label(data_source, data_target),
                ) {
                    proof {
                        assert(query_neighbors@[j as int] == neighbor);
                    }
                    return false;
                }
            }
            j = j + 1;
        }
        proof {
            assert forall|v: int|
                0 <= v < self.query.n() && #[trigger] self.query.covered(v) && edge_dir(
                    self.qg(),
                    q as int,
                    v,
                    direction,
                ) implies (self.edge_eq matches Some(p) ==> p.accepts(
                label_dir(self.qg(), q as int, v, direction),
                label_dir(self.dg(), d as int, self.query.image(v), direction),
            )) by {
                assert(query_neighbors@.contains(v as usize));
                let i = choose|i: int| 0 <= i < query_neighbors@.len() && query_neighbors@[i] == v as usize;
                assert(self.query.covered(query_neighbors@[i] as int));
            }
        }
        true
    }

    /// Returns `true` if the labels of `pair` and of its edges to the covered nodes
    /// pass the equality tests.
    pub fn feasible_semantic(&self, pair: Pair) -> (r: bool)
        requires
            self.inv(),
            pair.query_node < self.query.n(),
            pair.data_node < self.data.n(),
            self.edge_eq is Some ==> self.edges_mapped(pair, Direction::Outgoing),
            self.edge_eq is Some && self.qg().spec_directed() ==> self.edges_mapped(
                pair,
                Direction::Incoming,
            ),
        ensures
            r ==> self.node_fits(pair),
            r ==> self.dir_labels_fit(pair, Direction::Outgoing),
            r && self.qg().spec_directed() ==> self.dir_labels_fit(pair, Direction::Incoming),
            self.decisive() ==> r == (self.node_fits(pair) && self.dir_labels_fit(
                pair,
                Direction::Outgoing,
            ) && (self.qg().spec_directed() ==> self.dir_labels_fit(pair, Direction::Incoming))),
            self.node_eq is None && self.edge_eq is None ==> r,
    {
        self.nodes_are_eq(pair) && if self.is_directed() {
            self.edges_are_eq(pair, Direction::Incoming) && self.edges_are_eq(
                pair,
                Direction::Outgoing,
            )
        } else {
            // Undirected neighbour lists hold all neighbours.
            self.edges_are_eq(pair, Direction::Outgoing)
        }
    }

    /// For undirected graphs, the outgoing checks cover the incoming ones.
    proof fn lemma_undirected_fits(&self, pair: Pair)
        requires
            self.inv(),
            !self.qg().spec_directed(),
            !self.dg().spec_directed(),
            self.dir_fits(pair, Direction::Outgoing),
        ensures
            self.dir_fits(pair, Direction::Incoming),
            self.dir_labels_fit(pair, Direction::Outgoing) ==> self.dir_labels_fit(
                pair,
                Direction::Incoming,
            ),
    {
        self.qg().lemma_edges();
        self.dg().lemma_edges();
        let q = pair.query_node as int;
        let d = pair.data_node as int;
        assert forall|v: int| 0 <= v < self.query.n() && #[trigger] self.query.covered(v) implies {
            &&& edge_dir(self.qg(), q, v, Direction::Incoming) ==> edge_dir(
                self.dg(),
                d,
                self.query.image(v),
                Direction::Incoming,
            )
            &&& self.induced && edge_dir(self.dg(), d, self.query.image(v), Direction::Incoming)
                ==> edge_dir(self.qg(), q, v, Direction::Incoming)
        } by {
            if self.qg().has_edge(v, q) {
                assert(self.qg().has_edge(q, v));
            }
            if self.dg().has_edge(self.query.image(v), d) {
                assert(self.dg().has_edge(d, self.query.image(v)));
            }
            if self.qg().has_edge(q, v) {
                assert(self.qg().has_edge(v, q));
            }
            if self.dg().has_edge(d, self.query.image(v)) {
                assert(self.dg().has_edge(self.query.image(v), d));
            }
        }
        if self.dir_labels_fit(pair, Direction::Outgoing) {
            assert forall|v: int|
                0 <= v < self.query.n() && #[trigger] self.query.covered(v) && edge_dir(
                    self.qg(),
                    q,
                    v,
                    Direction::Incoming,
                ) implies (self.edge_eq matches Some(p) ==> p.accepts(
                label_dir(self.qg(), q, v, Direction::Incoming),
                label_dir(self.dg(), d, self.query.image(v), Direction::Incoming),
            )) by {
                assert(self.qg().has_edge(q, v));
                assert(self.qg().edge_label_of(v, q) == self.qg().edge_label_of(q, v));
                assert(self.dg().edge_label_of(self.query.image(v), d) == self.dg().edge_label_of(
                    d,
                    self.query.image(v),
                ));
            }
        }
    }

    /// Returns `true` if covering `pair` keeps the partial map consistent.
    pub fn feasible(&self, pair: Pair) -> (r: bool)
        requires
            self.inv(),
            pair.query_node < self.query.n(),
            pair.data_node < self.data.n(),
        ensures
            r ==> self.pair_fits(pair),
            self.decisive() && self.same_kind() && self.pair_fits(pair) ==> r,
    {
        let r = self.feasible_syntactic(pair) && self.feasible_semantic(pair);
        proof {
            if r && self.same_kind() && !self.qg().spec_directed() {
                self.lemma_undirected_fits(pair);
            }
        }
        r
    }

    /// Covers `pair` one depth down.
    pub fn push(&mut self, pair: Pair)
        requires
            old(self).inv(),
            old(self).depth < old(self).query.n(),
            pair.query_node < old(self).query.n(),
            !old(self).query.covered(pair.query_node as int),
            pair.data_node < old(self).data.n(),
            !old(self).data.covered(pair.data_node as int),
            old(self).pair_fits(pair),
            old(self).previous == Some(pair),
        ensures
            final(self).inv(),
            final(self).same_search(old(self)),
            final(self).depth == old(self).depth + 1,
            final(self).previous is None,
            final(self).data.node_stack@ == old(self).data.node_stack@.update(
                old(self).depth as int,
                pair.data_node,
            ),
            final(self).query.node_stack@ == old(self).query.node_stack@.update(
                old(self).depth as int,
                pair.query_node,
            ),
            final(self).query.n() == old(self).query.n(),
            final(self).data.n() == old(self).data.n(),
    {
        let ghost before = *self;
        let q = pair.query_node;
        let d = pair.data_node;
        self.depth = self.depth + 1;
        self.previous = None;
        self.query.push(q, d, self.depth);
        self.data.push(d, q, self.depth);
        proof {
            let qn = self.query.n();
            let dn = self.data.n();
            assert forall|u: int|
                0 <= u < qn && #[trigger] self.query.covered(u) implies self.query.image(u) < dn
                && self.data.map@[self.query.image(u)] == u by {
                if u != q {
                    assert(before.query.covered(u));
                }
            }
            assert forall|x: int|
                0 <= x < dn && #[trigger] self.data.covered(x) implies self.data.map@[x] < qn
                && self.query.map@[self.data.map@[x] as int] == x by {
                if x != d {
                    assert(before.data.covered(x));
                }
            }
            assert forall|i: int| 0 <= i < self.depth implies self.query.map@[#[trigger] self.query.node_stack@[i] as int]
                == self.data.node_stack@[i] by {
                if i < before.depth {
                    assert(before.query.covered(before.query.node_stack@[i] as int));
                }
            }
            self.lemma_push_consistent(&before, pair);
            assert forall|k: int| 0 <= k < self.depth implies self.query.in_source_at(
                k as nat,
                self.source_stack@[k],
                #[trigger] self.query.node_stack@[k] as int,
            ) by {
                let x = self.query.node_stack@[k] as int;
                before.query.lemma_push_views(
                    &self.query,
                    q,
                    self.depth,
                    k as nat,
                    self.source_stack@[k],
                    x,
                );
                if k == before.depth {
                    before.query.lemma_view_current(before.depth as nat, self.source_stack@[k], x);
                } else {
                    assert(x == before.query.node_stack@[k]);
                }
            }
            assert forall|k: int| 0 <= k < self.depth implies #[trigger] self.follows_order(k) by {
                if k < before.depth {
                    before.lemma_order_frame(self, k);
                } else {
                    reveal(State::follows_order);
                    assert(self.query.node_stack@.subrange(0, k) =~= before.query.node_stack@.subrange(
                        0,
                        k,
                    ));
                    assert(self.data.node_stack@.subrange(0, k) =~= before.data.node_stack@.subrange(
                        0,
                        k,
                    ));
                }
            }
        }
    }

    proof fn lemma_push_consistent(&self, before: &Self, pair: Pair)
        requires
            before.inv(),
            before.pair_fits(pair),
            pair.query_node < before.query.n(),
            !before.query.covered(pair.query_node as int),
            self.same_search(before),
            self.query.map@ == before.query.map@.update(
                pair.query_node as int,
                pair.data_node,
            ),
            self.query.n() == before.query.n(),
            pair.data_node != NOT_IN_MAP,
        ensures
            self.consistent(),
    {
        let q = pair.query_node as int;
        let d = pair.data_node as int;
        let qn = self.query.n();
        assert forall|u: int| 0 <= u < qn && u != q implies #[trigger] self.query.covered(u)
            == before.query.covered(u) && self.query.image(u) == before.query.image(u) by {}
        assert(self.query.image(q) == d);
        if self.same_kind() {
            assert forall|u: int, v: int|
                0 <= u < qn && 0 <= v < qn && u != v && self.query.covered(u) && self.query.covered(v)
                    && #[trigger] self.qg().has_edge(u, v) implies self.dg().has_edge(
                self.query.image(u),
                self.query.image(v),
            ) by {
                if u == q {
                    assert(before.query.covered(v));
                    assert(edge_dir(before.qg(), q, v, Direction::Outgoing));
                } else if v == q {
                    assert(before.query.covered(u));
                    assert(edge_dir(before.qg(), q, u, Direction::Incoming));
                } else {
                    assert(before.query.covered(u) && before.query.covered(v));
                    assert(before.qg().has_edge(u, v));
                }
            }
            if self.induced {
                assert forall|u: int, v: int|
                    0 <= u < qn && 0 <= v < qn && u != v && self.query.covered(u)
                        && self.query.covered(v) && #[trigger] self.dg().has_edge(
                        self.query.image(u),
                        self.query.image(v),
                    ) implies self.qg().has_edge(u, v) by {
                    if u == q {
                        assert(before.query.covered(v));
                        assert(edge_dir(before.dg(), d, before.query.image(v), Direction::Outgoing));
                    } else if v == q {
                        assert(before.query.covered(u));
                        assert(edge_dir(before.dg(), d, before.query.image(u), Direction::Incoming));
                    } else {
                        assert(before.query.covered(u) && before.query.covered(v));
                        assert(before.dg().has_edge(before.query.image(u), before.query.image(v)));
                    }
                }
            }
            if let Some(p) = self.edge_eq {
                assert forall|u: int, v: int|
                    0 <= u < qn && 0 <= v < qn && u != v && self.query.covered(u)
                        && self.query.covered(v) && #[trigger] self.qg().has_edge(u, v) implies p.accepts(
                    self.qg().edge_label_of(u, v),
                    self.dg().edge_label_of(self.query.image(u), self.query.image(v)),
                ) by {
                    if u == q {
                        assert(before.query.covered(v));
                        assert(edge_dir(before.qg(), q, v, Direction::Outgoing));
                    } else if v == q {
                        assert(before.query.covered(u));
                        assert(edge_dir(before.qg(), q, u, Direction::Incoming));
                    } else {
                        assert(before.query.covered(u) && before.query.covered(v));
                        assert(before.qg().has_edge(u, v));
                    }
                }
            }
        }
        if let Some(p) = self.node_eq {
            assert forall|u: int| 0 <= u < qn && #[trigger] self.query.covered(u) implies p.accepts(
                self.qg().spec_node_label(u),
                self.dg().spec_node_label(self.query.image(u)),
            ) by {
                if u != q {
                    assert(before.query.covered(u));
                }
            }
        }
    }

    /// Uncovers the pair covered at the current depth and makes it the last pair
    /// tried one depth up.
    pub fn pop(&mut self)
        requires
            old(self).inv(),
            old(self).depth > 0,
        ensures
            final(self).inv(),
            final(self).same_search(old(self)),
            final(self).depth == old(self).depth - 1,
            final(self).data.node_stack == old(self).data.node_stack,
            final(self).query.node_stack == old(self).query.node_stack,
            final(self).previous == Some(
                Pair {
                    query_node: old(self).query.node_stack@[old(self).depth - 1],
                    data_node: old(self).data.node_stack@[old(self).depth - 1],
                },
            ),
            final(self).query.n() == old(self).query.n(),
            final(self).data.n() == old(self).data.n(),
    {
        let ghost before = *self;
        let query_node = self.query.pop(self.depth);
        let data_node = self.data.pop(self.depth);
        self.previous = Some(Pair { query_node, data_node });
        self.depth = self.depth - 1;
        proof {
            let qn = self.query.n();
            let dn = self.data.n();
            let k = before.depth - 1;
            assert(before.query.covered(query_node as int));
            assert(before.query.map@[query_node as int] == data_node);
            assert forall|u: int| 0 <= u < qn && u != query_node implies #[trigger] self.query.covered(u)
                == before.query.covered(u) && self.query.image(u) == before.query.image(u) by {}
            assert forall|u: int|
                0 <= u < qn && #[trigger] self.query.covered(u) implies self.query.image(u) < dn
                && self.data.map@[self.query.image(u)] == u by {
                assert(before.query.covered(u));
            }
            assert forall|x: int|
                0 <= x < dn && #[trigger] self.data.covered(x) implies self.data.map@[x] < qn
                && self.query.map@[self.data.map@[x] as int] == x by {
                assert(before.data.covered(x));
            }
            assert forall|i: int| 0 <= i < self.depth implies self.query.map@[#[trigger] self.query.node_stack@[i] as int]
                == self.data.node_stack@[i] by {
                assert(before.query.node_stack@[i] != before.query.node_stack@[k]);
            }
            if self.node_eq is Some {
                assert(self.node_eq == before.node_eq);
            }
            assert forall|k: int| 0 <= k < self.depth implies #[trigger] self.follows_order(k) by {
                before.lemma_order_frame(self, k);
            }
            assert(before.follows_order(k));
            reveal(State::follows_order);
            assert(self.query.node_stack@.subrange(0, k) =~= before.query.node_stack@.subrange(0, k));
            assert(self.data.node_stack@.subrange(0, k) =~= before.data.node_stack@.subrange(0, k));
        }
    }

    /// Advances the search one step. Returns `true` if the map is complete or the
    /// search is over.
    pub fn step(&mut self) -> (r: bool)
        requires
            old(self).inv(),
        ensures
            final(self).inv(),
            final(self).same_search(old(self)),
            final(self).query.n() == old(self).query.n(),
            final(self).data.n() == old(self).data.n(),
            !r || final(self).depth == final(self).query.n() ==> final(self).measure() < old(
                self,
            ).measure(),
            final(self).measure() <= old(self).measure(),
            old(self).exhausted() ==> r && *final(self) == *old(self),
            r && final(self).depth != final(self).query.n() ==> final(self).exhausted(),
            !old(self).no_candidate() ==> {
                ||| {
                    &&& final(self).depth == old(self).depth + 1
                    &&& final(self).previous is None
                    &&& final(self).query.node_stack@ == old(self).query.node_stack@.update(
                        old(self).depth as int,
                        final(self).query.node_stack@[old(self).depth as int],
                    )
                    &&& final(self).data.node_stack@ == old(self).data.node_stack@.update(
                        old(self).depth as int,
                        final(self).data.node_stack@[old(self).depth as int],
                    )
                    &&& final(self).query.node_stack@[old(self).depth as int] as int == old(
                        self,
                    ).next_query_at(old(self).depth as int)
                }
                ||| {
                    &&& final(self).depth == old(self).depth
                    &&& final(self).query == old(self).query
                    &&& final(self).data == old(self).data
                    &&& final(self).previous matches Some(p) && p.query_node as int == old(
                        self,
                    ).next_query_at(old(self).depth as int) && (old(self).previous matches Some(
                        prev,
                    ) ==> prev.data_node < p.data_node)
                }
            },
            old(self).no_candidate() && old(self).depth > 0 ==> {
                &&& final(self).depth == old(self).depth - 1
                &&& final(self).query.node_stack == old(self).query.node_stack
                &&& final(self).data.node_stack == old(self).data.node_stack
                &&& final(self).previous == Some(
                    Pair {
                        query_node: old(self).query.node_stack@[old(self).depth - 1],
                        data_node: old(self).data.node_stack@[old(self).depth - 1],
                    },
                )
                &&& !r
            },
            old(self).no_candidate() && old(self).depth == 0 ==> r && *final(self) == *old(self),
            !r ==> final(self).depth != final(self).query.n(),
            old(self).same_kind() && old(self).decisive() ==> forall|m: Seq<NodeIndex>|
                old(self).solution(m) && old(self).ahead(m) ==> final(self).ahead(m) || (
                final(self).depth == final(self).query.n() && m == final(self).query.map@),
            forall|m: Seq<NodeIndex>| #[trigger] final(self).ahead(m) ==> old(self).ahead(m),
            final(self).depth == final(self).query.n() ==> old(self).ahead(final(self).query.map@),
    {
        let ghost before = *self;
        if let Some(pair) = self.next_pair() {
            let ghost chosen = *self;
            self.previous = Some(pair);
            proof {
                assert forall|k: int| 0 <= k < self.depth implies #[trigger] self.follows_order(k) by {
                    chosen.lemma_order_frame(self, k);
                }
            }
            let ghost mid = *self;
            let pushed = self.feasible(pair);
            if pushed {
                self.push(pair);
            }
            proof {
                if before.same_kind() && before.decisive() {
                    assert forall|m: Seq<NodeIndex>|
                        before.solution(m) && before.ahead(m) implies self.ahead(m) || (self.depth
                        == self.query.n() && m == self.query.map@) by {
                        before.lemma_try_keeps_ahead(&mid, self, pair, pushed, m);
                    }
                }
                assert forall|m: Seq<NodeIndex>| #[trigger] self.ahead(m) implies before.ahead(m) by {
                    before.lemma_try_adds_nothing(self, pair, pushed, m);
                }
                if self.depth == self.query.n() {
                    before.lemma_try_adds_nothing(self, pair, pushed, self.query.map@);
                }
            }
            proof {
                let k = before.depth as int;
                assert forall|j: int| 0 <= j < k implies before.key()[j] == self.key()[j] by {}
                before.lemma_measure_falls(self, k);
            }
            self.all_covered()
        } else if self.depth > 0 {
            self.pop();
            proof {
                if before.same_kind() && before.decisive() {
                    assert forall|m: Seq<NodeIndex>|
                        before.solution(m) && before.ahead(m) implies self.ahead(m) by {
                        before.lemma_pop_keeps_ahead(self, m);
                    }
                }
                assert forall|m: Seq<NodeIndex>| #[trigger] self.ahead(m) implies before.ahead(m) by {
                    let qs = before.query.node_stack@;
                    let ds = before.data.node_stack@;
                    let d = before.depth as int;
                    if exists|i: int| 0 <= i < d - 1 && #[trigger] diverges_at(qs, ds, m, i) {
                        let i = choose|i: int| 0 <= i < d - 1 && #[trigger] diverges_at(qs, ds, m, i);
                        assert(diverges_at(qs, ds, m, i));
                    } else {
                        assert(diverges_at(qs, ds, m, d - 1));
                    }
                }
            }
            proof {
                let k = before.depth - 1;
                assert forall|j: int| 0 <= j < k implies before.key()[j] == self.key()[j] by {}
                before.lemma_measure_falls(self, k);
            }
            false
        } else {
            proof {
                assert(self.key() =~= before.key());
            }
            true
        }
    }

    /// With every query node covered, the query map is a match.
    pub proof fn lemma_complete(&self)
        requires
            self.inv(),
            self.depth == self.query.n(),
        ensures
            is_match(
                self.qg(),
                self.dg(),
                self.induced,
                self.node_eq,
                self.edge_eq,
                self.query.map@,
            ),
            self.measure() >= 0,
    {
        let qn = self.query.n();
        let dn = self.data.n();
        let m = self.query.map@;
        self.lemma_key_digits();
        lemma_count_full(qn, covered_in(m));
        assert forall|u: int| 0 <= u < qn implies #[trigger] self.query.covered(u) by {
            assert(covered_in(m)(u));
        }
        assert forall|u: int, v: int| 0 <= u < m.len() && 0 <= v < m.len() && u != v implies #[trigger] m[u] != #[trigger] m[v] by {
            assert(self.query.covered(u) && self.query.covered(v));
        }
        assert forall|u: int| 0 <= u < m.len() implies #[trigger] m[u] < dn by {
            assert(self.query.covered(u));
        }
        if qn == dn {
            lemma_count_full(dn, covered_in(self.data.map@));
            assert forall|y: int| 0 <= y < dn implies #[trigger] has_preimage(m, y) by {
                assert(covered_in(self.data.map@)(y));
                assert(self.data.covered(y));
                let u = self.data.map@[y] as int;
                assert(m[u] == y);
            }
            assert(is_onto(m, dn));
        }
        if self.same_kind() {
            assert forall|u: int, v: int|
                0 <= u < m.len() && 0 <= v < m.len() && u != v && #[trigger] self.qg().has_edge(u, v)
                    implies self.dg().has_edge(m[u] as int, m[v] as int) by {
                assert(self.query.covered(u) && self.query.covered(v));
            }
            if self.induced {
                assert forall|u: int, v: int|
                    0 <= u < m.len() && 0 <= v < m.len() && u != v && #[trigger] self.dg().has_edge(
                        m[u] as int,
                        m[v] as int,
                    ) implies self.qg().has_edge(u, v) by {
                    assert(self.query.covered(u) && self.query.covered(v));
                    assert(self.dg().has_edge(self.query.image(u), self.query.image(v)));
                }
            }
            if let Some(p) = self.edge_eq {
                assert forall|u: int, v: int|
                    0 <= u < m.len() && 0 <= v < m.len() && u != v && #[trigger] self.qg().has_edge(
                        u,
                        v,
                    ) implies p.accepts(
                    self.qg().edge_label_of(u, v),
                    self.dg().edge_label_of(m[u] as int, m[v] as int),
                ) by {
                    assert(self.query.covered(u) && self.query.covered(v));
                }
            }
        }
        if let Some(p) = self.node_eq {
            assert forall|u: int| 0 <= u < m.len() implies p.accepts(
                self.qg().spec_node_label(u),
                self.dg().spec_node_label(#[trigger] m[u] as int),
            ) by {
                assert(self.query.covered(u));
            }
        }
    }

    /// Returns the query partial map.
    pub fn into_query_map(self) -> (r: Vec<NodeIndex>)
        ensures
            r@ == self.query.map@,
    {
        self.query.map
    }
}

} // verus!
