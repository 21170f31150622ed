use vstd::prelude::*;
use crate::graph::Graph;
use crate::graph_state::NOT_IN_MAP;
use crate::isomorphism::{is_injective, is_match, is_onto, maps_into, Isomorphism};
use crate::iter::IsomorphismIter;
use crate::labels::{EqFn, LabelEq, NativeEq};
use crate::order::{lemma_search_before_asymmetric, search_before};

verus! {

/// Problem type.
#[derive(Copy, Clone, Debug, Eq, PartialEq, Structural)]
pub enum Problem {
    /// Graph isomorphism.
    Isomorphism,
    /// Subgraph isomorphism.
    SubgraphIsomorphism,
    /// Induced subgraph isomorphism.
    InducedSubgraphIsomorphism,
}

/// Whether matches for `problem` must be induced.
pub open spec fn is_induced(problem: Problem) -> bool {
    problem != Problem::SubgraphIsomorphism
}

/// Creates a new [`Vf2ppBuilder`] to find isomorphisms from `query` to `data`.
///
/// Node and edge labels are not compared unless an equality test is set.
pub fn isomorphisms<'a>(query: &'a Graph, data: &'a Graph) -> (r: DefaultVf2ppBuilder<'a>)
    ensures
        r.problem() == Problem::Isomorphism,
        r.query() == *query,
        r.data() == *data,
        r.node_test() is None,
        r.edge_test() is None,
{
    DefaultVf2ppBuilder::new(Problem::Isomorphism, query, data)
}

/// Creates a new [`Vf2ppBuilder`] to find subgraph isomorphisms from `query` to `data`.
///
/// Node and edge labels are not compared unless an equality test is set.
pub fn subgraph_isomorphisms<'a>(query: &'a Graph, data: &'a Graph) -> (r: DefaultVf2ppBuilder<
    'a,
>)
    ensures
        r.problem() == Problem::SubgraphIsomorphism,
        r.query() == *query,
        r.data() == *data,
        r.node_test() is None,
        r.edge_test() is None,
{
    DefaultVf2ppBuilder::new(Problem::SubgraphIsomorphism, query, data)
}

/// Creates a new [`Vf2ppBuilder`] to find induced subgraph isomorphisms from `query`
/// to `data`.
///
/// Node and edge labels are not compared unless an equality test is set.
pub fn induced_subgraph_isomorphisms<'a>(query: &'a Graph, data: &'a Graph) -> (r:
    DefaultVf2ppBuilder<'a>)
    ensures
        r.problem() == Problem::InducedSubgraphIsomorphism,
        r.query() == *query,
        r.data() == *data,
        r.node_test() is None,
        r.edge_test() is None,
{
    DefaultVf2ppBuilder::new(Problem::InducedSubgraphIsomorphism, query, data)
}

/// A VF2++ builder: the problem, the two graphs and the label equality tests.
#[derive(Clone, Copy, Debug)]
pub struct Vf2ppBuilder<'a, NodeEq, EdgeEq> {
    problem: Problem,
    query: &'a Graph,
    data: &'a Graph,
    node_eq: Option<NodeEq>,
    edge_eq: Option<EdgeEq>,
}

/// The builder that the entry points return: no label test is set, and
/// [`Vf2ppBuilder::default_eq`] sets the labels' own equality.
pub type DefaultVf2ppBuilder<'a> = Vf2ppBuilder<'a, NativeEq, NativeEq>;

impl<'a> Vf2ppBuilder<'a, NativeEq, NativeEq> {
    /// Creates a builder that does not compare labels.
    fn new(problem: Problem, query: &'a Graph, data: &'a Graph) -> (r: Self)
        ensures
            r.problem() == problem,
            r.query() == *query,
            r.data() == *data,
            r.node_test() is None,
            r.edge_test() is None,
    {
        Vf2ppBuilder { problem, query, data, node_eq: None, edge_eq: None }
    }
}

impl<'a, NodeEq: LabelEq, EdgeEq: LabelEq> Vf2ppBuilder<'a, NodeEq, EdgeEq> {
    pub closed spec fn problem(&self) -> Problem {
        self.problem
    }

    pub closed spec fn query(&self) -> Graph {
        *self.query
    }

    pub closed spec fn data(&self) -> Graph {
        *self.data
    }

    pub closed spec fn node_test(&self) -> Option<NodeEq> {
        self.node_eq
    }

    pub closed spec fn edge_test(&self) -> Option<EdgeEq> {
        self.edge_eq
    }

    /// The search may start: the graphs are well formed and of one kind (both directed
    /// or both undirected), the query is nonempty and no larger than the data graph (of
    /// the same size for `Isomorphism`), the data graph stays below the reserved index,
    /// and the label tests accept any labels.
    pub open spec fn valid(&self) -> bool {
        &&& self.query().wf()
        &&& self.data().wf()
        &&& self.query().spec_directed() == self.data().spec_directed()
        &&& 0 < self.query().spec_node_count() <= self.data().spec_node_count()
        &&& self.data().spec_node_count() < NOT_IN_MAP
        &&& self.problem() == Problem::Isomorphism ==> self.query().spec_node_count()
            == self.data().spec_node_count()
        &&& self.node_test() matches Some(p) ==> p.ready()
        &&& self.edge_test() matches Some(p) ==> p.ready()
    }

    /// Every match is found: each label test that is set gives one answer per pair of
    /// labels.
    pub open spec fn exhaustive(&self) -> bool {
        &&& self.node_test() matches Some(p) ==> p.decisive()
        &&& self.edge_test() matches Some(p) ==> p.decisive()
    }

    /// The search reaches `m1` before `m2`.
    pub open spec fn comes_before(&self, m1: Seq<usize>, m2: Seq<usize>) -> bool {
        search_before(self.query(), self.data(), m1, m2)
    }

    /// `m` is a match for this builder's problem.
    pub open spec fn is_result(&self, m: Seq<usize>) -> bool {
        is_match(
            self.query(),
            self.data(),
            is_induced(self.problem()),
            self.node_test(),
            self.edge_test(),
            m,
        )
    }

    /// For the `Isomorphism` problem, every result is a bijection from the query nodes
    /// onto the data nodes.
    pub proof fn lemma_isomorphism_is_bijection(&self, m: Seq<usize>)
        requires
            self.valid(),
            self.problem() == Problem::Isomorphism,
            self.is_result(m),
        ensures
            maps_into(m, self.query().spec_node_count(), self.data().spec_node_count()),
            is_injective(m),
            is_onto(m, self.data().spec_node_count()),
    {
    }

    /// `first` and `vec` agree: a match that comes before every other match (what
    /// `first` returns on an exhaustive search) heads every list of all the matches in
    /// search order (what `vec` returns).
    pub proof fn lemma_first_heads_vec(&self, x: Seq<usize>, all: Seq<Seq<usize>>)
        requires
            self.is_result(x),
            forall|m: Seq<usize>| #[trigger] self.is_result(m) && m != x ==> self.comes_before(x, m),
            forall|m: Seq<usize>|
                #[trigger] self.is_result(m) ==> exists|i: int| 0 <= i < all.len() && all[i] == m,
            forall|i: int| 0 <= i < all.len() ==> self.is_result(#[trigger] all[i]),
            forall|i: int, j: int|
                0 <= i < j < all.len() ==> self.comes_before(#[trigger] all[i], #[trigger] all[j]),
        ensures
            all.len() > 0,
            all[0] == x,
    {
        let j = choose|j: int| 0 <= j < all.len() && all[j] == x;
        if j > 0 {
            assert(self.comes_before(all[0], all[j]));
            if all[0] == x {
                lemma_search_before_asymmetric(self.query(), self.data(), x, x);
            } else {
                assert(self.is_result(all[0]));
                lemma_search_before_asymmetric(self.query(), self.data(), x, all[0]);
            }
        }
    }

    /// Two lists that hold the same maps, each in search order, are the same list: the
    /// search order fixes the sequence of results.
    pub proof fn lemma_search_order_fixes_list(&self, a: Seq<Seq<usize>>, b: Seq<Seq<usize>>)
        requires
            forall|i: int| 0 <= i < a.len() ==> b.contains(#[trigger] a[i]),
            forall|i: int| 0 <= i < b.len() ==> a.contains(#[trigger] b[i]),
            forall|i: int, j: int|
                0 <= i < j < a.len() ==> self.comes_before(#[trigger] a[i], #[trigger] a[j]),
            forall|i: int, j: int|
                0 <= i < j < b.len() ==> self.comes_before(#[trigger] b[i], #[trigger] b[j]),
        ensures
            a == b,
        decreases a.len(),
    {
        if a.len() == 0 {
            if b.len() > 0 {
                assert(a.contains(b[0]));
            }
            assert(a =~= b);
        } else if b.len() == 0 {
            assert(b.contains(a[0]));
        } else {
            let x = a[0];
            let k = choose|k: int| 0 <= k < b.len() && b[k] == x;
            if k > 0 {
                assert(self.comes_before(b[0], b[k]));
                let m = choose|m: int| 0 <= m < a.len() && a[m] == b[0];
                if m == 0 {
                    lemma_search_before_asymmetric(self.query(), self.data(), x, x);
                } else {
                    assert(self.comes_before(a[0], a[m]));
                    lemma_search_before_asymmetric(self.query(), self.data(), x, b[0]);
                }
            }
            let a1 = a.drop_first();
            let b1 = b.drop_first();
            assert forall|i: int| 0 <= i < a1.len() implies b1.contains(#[trigger] a1[i]) by {
                assert(a1[i] == a[i + 1]);
                assert(self.comes_before(a[0], a[i + 1]));
                let k2 = choose|k2: int| 0 <= k2 < b.len() && b[k2] == a[i + 1];
                if k2 == 0 {
                    lemma_search_before_asymmetric(self.query(), self.data(), x, x);
                }
                assert(b1[k2 - 1] == a1[i]);
            }
            assert forall|i: int| 0 <= i < b1.len() implies a1.contains(#[trigger] b1[i]) by {
                assert(b1[i] == b[i + 1]);
                assert(self.comes_before(b[0], b[i + 1]));
                let k2 = choose|k2: int| 0 <= k2 < a.len() && a[k2] == b[i + 1];
                if k2 == 0 {
                    lemma_search_before_asymmetric(self.query(), self.data(), x, x);
                }
                assert(a1[k2 - 1] == b1[i]);
            }
            assert forall|i: int, j: int| 0 <= i < j < a1.len() implies self.comes_before(
                #[trigger] a1[i],
                #[trigger] a1[j],
            ) by {
                assert(self.comes_before(a[i + 1], a[j + 1]));
            }
            assert forall|i: int, j: int| 0 <= i < j < b1.len() implies self.comes_before(
                #[trigger] b1[i],
                #[trigger] b1[j],
            ) by {
                assert(self.comes_before(b[i + 1], b[j + 1]));
            }
            self.lemma_search_order_fixes_list(a1, b1);
            assert(a =~= b) by {
                assert forall|i: int| 0 <= i < a.len() implies a[i] == b[i] by {
                    if i > 0 {
                        assert(a[i] == a1[i - 1]);
                        assert(b[i] == b1[i - 1]);
                    }
                }
            }
        }
    }

    /// Uses the labels' own equality for node and edge labels.
    pub fn default_eq(self) -> (r: DefaultVf2ppBuilder<'a>)
        ensures
            r.problem() == self.problem(),
            r.query() == self.query(),
            r.data() == self.data(),
            r.node_test() == Some(NativeEq),
            r.edge_test() == Some(NativeEq),
    {
        Vf2ppBuilder {
            problem: self.problem,
            query: self.query,
            data: self.data,
            node_eq: Some(NativeEq),
            edge_eq: Some(NativeEq),
        }
    }

    /// Uses `node_eq` as the node equality test.
    pub fn node_eq<F: Fn(u64, u64) -> bool>(self, node_eq: F) -> (r: Vf2ppBuilder<
        'a,
        EqFn<F>,
        EdgeEq,
    >)
        ensures
            r.problem() == self.problem(),
            r.query() == self.query(),
            r.data() == self.data(),
            r.node_test() == Some(EqFn { f: node_eq }),
            r.edge_test() == self.edge_test(),
    {
        Vf2ppBuilder {
            problem: self.problem,
            query: self.query,
            data: self.data,
            node_eq: Some(EqFn { f: node_eq }),
            edge_eq: self.edge_eq,
        }
    }

    /// Uses `edge_eq` as the edge equality test.
    pub fn edge_eq<F: Fn(u64, u64) -> bool>(self, edge_eq: F) -> (r: Vf2ppBuilder<
        'a,
        NodeEq,
        EqFn<F>,
    >)
        ensures
            r.problem() == self.problem(),
            r.query() == self.query(),
            r.data() == self.data(),
            r.node_test() == self.node_test(),
            r.edge_test() == Some(EqFn { f: edge_eq }),
    {
        Vf2ppBuilder {
            problem: self.problem,
            query: self.query,
            data: self.data,
            node_eq: self.node_eq,
            edge_eq: Some(EqFn { f: edge_eq }),
        }
    }

    /// Returns the first isomorphism from the query graph to the data graph.
    pub fn first(self) -> (r: Option<Isomorphism>)
        requires
            self.valid(),
        ensures
            r matches Some(m) ==> self.is_result(m@),
            self.exhaustive() && r is None ==> forall|m: Seq<usize>| !self.is_result(m),
            self.exhaustive() ==> (r matches Some(x) ==> forall|m: Seq<usize>|
                #[trigger] self.is_result(m) && m != x@ ==> self.comes_before(x@, m)),
    {
        let ghost this = self;
        let iter = self.iter();
        let ghost start = iter;
        let r = iter.into_next();
        proof {
            if this.exhaustive() && r is None {
                assert forall|m: Seq<usize>| !this.is_result(m) by {
                    assert(start.pending(m));
                    if this.is_result(m) {
                        assert(start.is_result(m));
                    }
                }
            }
            if this.exhaustive() && r is Some {
                let x = r.unwrap();
                assert forall|m: Seq<usize>| #[trigger] this.is_result(m) && m != x@ implies this.comes_before(
                    x@,
                    m,
                ) by {
                    assert(start.pending(m));
                    assert(start.is_result(m));
                }
            }
        }
        r
    }

    /// Returns all isomorphisms from the query graph to the data graph.
    pub fn vec(self) -> (r: Vec<Isomorphism>)
        requires
            self.valid(),
        ensures
            forall|i: int| 0 <= i < r@.len() ==> self.is_result(#[trigger] r@[i]@),
            self.exhaustive() ==> forall|m: Seq<usize>|
                self.is_result(m) ==> exists|i: int| 0 <= i < r@.len() && #[trigger] r@[i]@ == m,
            forall|i: int, j: int| 0 <= i < j < r@.len() ==> #[trigger] r@[i]@ != #[trigger] r@[j]@,
            forall|i: int, j: int|
                0 <= i < j < r@.len() ==> self.comes_before(#[trigger] r@[i]@, #[trigger] r@[j]@),
    {
        let ghost this = self;
        let mut iter = self.iter();
        let ghost start = iter;
        let mut result: Vec<Isomorphism> = Vec::new();
        loop
            invariant
                iter.wf(),
                iter.same_search(&start),
                start.query() == this.query(),
                start.data() == this.data(),
                start.node_test() == this.node_test(),
                start.edge_test() == this.edge_test(),
                start.induced() == is_induced(this.problem()),
                iter.remaining() >= 0,
                forall|i: int| 0 <= i < result@.len() ==> this.is_result(#[trigger] result@[i]@),
                this.exhaustive() ==> forall|m: Seq<usize>|
                    this.is_result(m) && !iter.pending(m) ==> exists|i: int|
                        0 <= i < result@.len() && #[trigger] result@[i]@ == m,
                forall|i: int| 0 <= i < result@.len() ==> !iter.pending(#[trigger] result@[i]@),
                forall|i: int, j: int|
                    0 <= i < j < result@.len() ==> #[trigger] result@[i]@ != #[trigger] result@[j]@,
                forall|i: int, m: Seq<usize>|
                    0 <= i < result@.len() && #[trigger] iter.pending(m) ==> this.comes_before(
                        #[trigger] result@[i]@,
                        m,
                    ),
                forall|i: int, j: int|
                    0 <= i < j < result@.len() ==> this.comes_before(
                        #[trigger] result@[i]@,
                        #[trigger] result@[j]@,
                    ),
            ensures
                forall|i: int, j: int|
                    0 <= i < j < result@.len() ==> this.comes_before(
                        #[trigger] result@[i]@,
                        #[trigger] result@[j]@,
                    ),
                forall|i: int, j: int|
                    0 <= i < j < result@.len() ==> #[trigger] result@[i]@ != #[trigger] result@[j]@,
                forall|i: int| 0 <= i < result@.len() ==> this.is_result(#[trigger] result@[i]@),
                this.exhaustive() ==> forall|m: Seq<usize>|
                    this.is_result(m) ==> exists|i: int|
                        0 <= i < result@.len() && #[trigger] result@[i]@ == m,
            decreases iter.remaining(),
        {
            let ghost before = result@;
            let ghost old_iter = iter;
            match iter.next() {
                Some(map) => {
                    result.push(map);
                    proof {
                        assert(result@[before.len() as int] == map);
                        assert forall|i: int| 0 <= i < result@.len() implies !iter.pending(
                            #[trigger] result@[i]@,
                        ) by {
                            if i < before.len() {
                                assert(result@[i] == before[i]);
                            }
                        }
                        assert forall|i: int, j: int|
                            0 <= i < j < result@.len() implies #[trigger] result@[i]@
                            != #[trigger] result@[j]@ by {
                            assert(result@[i] == before[i]);
                            if j < before.len() {
                                assert(result@[j] == before[j]);
                            }
                        }
                        assert forall|i: int, m: Seq<usize>|
                            0 <= i < result@.len() && #[trigger] iter.pending(m) implies this.comes_before(
                            #[trigger] result@[i]@,
                            m,
                        ) by {
                            assert(old_iter.pending(m));
                            if i < before.len() {
                                assert(result@[i] == before[i]);
                            }
                        }
                        assert forall|i: int, j: int|
                            0 <= i < j < result@.len() implies this.comes_before(
                            #[trigger] result@[i]@,
                            #[trigger] result@[j]@,
                        ) by {
                            assert(result@[i] == before[i]);
                            if j < before.len() {
                                assert(result@[j] == before[j]);
                            } else {
                                assert(old_iter.pending(map@));
                            }
                        }
                        assert forall|m: Seq<usize>|
                            this.exhaustive() && this.is_result(m) && !iter.pending(m) implies exists|i: int|
                            0 <= i < result@.len() && #[trigger] result@[i]@ == m by {
                            if exists|i: int| 0 <= i < before.len() && #[trigger] before[i]@ == m {
                                let i = choose|i: int| 0 <= i < before.len() && #[trigger] before[i]@ == m;
                                assert(result@[i] == before[i]);
                            } else {
                                assert(result@[before.len() as int]@ == m);
                            }
                        }
                    }
                },
                None => {
                    proof {
                        if this.exhaustive() {
                            assert forall|m: Seq<usize>| this.is_result(m) implies exists|i: int|
                                0 <= i < result@.len() && #[trigger] result@[i]@ == m by {
                                assert(start.is_result(m));
                                assert(!iter.pending(m));
                            }
                        }
                    }
                    break;
                },
            }
        }
        result
    }

    /// Returns an iterator of isomorphisms from the query graph to the data graph.
    pub fn iter(self) -> (r: IsomorphismIter<'a, NodeEq, EdgeEq>)
        requires
            self.valid(),
        ensures
            r.wf(),
            r.query() == self.query(),
            r.data() == self.data(),
            r.node_test() == self.node_test(),
            r.edge_test() == self.edge_test(),
            r.induced() == is_induced(self.problem()),
            r.remaining() >= 0,
            forall|m: Seq<usize>| r.pending(m),
    {
        let induced = match self.problem {
            Problem::Isomorphism => true,
            Problem::SubgraphIsomorphism => false,
            Problem::InducedSubgraphIsomorphism => true,
        };
        IsomorphismIter::new(self.query, self.data, self.node_eq, self.edge_eq, induced)
    }
}

} // verus!
