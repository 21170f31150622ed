use vstd::prelude::*;
use crate::graph::{Graph, NodeIndex};
use crate::graph_state::NOT_IN_MAP;
use crate::isomorphism::{is_match, Isomorphism};
use crate::labels::LabelEq;
use crate::order::search_before;
use crate::state::{agrees_below, diverges_at, State};

verus! {

/// An iterator over the isomorphisms of a query graph into a data graph.
#[derive(Clone, Debug)]
pub struct IsomorphismIter<'a, NodeEq, EdgeEq> {
    state: State<'a, NodeEq, EdgeEq>,
}

impl<'a, NodeEq: LabelEq, EdgeEq: LabelEq> IsomorphismIter<'a, NodeEq, EdgeEq> {
    pub closed spec fn wf(&self) -> bool {
        self.state.inv()
    }

    pub closed spec fn query(&self) -> Graph {
        self.state.qg()
    }

    pub closed spec fn data(&self) -> Graph {
        self.state.dg()
    }

    pub closed spec fn induced(&self) -> bool {
        self.state.induced
    }

    pub closed spec fn node_test(&self) -> Option<NodeEq> {
        self.state.node_eq
    }

    pub closed spec fn edge_test(&self) -> Option<EdgeEq> {
        self.state.edge_eq
    }

    /// The search is over.
    pub closed spec fn is_done(&self) -> bool {
        self.state.exhausted()
    }

    /// The match `m` lies in the part of the search still to come.
    pub closed spec fn pending(&self, m: Seq<NodeIndex>) -> bool {
        self.state.ahead(m)
    }

    /// The search finds every match: each label test that is set gives one answer per
    /// pair of labels.
    pub open spec fn exhaustive(&self) -> bool {
        &&& self.node_test() matches Some(p) ==> p.decisive()
        &&& self.edge_test() matches Some(p) ==> p.decisive()
    }

    /// What is left of the search.
    pub closed spec fn remaining(&self) -> int {
        self.state.measure()
    }

    /// The settings of the search are those of `other`.
    pub open spec fn same_search(&self, other: &Self) -> bool {
        &&& self.query() == other.query()
        &&& self.data() == other.data()
        &&& self.induced() == other.induced()
        &&& self.node_test() == other.node_test()
        &&& self.edge_test() == other.edge_test()
    }

    /// The search reaches `m1` before `m2`.
    pub open spec fn comes_before(&self, m1: Seq<NodeIndex>, m2: Seq<NodeIndex>) -> bool {
        search_before(self.query(), self.data(), m1, m2)
    }

    /// `m` is a match of this search.
    pub open spec fn is_result(&self, m: Seq<NodeIndex>) -> bool {
        is_match(self.query(), self.data(), self.induced(), self.node_test(), self.edge_test(), m)
    }

    pub(crate) fn new(
        query: &'a Graph,
        data: &'a Graph,
        node_eq: Option<NodeEq>,
        edge_eq: Option<EdgeEq>,
        induced: bool,
    ) -> (r: Self)
        requires
            query.wf(),
            data.wf(),
            query.spec_directed() == data.spec_directed(),
            0 < query.spec_node_count() <= data.spec_node_count(),
            data.spec_node_count() < NOT_IN_MAP,
            node_eq matches Some(p) ==> p.ready(),
            edge_eq matches Some(p) ==> p.ready(),
        ensures
            r.wf(),
            r.query() == *query,
            r.data() == *data,
            r.node_test() == node_eq,
            r.edge_test() == edge_eq,
            r.induced() == induced,
            r.remaining() >= 0,
            forall|m: Seq<NodeIndex>| r.pending(m),
    {
        let r = IsomorphismIter { state: State::new(query, data, node_eq, edge_eq, induced) };
        proof {
            r.state.lemma_key_digits();
            assert forall|m: Seq<NodeIndex>| r.pending(m) by {
                assert(agrees_below(r.state.query.node_stack@, r.state.data.node_stack@, m, 0));
            }
        }
        r
    }

    /// Runs the search to the next complete map or to its end. Returns `true` if a
    /// map is ready.
    fn advance(&mut self) -> (r: bool)
        requires
            old(self).wf(),
        ensures
            final(self).wf(),
            final(self).same_search(old(self)),
            r ==> final(self).is_result(final(self).state.query.map@),
            r ==> final(self).remaining() < old(self).remaining(),
            final(self).remaining() <= old(self).remaining(),
            final(self).remaining() >= 0,
            !r ==> final(self).is_done(),
            old(self).is_done() ==> !r && *final(self) == *old(self),
            old(self).exhaustive() ==> forall|m: Seq<NodeIndex>|
                old(self).is_result(m) && old(self).pending(m) ==> final(self).pending(m) || (r
                    && m == final(self).state.query.map@),
            old(self).exhaustive() && !r ==> forall|m: Seq<NodeIndex>|
                old(self).is_result(m) ==> !final(self).pending(m),
            forall|m: Seq<NodeIndex>| #[trigger] final(self).pending(m) ==> old(self).pending(m),
            r ==> old(self).pending(final(self).state.query.map@) && !final(self).pending(
                final(self).state.query.map@,
            ),
            r ==> forall|m: Seq<NodeIndex>| #[trigger]
                final(self).pending(m) ==> final(self).comes_before(final(self).state.query.map@, m),
    {
        let ghost start = self.state;
        loop
            invariant_except_break
                start.same_kind() && start.decisive() ==> forall|m: Seq<NodeIndex>|
                    start.solution(m) && start.ahead(m) ==> self.state.ahead(m),
            invariant
                self.state.inv(),
                self.state.same_search(&start),
                self.state.query.n() == start.query.n(),
                self.state.data.n() == start.data.n(),
                self.state.measure() <= start.measure(),
                start.exhausted() ==> self.state == start,
                forall|m: Seq<NodeIndex>| #[trigger] self.state.ahead(m) ==> start.ahead(m),
            ensures
                self.state.depth == self.state.query.n() ==> start.ahead(self.state.query.map@),
                self.state.depth == self.state.query.n() ==> self.state.measure()
                    < start.measure(),
                self.state.depth != self.state.query.n() ==> self.state.exhausted(),
                start.exhausted() ==> self.state == start,
                start.same_kind() && start.decisive() ==> forall|m: Seq<NodeIndex>|
                    start.solution(m) && start.ahead(m) ==> self.state.ahead(m) || (
                    self.state.depth == self.state.query.n() && m == self.state.query.map@),
            decreases self.state.measure(),
        {
            let ghost before = self.state;
            proof {
                before.lemma_key_digits();
            }
            let done = self.state.step();
            proof {
                self.state.lemma_key_digits();
            }
            if done {
                break;
            }
        }
        proof {
            self.state.lemma_key_digits();
            if start.same_kind() && start.decisive() && self.state.depth != self.state.query.n() {
                assert forall|m: Seq<NodeIndex>| start.solution(m) implies !#[trigger] self.state.ahead(
                    m,
                ) by {
                    if self.state.ahead(m) {
                        let qs = self.state.query.node_stack@;
                        let ds = self.state.data.node_stack@;
                        assert(!exists|i: int| 0 <= i < 0 && #[trigger] diverges_at(qs, ds, m, i));
                        self.state.lemma_candidate_left(m);
                    }
                }
            }
        }
        if self.state.all_covered() {
            proof {
                self.state.lemma_complete();
                self.state.lemma_complete_not_ahead();
                assert forall|m: Seq<NodeIndex>| #[trigger] self.pending(m) implies self.comes_before(
                    self.state.query.map@,
                    m,
                ) by {
                    self.state.lemma_complete_before(m);
                }
            }
            true
        } else {
            false
        }
    }

    /// Advances the search and returns a reference to the next isomorphism, or `None`
    /// when the search is complete. Does not allocate.
    pub fn next_ref(&mut self) -> (r: Option<&Isomorphism>)
        requires
            old(self).wf(),
        ensures
            final(self).wf(),
            final(self).same_search(old(self)),
            r matches Some(m) ==> final(self).is_result(m@),
            r is Some ==> final(self).remaining() < old(self).remaining(),
            final(self).remaining() >= 0,
            r is None ==> final(self).is_done(),
            old(self).is_done() ==> r is None && final(self).is_done(),
            old(self).exhaustive() ==> forall|m: Seq<NodeIndex>|
                old(self).is_result(m) && old(self).pending(m) ==> final(self).pending(m) || (
                r matches Some(x) && x@ == m),
            old(self).exhaustive() && r is None ==> forall|m: Seq<NodeIndex>|
                old(self).is_result(m) ==> !final(self).pending(m),
            forall|m: Seq<NodeIndex>| #[trigger] final(self).pending(m) ==> old(self).pending(m),
            r matches Some(x) ==> old(self).pending(x@) && !final(self).pending(x@),
            r matches Some(x) ==> forall|m: Seq<NodeIndex>| #[trigger]
                final(self).pending(m) ==> final(self).comes_before(x@, m),
            old(self).exhaustive() ==> (r matches Some(x) ==> forall|m: Seq<NodeIndex>|
                old(self).is_result(m) && #[trigger] old(self).pending(m) && m != x@
                    ==> old(self).comes_before(x@, m)),
    {
        if self.advance() {
            Some(self.state.query_map())
        } else {
            None
        }
    }

    /// Advances the search and returns the next isomorphism, consuming the iterator,
    /// or `None` when the search is complete. Does not allocate.
    pub fn into_next(self) -> (r: Option<Isomorphism>)
        requires
            self.wf(),
        ensures
            r matches Some(m) ==> self.is_result(m@),
            self.exhaustive() && r is None ==> forall|m: Seq<NodeIndex>|
                self.is_result(m) ==> !self.pending(m),
            r matches Some(x) ==> self.pending(x@),
            self.exhaustive() ==> (r matches Some(x) ==> forall|m: Seq<NodeIndex>|
                self.is_result(m) && #[trigger] self.pending(m) && m != x@ ==> self.comes_before(
                    x@,
                    m,
                )),
    {
        let mut iter = self;
        if iter.advance() {
            Some(iter.state.into_query_map())
        } else {
            None
        }
    }

    /// Advances the search and returns a copy of the next isomorphism, or `None` when
    /// the search is complete.
    pub fn next(&mut self) -> (r: Option<Isomorphism>)
        requires
            old(self).wf(),
        ensures
            final(self).wf(),
            final(self).same_search(old(self)),
            r matches Some(m) ==> final(self).is_result(m@),
            r is Some ==> final(self).remaining() < old(self).remaining(),
            final(self).remaining() >= 0,
            r is None ==> final(self).is_done(),
            old(self).is_done() ==> r is None && final(self).is_done(),
            old(self).exhaustive() ==> forall|m: Seq<NodeIndex>|
                old(self).is_result(m) && old(self).pending(m) ==> final(self).pending(m) || (
                r matches Some(x) && x@ == m),
            old(self).exhaustive() && r is None ==> forall|m: Seq<NodeIndex>|
                old(self).is_result(m) ==> !final(self).pending(m),
            forall|m: Seq<NodeIndex>| #[trigger] final(self).pending(m) ==> old(self).pending(m),
            r matches Some(x) ==> old(self).pending(x@) && !final(self).pending(x@),
            r matches Some(x) ==> forall|m: Seq<NodeIndex>| #[trigger]
                final(self).pending(m) ==> final(self).comes_before(x@, m),
            old(self).exhaustive() ==> (r matches Some(x) ==> forall|m: Seq<NodeIndex>|
                old(self).is_result(m) && #[trigger] old(self).pending(m) && m != x@
                    ==> old(self).comes_before(x@, m)),
    {
        match self.next_ref() {
            Some(map) => Some(copy_map(map)),
            None => None,
        }
    }
}

/// Returns a copy of `map`.
fn copy_map(map: &Vec<NodeIndex>) -> (r: Vec<NodeIndex>)
    ensures
        r@ == map@,
{
    let mut r: Vec<NodeIndex> = Vec::with_capacity(map.len());
    let mut i: usize = 0;
    while i < map.len()
        invariant
            i <= map@.len(),
            r@ == map@.subrange(0, i as int),
        decreases map@.len() - i,
    {
        r.push(map[i]);
        i = i + 1;
    }
    r
}

} // verus!
