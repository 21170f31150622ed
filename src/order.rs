use vstd::prelude::*;
use crate::graph::{Direction, Graph, NodeIndex};
use crate::graph_state::Source;

verus! {

/// An edge from `a` to `b` for `Outgoing`, from `b` to `a` for `Incoming`.
pub open spec fn edge_dir(g: Graph, a: int, b: int, direction: Direction) -> bool {
    match direction {
        Direction::Outgoing => g.has_edge(a, b),
        Direction::Incoming => g.has_edge(b, a),
    }
}

/// Node `x` is a terminal node of `direction` once the nodes of `placed` are covered:
/// it is not covered and an edge in `direction` leads to it from a covered node. Only
/// directed graphs have incoming terminal nodes.
pub open spec fn is_terminal(g: Graph, placed: Seq<NodeIndex>, x: int, direction: Direction) -> bool {
    &&& direction == Direction::Outgoing || g.spec_directed()
    &&& !placed.contains(x as usize)
    &&& exists|j: int| 0 <= j < placed.len() && #[trigger] edge_dir(g, placed[j] as int, x, direction)
}

/// Node `x` of `g` may be drawn from `source` once the nodes of `placed` are covered.
pub open spec fn in_pool(g: Graph, placed: Seq<NodeIndex>, source: Source, x: int) -> bool {
    &&& 0 <= x < g.spec_node_count()
    &&& match source {
        Source::Outgoing => is_terminal(g, placed, x, Direction::Outgoing),
        Source::Incoming => is_terminal(g, placed, x, Direction::Incoming),
        Source::Uncovered => !placed.contains(x as usize),
    }
}

/// Some node may be drawn from `source`.
pub open spec fn pool_nonempty(g: Graph, placed: Seq<NodeIndex>, source: Source) -> bool {
    exists|x: int| #[trigger] in_pool(g, placed, source, x)
}

/// The source of the pairs at the next depth, once the query nodes `query_placed` are
/// covered by the data nodes `data_placed`: the outgoing terminal nodes if both
/// graphs have some, else the incoming ones if both have some, else the uncovered
/// nodes.
#[verifier::opaque]
pub open spec fn pool_for(
    query: Graph,
    data: Graph,
    query_placed: Seq<NodeIndex>,
    data_placed: Seq<NodeIndex>,
) -> Source {
    if pool_nonempty(query, query_placed, Source::Outgoing) && pool_nonempty(
        data,
        data_placed,
        Source::Outgoing,
    ) {
        Source::Outgoing
    } else if pool_nonempty(query, query_placed, Source::Incoming) && pool_nonempty(
        data,
        data_placed,
        Source::Incoming,
    ) {
        Source::Incoming
    } else {
        Source::Uncovered
    }
}

/// The query node covered at the next depth: the least one in the chosen source.
#[verifier::opaque]
pub open spec fn next_query_node(
    query: Graph,
    data: Graph,
    query_placed: Seq<NodeIndex>,
    data_placed: Seq<NodeIndex>,
) -> int {
    let source = pool_for(query, data, query_placed, data_placed);
    choose|x: int|
        #[trigger] in_pool(query, query_placed, source, x) && forall|y: int|
            0 <= y < x ==> !in_pool(query, query_placed, source, y)
}

/// The data nodes that `m` maps the query nodes `placed` to.
pub open spec fn images(m: Seq<NodeIndex>, placed: Seq<NodeIndex>) -> Seq<NodeIndex> {
    placed.map_values(|u: NodeIndex| m[u as int])
}

/// The query nodes that the search covers, in order, on its way to the map `m`, for
/// the first `k` depths.
pub open spec fn search_path(query: Graph, data: Graph, m: Seq<NodeIndex>, k: nat) -> Seq<
    NodeIndex,
>
    decreases k,
{
    if k == 0 {
        Seq::empty()
    } else {
        let p = search_path(query, data, m, (k - 1) as nat);
        p.push(next_query_node(query, data, p, images(m, p)) as NodeIndex)
    }
}

/// `m1` and `m2` follow the same search path for the first `i` depths, and at depth
/// `i` `m1` maps the query node covered there to a lower data node than `m2`.
pub open spec fn splits_at(query: Graph, data: Graph, m1: Seq<NodeIndex>, m2: Seq<NodeIndex>, i: int) -> bool {
    let p = search_path(query, data, m1, i as nat);
    let u = next_query_node(query, data, p, images(m1, p)) as NodeIndex;
    &&& 0 <= i < query.spec_node_count()
    &&& p == search_path(query, data, m2, i as nat)
    &&& images(m1, p) == images(m2, p)
    &&& m1[u as int] < m2[u as int]
}

/// The search reaches `m1` before `m2`: the order in which matches come out.
pub open spec fn search_before(query: Graph, data: Graph, m1: Seq<NodeIndex>, m2: Seq<NodeIndex>) -> bool {
    exists|i: int| #[trigger] splits_at(query, data, m1, m2, i)
}

} // verus!

verus! {

/// The search path to depth `k` is the start of the path to any deeper depth.
pub proof fn lemma_path_prefix(query: Graph, data: Graph, m: Seq<NodeIndex>, k: nat, deeper: nat)
    requires
        k <= deeper,
    ensures
        search_path(query, data, m, deeper).len() == deeper,
        search_path(query, data, m, k) == search_path(query, data, m, deeper).subrange(0, k as int),
    decreases deeper,
{
    if deeper == 0 {
        assert(search_path(query, data, m, 0) =~= search_path(query, data, m, 0).subrange(0, 0));
    } else if k == deeper {
        lemma_path_prefix(query, data, m, (deeper - 1) as nat, (deeper - 1) as nat);
        assert(search_path(query, data, m, k) =~= search_path(query, data, m, deeper).subrange(
            0,
            k as int,
        ));
    } else {
        lemma_path_prefix(query, data, m, k, (deeper - 1) as nat);
        assert(search_path(query, data, m, k) =~= search_path(query, data, m, deeper).subrange(
            0,
            k as int,
        ));
    }
}

/// Two maps that split at depth `i` do not split the other way at a deeper depth.
proof fn lemma_split_order(query: Graph, data: Graph, m1: Seq<NodeIndex>, m2: Seq<NodeIndex>, i: int, j: int)
    requires
        splits_at(query, data, m1, m2, i),
        i < j,
    ensures
        !splits_at(query, data, m2, m1, j),
{
    if splits_at(query, data, m2, m1, j) {
        let p = search_path(query, data, m1, i as nat);
        let u = next_query_node(query, data, p, images(m1, p)) as NodeIndex;
        let pj = search_path(query, data, m2, j as nat);
        lemma_path_prefix(query, data, m1, i as nat, i as nat);
        lemma_path_prefix(query, data, m1, (i + 1) as nat, j as nat);
        assert(search_path(query, data, m1, (i + 1) as nat)[i] == u);
        assert(pj[i] == u);
        assert(images(m2, pj)[i] == images(m1, pj)[i]);
    }
}

/// No map comes both before and after another in the search.
pub proof fn lemma_search_before_asymmetric(query: Graph, data: Graph, m1: Seq<NodeIndex>, m2: Seq<NodeIndex>)
    requires
        search_before(query, data, m1, m2),
    ensures
        !search_before(query, data, m2, m1),
{
    let i = choose|i: int| #[trigger] splits_at(query, data, m1, m2, i);
    if search_before(query, data, m2, m1) {
        let j = choose|j: int| #[trigger] splits_at(query, data, m2, m1, j);
        if i < j {
            lemma_split_order(query, data, m1, m2, i, j);
        } else if j < i {
            lemma_split_order(query, data, m2, m1, j, i);
        } else {
            let p = search_path(query, data, m1, i as nat);
            assert(images(m1, p) == images(m2, p));
        }
    }
}

} // verus!
