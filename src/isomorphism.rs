use vstd::prelude::*;
use crate::graph::{Graph, NodeIndex};
use crate::labels::LabelEq;

verus! {

/// An isomorphism mapping query nodes to data nodes: the value at index `i` is the
/// data node that query node `i` maps to.
pub type Isomorphism = Vec<NodeIndex>;

/// `m` maps each of the `query_count` query nodes to a data node below `data_count`.
pub open spec fn maps_into(m: Seq<NodeIndex>, query_count: nat, data_count: nat) -> bool {
    &&& m.len() == query_count
    &&& forall|u: int| 0 <= u < m.len() ==> #[trigger] m[u] < data_count
}

/// No two query nodes share a data node.
pub open spec fn is_injective(m: Seq<NodeIndex>) -> bool {
    forall|u: int, v: int| 0 <= u < m.len() && 0 <= v < m.len() && u != v ==> #[trigger] m[u] != #[trigger] m[v]
}

/// Data node `y` is the image of a query node.
pub open spec fn has_preimage(m: Seq<NodeIndex>, y: int) -> bool {
    exists|u: int| 0 <= u < m.len() && #[trigger] m[u] == y
}

/// Every data node below `data_count` is the image of a query node.
pub open spec fn is_onto(m: Seq<NodeIndex>, data_count: nat) -> bool {
    forall|y: int| 0 <= y < data_count ==> #[trigger] has_preimage(m, y)
}

/// Every edge between distinct query nodes has an edge between their images.
pub open spec fn preserves_edges(query: Graph, data: Graph, m: Seq<NodeIndex>) -> bool {
    forall|u: int, v: int|
        0 <= u < m.len() && 0 <= v < m.len() && u != v && #[trigger] query.has_edge(u, v)
            ==> data.has_edge(m[u] as int, m[v] as int)
}

/// Every edge between the images of distinct query nodes has an edge between them.
pub open spec fn reflects_edges(query: Graph, data: Graph, m: Seq<NodeIndex>) -> bool {
    forall|u: int, v: int|
        0 <= u < m.len() && 0 <= v < m.len() && u != v && #[trigger] data.has_edge(
            m[u] as int,
            m[v] as int,
        ) ==> query.has_edge(u, v)
}

/// The node test, if any, passes on each query node's label and its image's label.
pub open spec fn node_labels_pass<NE: LabelEq>(
    query: Graph,
    data: Graph,
    node_eq: Option<NE>,
    m: Seq<NodeIndex>,
) -> bool {
    node_eq matches Some(p) ==> forall|u: int|
        0 <= u < m.len() ==> p.accepts(
            query.spec_node_label(u),
            data.spec_node_label(#[trigger] m[u] as int),
        )
}

/// The edge test, if any, passes on each query edge's label and its image's label.
pub open spec fn edge_labels_pass<EE: LabelEq>(
    query: Graph,
    data: Graph,
    edge_eq: Option<EE>,
    m: Seq<NodeIndex>,
) -> bool {
    edge_eq matches Some(p) ==> forall|u: int, v: int|
        0 <= u < m.len() && 0 <= v < m.len() && u != v && #[trigger] query.has_edge(u, v)
            ==> p.accepts(query.edge_label_of(u, v), data.edge_label_of(m[u] as int, m[v] as int))
}

/// `m` embeds `query` into `data`: injectively, keeping the edges between distinct
/// nodes (and, when `induced`, the non-edges), and with the label tests passing.
/// A self-loop of the query is not an edge between distinct nodes: the search does
/// not ask the data graph for one.
pub open spec fn is_match<NE: LabelEq, EE: LabelEq>(
    query: Graph,
    data: Graph,
    induced: bool,
    node_eq: Option<NE>,
    edge_eq: Option<EE>,
    m: Seq<NodeIndex>,
) -> bool {
    &&& maps_into(m, query.spec_node_count(), data.spec_node_count())
    &&& is_injective(m)
    &&& preserves_edges(query, data, m)
    &&& induced ==> reflects_edges(query, data, m)
    &&& node_labels_pass(query, data, node_eq, m)
    &&& edge_labels_pass(query, data, edge_eq, m)
    &&& query.spec_node_count() == data.spec_node_count() ==> is_onto(m, data.spec_node_count())
}

} // verus!
