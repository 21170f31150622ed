//! Enumerates graph isomorphisms, subgraph isomorphisms and induced subgraph
//! isomorphisms from a query graph into a data graph with the VF2 algorithm.
//! Graphs may be directed or undirected, and node and edge labels may be compared
//! with equality tests set on the builder.
mod builder;
mod counting;
mod graph;
mod graph_state;
mod isomorphism;
mod iter;
mod labels;
mod order;
mod state;

pub use builder::{
    induced_subgraph_isomorphisms, is_induced, isomorphisms, subgraph_isomorphisms,
    DefaultVf2ppBuilder, Problem, Vf2ppBuilder,
};
pub use graph::{Direction, Graph, NodeIndex};
pub use isomorphism::{
    has_preimage, is_injective, is_match, is_onto, maps_into, node_labels_pass, edge_labels_pass,
    preserves_edges, reflects_edges, Isomorphism,
};
pub use iter::IsomorphismIter;
pub use labels::{EqFn, LabelEq, NativeEq};
pub use graph_state::Source;
pub use order::{
    edge_dir, images, in_pool, is_terminal, next_query_node, pool_for, pool_nonempty, search_before,
    search_path, splits_at,
};
