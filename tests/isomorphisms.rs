use vf2::{Graph, Isomorphism};

const WHITE: u64 = 0;
const BLACK: u64 = 1;

/// Builds an unlabeled graph with as many nodes as the largest index calls for.
fn from_edges(directed: bool, edges: &[(usize, usize)]) -> Graph {
    let count = edges.iter().map(|&(s, t)| s.max(t) + 1).max().unwrap_or(0);
    let labeled: Vec<(usize, usize, u64)> = edges.iter().map(|&(s, t)| (s, t, 0)).collect();
    Graph::new(directed, vec![0; count], labeled)
}

/// Tests graph isomorphism enumeration on directed graphs.
#[test]
fn isomorphisms_directed() {
    let query = from_edges(true, &[(0, 2), (1, 2), (2, 3)]);
    let data = from_edges(true, &[(0, 2), (1, 2), (2, 3)]);

    let isomorphisms = vf2::isomorphisms(&query, &data).vec();

    assert_eq!(isomorphisms, vec![vec![0, 1, 2, 3], vec![1, 0, 2, 3]]);
}

/// Tests graph isomorphism enumeration on undirected graphs.
#[test]
fn isomorphisms_undirected() {
    let query = from_edges(false, &[(0, 2), (1, 2), (2, 3)]);
    let data = from_edges(false, &[(0, 2), (1, 2), (2, 3)]);

    let isomorphisms = vf2::isomorphisms(&query, &data).vec();

    assert_eq!(
        isomorphisms,
        vec![
            vec![0, 1, 2, 3],
            vec![0, 3, 2, 1],
            vec![1, 0, 2, 3],
            vec![1, 3, 2, 0],
            vec![3, 0, 2, 1],
            vec![3, 1, 2, 0],
        ]
    );
}

/// Tests subgraph isomorphism enumeration on directed graphs.
#[test]
fn subgraph_isomorphisms_directed() {
    let (query, data) = small_graphs(true);

    let isomorphisms = vf2::subgraph_isomorphisms(&query, &data).vec();

    assert_eq!(
        isomorphisms,
        vec![
            vec![0, 1, 3, 4, 5],
            vec![0, 2, 3, 4, 5],
            vec![1, 0, 3, 4, 5],
            vec![1, 2, 3, 4, 5],
            vec![2, 0, 3, 4, 5],
            vec![2, 1, 3, 4, 5],
        ]
    );
}

/// Tests subgraph isomorphism enumeration on undirected graphs.
#[test]
fn subgraph_isomorphisms_undirected() {
    let (query, data) = small_graphs(false);

    let isomorphisms = vf2::subgraph_isomorphisms(&query, &data).vec();

    assert_eq!(
        isomorphisms,
        vec![
            vec![0, 1, 3, 4, 5],
            vec![0, 1, 3, 6, 7],
            vec![0, 2, 3, 4, 5],
            vec![0, 2, 3, 6, 7],
            vec![0, 4, 3, 1, 2],
            vec![0, 4, 3, 2, 1],
            vec![0, 4, 3, 6, 7],
            vec![0, 6, 3, 1, 2],
            vec![0, 6, 3, 2, 1],
            vec![0, 6, 3, 4, 5],
            vec![1, 0, 3, 4, 5],
            vec![1, 0, 3, 6, 7],
            vec![1, 2, 3, 4, 5],
            vec![1, 2, 3, 6, 7],
            vec![1, 4, 3, 6, 7],
            vec![1, 6, 3, 4, 5],
            vec![2, 0, 3, 4, 5],
            vec![2, 0, 3, 6, 7],
            vec![2, 1, 3, 4, 5],
            vec![2, 1, 3, 6, 7],
            vec![2, 4, 3, 6, 7],
            vec![2, 6, 3, 4, 5],
            vec![4, 0, 3, 1, 2],
            vec![4, 0, 3, 2, 1],
            vec![4, 0, 3, 6, 7],
            vec![4, 1, 3, 6, 7],
            vec![4, 2, 3, 6, 7],
            vec![4, 6, 3, 1, 2],
            vec![4, 6, 3, 2, 1],
            vec![6, 0, 3, 1, 2],
            vec![6, 0, 3, 2, 1],
            vec![6, 0, 3, 4, 5],
            vec![6, 1, 3, 4, 5],
            vec![6, 2, 3, 4, 5],
            vec![6, 4, 3, 1, 2],
            vec![6, 4, 3, 2, 1],
        ]
    );
}

/// Tests induced subgraph isomorphism enumeration on directed graphs.
#[test]
fn induced_subgraph_isomorphisms_directed() {
    let (query, data) = small_graphs(true);

    let isomorphisms = vf2::induced_subgraph_isomorphisms(&query, &data).vec();

    assert_eq!(
        isomorphisms,
        vec![
            vec![0, 1, 3, 4, 5],
            vec![0, 2, 3, 4, 5],
            vec![1, 0, 3, 4, 5],
            vec![2, 0, 3, 4, 5],
        ]
    );
}

/// Tests induced subgraph isomorphism enumeration on undirected graphs.
#[test]
fn induced_subgraph_isomorphisms_undirected() {
    let (query, data) = small_graphs(false);

    let isomorphisms = vf2::induced_subgraph_isomorphisms(&query, &data).vec();

    assert_eq!(
        isomorphisms,
        vec![
            vec![0, 1, 3, 4, 5],
            vec![0, 1, 3, 6, 7],
            vec![0, 2, 3, 4, 5],
            vec![0, 2, 3, 6, 7],
            vec![0, 4, 3, 6, 7],
            vec![0, 6, 3, 4, 5],
            vec![1, 0, 3, 4, 5],
            vec![1, 0, 3, 6, 7],
            vec![1, 4, 3, 6, 7],
            vec![1, 6, 3, 4, 5],
            vec![2, 0, 3, 4, 5],
            vec![2, 0, 3, 6, 7],
            vec![2, 4, 3, 6, 7],
            vec![2, 6, 3, 4, 5],
            vec![4, 0, 3, 6, 7],
            vec![4, 1, 3, 6, 7],
            vec![4, 2, 3, 6, 7],
            vec![6, 0, 3, 4, 5],
            vec![6, 1, 3, 4, 5],
            vec![6, 2, 3, 4, 5],
        ]
    );
}

/// Tests that node and edge labels are not compared by default.
#[test]
fn no_eq_by_default() {
    let (query, data) = small_labeled_graphs(true);

    let isomorphisms = vf2::induced_subgraph_isomorphisms(&query, &data).vec();

    assert_eq!(
        isomorphisms,
        vec![
            vec![0, 1, 3, 4, 5],
            vec![0, 2, 3, 4, 5],
            vec![1, 0, 3, 4, 5],
            vec![2, 0, 3, 4, 5],
        ]
    );
}

/// Tests default equality functions on directed graphs.
#[test]
fn default_eq_directed() {
    let (query, data) = small_labeled_graphs(true);

    let isomorphisms = vf2::induced_subgraph_isomorphisms(&query, &data)
        .default_eq()
        .vec();

    assert_eq!(isomorphisms, vec![vec![0, 2, 3, 4, 5]]);
}

/// Tests default equality functions on undirected graphs.
#[test]
fn default_eq_undirected() {
    let (query, data) = small_labeled_graphs(false);

    let isomorphisms = vf2::induced_subgraph_isomorphisms(&query, &data)
        .default_eq()
        .vec();

    assert_eq!(
        isomorphisms,
        vec![
            vec![0, 2, 3, 4, 5],
            vec![0, 2, 3, 6, 7],
            vec![4, 2, 3, 6, 7],
            vec![6, 2, 3, 4, 5],
        ]
    );
}

/// Tests custom equality functions.
#[test]
fn custom_eq() {
    let (query, data) = small_labeled_graphs(true);

    let isomorphisms = vf2::induced_subgraph_isomorphisms(&query, &data)
        .node_eq(|left, right| left == right)
        .edge_eq(|left, right| left == right)
        .vec();

    assert_eq!(isomorphisms, vec![vec![0, 2, 3, 4, 5]]);
}

/// Tests enumeration on disconnected graphs.
#[test]
fn disconnected() {
    let query = from_edges(true, &[(0, 1), (2, 3)]);
    let data = from_edges(true, &[(0, 1), (1, 2), (3, 4)]);

    let isomorphisms = vf2::subgraph_isomorphisms(&query, &data).vec();

    assert_eq!(
        isomorphisms,
        vec![
            vec![0, 1, 3, 4],
            vec![1, 2, 3, 4],
            vec![3, 4, 0, 1],
            vec![3, 4, 1, 2],
        ]
    );
}

/// Tests that `Debug` is implemented for the builder.
#[test]
fn builder_debug() {
    let (query, data) = small_graphs(true);
    let builder = vf2::subgraph_isomorphisms(&query, &data);

    let debug = format!("{builder:#?}");

    assert!(!debug.is_empty());
}

/// Tests that `Debug` is implemented for the iterator.
#[test]
fn iter_debug() {
    let (query, data) = small_graphs(true);
    let iter = vf2::subgraph_isomorphisms(&query, &data).iter();

    let debug = format!("{iter:#?}");

    assert!(!debug.is_empty());
}

/// Tests finding only the first isomorphism.
#[test]
fn first() {
    let (query, data) = small_graphs(true);

    let first = vf2::subgraph_isomorphisms(&query, &data).first();

    assert_eq!(first, Some(vec![0, 1, 3, 4, 5]));
}

/// Tests collecting isomorphisms into a vector.
#[test]
fn vec() {
    let (query, data) = small_graphs(true);

    let vec = vf2::subgraph_isomorphisms(&query, &data).vec();

    assert!(!vec.is_empty());
}

/// Tests getting an iterator of isomorphisms.
#[test]
fn iter() {
    let (query, data) = small_graphs(true);

    let mut iter = vf2::subgraph_isomorphisms(&query, &data).iter();

    assert!(iter.next().is_some());
}

/// Tests getting a reference to the next isomorphism.
#[test]
fn iter_next_ref() {
    let (query, data) = small_graphs(true);
    let mut iter = vf2::subgraph_isomorphisms(&query, &data).iter();

    let next_ref = iter.next_ref();

    assert_eq!(next_ref, Some(&vec![0, 1, 3, 4, 5]));
}

/// Tests converting the iterator into the next isomorphism.
#[test]
fn iter_into_next() {
    let (query, data) = small_graphs(true);
    let iter = vf2::subgraph_isomorphisms(&query, &data).iter();

    let next: Option<Isomorphism> = iter.into_next();

    assert_eq!(next, Some(vec![0, 1, 3, 4, 5]));
}

/// Returns small query and data graphs used across tests.
fn small_graphs(directed: bool) -> (Graph, Graph) {
    let query = from_edges(directed, &[(0, 2), (1, 2), (2, 3), (3, 4)]);
    let data = from_edges(
        directed,
        &[(0, 3), (1, 3), (2, 3), (1, 2), (3, 4), (4, 5), (3, 6), (7, 6)],
    );
    (query, data)
}

/// Returns small query and data graphs, with node and edge labels, used across tests.
fn small_labeled_graphs(directed: bool) -> (Graph, Graph) {
    let query = Graph::new(
        directed,
        vec![BLACK, WHITE, WHITE, BLACK, WHITE],
        vec![(0, 2, WHITE), (1, 2, BLACK), (2, 3, WHITE), (3, 4, BLACK)],
    );
    let data = Graph::new(
        directed,
        vec![BLACK, WHITE, WHITE, WHITE, BLACK, WHITE, BLACK, WHITE],
        vec![
            (0, 3, WHITE),
            (1, 3, WHITE),
            (2, 3, BLACK),
            (1, 2, WHITE),
            (3, 4, WHITE),
            (4, 5, BLACK),
            (3, 6, WHITE),
            (7, 6, BLACK),
        ],
    );
    (query, data)
}
