use vf2::{Direction, Graph, Isomorphism};

fn from_edges(directed: bool, count: usize, edges: &[(usize, usize)]) -> Graph {
    let labeled: Vec<(usize, usize, u64)> = edges.iter().map(|&(s, t)| (s, t, 0)).collect();
    Graph::new(directed, vec![0; count], labeled)
}

fn path_and_star(directed: bool) -> (Graph, Graph) {
    let query = from_edges(directed, 5, &[(0, 2), (1, 2), (2, 3), (3, 4)]);
    let data = from_edges(
        directed,
        8,
        &[(0, 3), (1, 3), (2, 3), (1, 2), (3, 4), (4, 5), (3, 6), (7, 6)],
    );
    (query, data)
}

fn labeled(directed: bool) -> (Graph, Graph) {
    let query = Graph::new(
        directed,
        vec![1, 0, 0, 1, 0],
        vec![(0, 2, 0), (1, 2, 1), (2, 3, 0), (3, 4, 1)],
    );
    let data = Graph::new(
        directed,
        vec![1, 0, 0, 0, 1, 0, 1, 0],
        vec![
            (0, 3, 0),
            (1, 3, 0),
            (2, 3, 1),
            (1, 2, 0),
            (3, 4, 0),
            (4, 5, 1),
            (3, 6, 0),
            (7, 6, 1),
        ],
    );
    (query, data)
}

fn is_injective(m: &Isomorphism) -> bool {
    (0..m.len()).all(|u| (0..m.len()).all(|v| u == v || m[u] != m[v]))
}

fn preserves_edges(query: &Graph, data: &Graph, m: &Isomorphism) -> bool {
    (0..m.len()).all(|u| {
        (0..m.len()).all(|v| u == v || !query.contains_edge(u, v) || data.contains_edge(m[u], m[v]))
    })
}

fn reflects_edges(query: &Graph, data: &Graph, m: &Isomorphism) -> bool {
    (0..m.len()).all(|u| {
        (0..m.len()).all(|v| u == v || !data.contains_edge(m[u], m[v]) || query.contains_edge(u, v))
    })
}

/// All injective maps of `query_count` nodes into `data_count` nodes, in lexicographic order.
fn all_injective_maps(query_count: usize, data_count: usize) -> Vec<Isomorphism> {
    let mut out = vec![Vec::new()];
    for _ in 0..query_count {
        let mut next = Vec::new();
        for m in &out {
            for d in 0..data_count {
                if !m.contains(&d) {
                    let mut longer = m.clone();
                    longer.push(d);
                    next.push(longer);
                }
            }
        }
        out = next;
    }
    out
}

#[test]
fn every_result_has_one_image_per_query_node() {
    let (query, data) = path_and_star(false);
    let results = vf2::subgraph_isomorphisms(&query, &data).vec();
    assert_eq!(results.len(), 36);
    for m in &results {
        assert_eq!(m.len(), query.node_count());
        assert!(m.iter().all(|&d| d < data.node_count()));
    }
}

#[test]
fn every_result_is_injective() {
    let (query, data) = path_and_star(false);
    for m in vf2::subgraph_isomorphisms(&query, &data).vec() {
        assert!(is_injective(&m));
    }
}

#[test]
fn every_result_preserves_query_edges() {
    for directed in [true, false] {
        let (query, data) = path_and_star(directed);
        for m in vf2::subgraph_isomorphisms(&query, &data).vec() {
            assert!(preserves_edges(&query, &data, &m));
        }
    }
}

#[test]
fn induced_results_add_no_edges() {
    for directed in [true, false] {
        let (query, data) = path_and_star(directed);
        for m in vf2::induced_subgraph_isomorphisms(&query, &data).vec() {
            assert!(preserves_edges(&query, &data, &m));
            assert!(reflects_edges(&query, &data, &m));
        }
    }
    // The subgraph problem allows the extra data edge (1, 2) between images.
    let (query, data) = path_and_star(true);
    let loose = vf2::subgraph_isomorphisms(&query, &data).vec();
    assert!(loose.contains(&vec![1, 2, 3, 4, 5]));
    assert!(!reflects_edges(&query, &data, &vec![1, 2, 3, 4, 5]));
}

#[test]
fn isomorphisms_are_bijections() {
    let query = from_edges(false, 4, &[(0, 2), (1, 2), (2, 3)]);
    let data = from_edges(false, 4, &[(0, 2), (1, 2), (2, 3)]);
    let results = vf2::isomorphisms(&query, &data).vec();
    assert_eq!(results.len(), 6);
    for m in &results {
        let mut sorted = m.clone();
        sorted.sort();
        assert_eq!(sorted, vec![0, 1, 2, 3]);
    }
}

#[test]
fn node_test_holds_on_results() {
    let (query, data) = labeled(false);
    let results = vf2::induced_subgraph_isomorphisms(&query, &data).default_eq().vec();
    assert_eq!(results.len(), 4);
    for m in &results {
        for u in 0..m.len() {
            assert_eq!(query.node_label(u), data.node_label(m[u]));
        }
    }
}

#[test]
fn edge_test_holds_on_results() {
    let (query, data) = labeled(true);
    let results = vf2::subgraph_isomorphisms(&query, &data)
        .edge_eq(|a, b| a == b)
        .vec();
    assert!(!results.is_empty());
    for m in &results {
        for u in 0..m.len() {
            for v in 0..m.len() {
                if u != v && query.contains_edge(u, v) {
                    assert_eq!(query.edge_label(u, v), data.edge_label(m[u], m[v]));
                }
            }
        }
    }
}

#[test]
fn rejecting_node_test_yields_nothing() {
    let (query, data) = path_and_star(true);
    let results = vf2::subgraph_isomorphisms(&query, &data)
        .node_eq(|_, _| false)
        .vec();
    assert!(results.is_empty());
    let first = vf2::subgraph_isomorphisms(&query, &data)
        .node_eq(|_, _| false)
        .first();
    assert_eq!(first, None);
}

#[test]
fn results_are_all_matches_once_each() {
    let query = from_edges(true, 4, &[(0, 1), (2, 3)]);
    let data = from_edges(true, 5, &[(0, 1), (1, 2), (3, 4)]);
    let results = vf2::subgraph_isomorphisms(&query, &data).vec();
    let expected: Vec<Isomorphism> = all_injective_maps(4, 5)
        .into_iter()
        .filter(|m| preserves_edges(&query, &data, m))
        .collect();
    assert_eq!(results, expected);
}

#[test]
fn first_vec_and_iter_agree() {
    let (query, data) = path_and_star(false);
    let first = vf2::induced_subgraph_isomorphisms(&query, &data).first();
    let all = vf2::induced_subgraph_isomorphisms(&query, &data).vec();
    let mut iter = vf2::induced_subgraph_isomorphisms(&query, &data).iter();
    assert_eq!(first, Some(vec![0, 1, 3, 4, 5]));
    assert_eq!(first.as_ref(), all.first());
    assert_eq!(iter.next(), first);
}

#[test]
fn next_ref_and_next_agree() {
    let (query, data) = path_and_star(true);
    let mut by_ref = vf2::subgraph_isomorphisms(&query, &data).iter();
    let mut by_value = vf2::subgraph_isomorphisms(&query, &data).iter();
    loop {
        let copied = by_ref.next_ref().cloned();
        let owned = by_value.next();
        assert_eq!(copied, owned);
        if owned.is_none() {
            break;
        }
    }
}

#[test]
fn exhausted_iterator_stays_exhausted() {
    let triangle = from_edges(false, 3, &[(0, 1), (1, 2), (2, 0)]);
    let path = from_edges(false, 4, &[(0, 1), (1, 2), (2, 3)]);
    let mut iter = vf2::subgraph_isomorphisms(&triangle, &path).iter();
    assert_eq!(iter.next_ref(), None);
    assert_eq!(iter.next_ref(), None);
    assert_eq!(iter.next(), None);

    let mut iter = vf2::subgraph_isomorphisms(&path, &path).iter();
    let mut count = 0;
    while iter.next().is_some() {
        count += 1;
    }
    assert_eq!(count, 2);
    assert_eq!(iter.next(), None);
    assert_eq!(iter.next_ref(), None);
}

#[test]
fn single_node_query_maps_to_each_data_node() {
    let query = from_edges(true, 1, &[]);
    let data = from_edges(true, 3, &[(0, 1)]);
    let results = vf2::subgraph_isomorphisms(&query, &data).vec();
    assert_eq!(results, vec![vec![0], vec![1], vec![2]]);
}

#[test]
fn directed_edges_keep_their_orientation() {
    let query = from_edges(true, 2, &[(0, 1)]);
    let data = from_edges(true, 3, &[(2, 1), (1, 0)]);
    let results = vf2::subgraph_isomorphisms(&query, &data).vec();
    assert_eq!(results, vec![vec![1, 0], vec![2, 1]]);
}

#[test]
fn graph_reports_its_structure() {
    let directed = Graph::new(true, vec![7, 8, 9], vec![(0, 1, 5), (0, 1, 6), (2, 0, 4)]);
    assert!(directed.is_directed());
    assert_eq!(directed.node_count(), 3);
    assert_eq!(directed.node_label(1), Some(8));
    assert_eq!(directed.node_label(3), None);
    assert!(directed.contains_edge(0, 1));
    assert!(!directed.contains_edge(1, 0));
    assert!(!directed.contains_edge(5, 0));
    assert_eq!(directed.edge_label(0, 1), Some(5));
    assert_eq!(directed.edge_label(2, 0), Some(4));
    assert_eq!(directed.edge_label(0, 2), None);
    assert_eq!(directed.neighbors(0, Direction::Outgoing), &vec![1, 1]);
    assert_eq!(directed.neighbors(0, Direction::Incoming), &vec![2]);

    let undirected = Graph::new(false, vec![0, 0, 0], vec![(0, 1, 3), (2, 1, 4)]);
    assert!(!undirected.is_directed());
    assert!(undirected.contains_edge(1, 0));
    assert_eq!(undirected.edge_label(1, 0), Some(3));
    assert_eq!(undirected.edge_label(1, 2), Some(4));
    assert_eq!(undirected.neighbors(1, Direction::Outgoing), &vec![0, 2]);
    assert_eq!(undirected.neighbors(1, Direction::Incoming), &vec![0, 2]);
}

#[test]
fn query_self_loops_are_not_required_in_the_data() {
    let query = from_edges(true, 1, &[(0, 0)]);
    let data = from_edges(true, 2, &[(0, 1)]);
    let results = vf2::subgraph_isomorphisms(&query, &data).vec();
    assert_eq!(results, vec![vec![0], vec![1]]);
}

#[test]
fn cloned_iterator_continues_alike() {
    let (query, data) = path_and_star(false);
    let mut iter = vf2::subgraph_isomorphisms(&query, &data).iter();
    iter.next();
    let mut copy = iter.clone();
    loop {
        let a = iter.next();
        let b = copy.next();
        assert_eq!(a, b);
        if a.is_none() {
            break;
        }
    }
}

#[test]
fn builder_is_copied() {
    let (query, data) = path_and_star(true);
    let builder = vf2::induced_subgraph_isomorphisms(&query, &data);
    let again = builder;
    assert_eq!(builder.first(), again.vec().first().cloned());
}
