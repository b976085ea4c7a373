use copurchase_network::analysis::{
    compute_degree_distribution, compute_network_metrics, detect_communities, node_degree,
};
use copurchase_network::graph::{build_graph, extract_subgraph, try_build_graph, NetworkGraph};
use copurchase_network::product::Product;
use petgraph::graph::NodeIndex;
use std::collections::BTreeMap;

fn product(asin: &str, similar: &[&str]) -> Product {
    Product {
        asin: asin.to_string(),
        title: None,
        categories: Vec::new(),
        price: None,
        sales_rank: None,
        avg_rating: None,
        review_count: 0,
        similar: similar.iter().map(|s| s.to_string()).collect(),
    }
}

/// A triangle A-B-C and an edge E-D, with a self-reference, a repeated link
/// and an unknown ASIN that the construction skips.
fn sample_products() -> Vec<Product> {
    vec![
        product("A", &["B", "C"]),
        product("B", &["A", "C", "X"]),
        product("C", &["C"]),
        product("D", &[]),
        product("E", &["D"]),
    ]
}

fn weights(g: &NetworkGraph) -> Vec<String> {
    g.node_indices().map(|i| g[i].clone()).collect()
}

fn joined(g: &NetworkGraph, a: usize, b: usize) -> bool {
    g.contains_edge(NodeIndex::new(a), NodeIndex::new(b))
}

#[test]
fn build_graph_one_node_per_product() {
    let g = build_graph(&sample_products());
    assert_eq!(weights(&g), vec!["A", "B", "C", "D", "E"]);
}

#[test]
fn build_graph_skips_self_loops_duplicates_and_unknown() {
    let g = build_graph(&sample_products());
    assert_eq!(g.edge_count(), 4);
    assert!(joined(&g, 0, 1));
    assert!(joined(&g, 0, 2));
    assert!(joined(&g, 1, 2));
    assert!(joined(&g, 4, 3));
    assert!(!joined(&g, 2, 2));
}

#[test]
fn build_graph_uses_last_product_of_repeated_asin() {
    let products = vec![product("A", &["B"]), product("B", &[]), product("A", &[])];
    let g = build_graph(&products);
    assert_eq!(g.node_count(), 3);
    assert_eq!(g.edge_count(), 1);
    assert!(joined(&g, 2, 1));
    assert!(!joined(&g, 0, 1));
}

#[test]
fn build_graph_empty() {
    let g = build_graph(&[]);
    assert_eq!(g.node_count(), 0);
    assert_eq!(g.edge_count(), 0);
}

#[test]
fn extract_subgraph_keeps_edges_between_given_nodes() {
    let g = build_graph(&sample_products());
    let sub = extract_subgraph(&g, &vec![0, 2, 1]);
    assert_eq!(weights(&sub), vec!["A", "C", "B"]);
    assert_eq!(sub.edge_count(), 3);
    assert!(sub.contains_edge(NodeIndex::new(0), NodeIndex::new(1)));
    assert!(sub.contains_edge(NodeIndex::new(0), NodeIndex::new(2)));
    assert!(sub.contains_edge(NodeIndex::new(1), NodeIndex::new(2)));
    let pair = extract_subgraph(&g, &vec![3, 0]);
    assert_eq!(weights(&pair), vec!["D", "A"]);
    assert_eq!(pair.edge_count(), 0);
}

#[test]
fn metrics_of_sample_network() {
    let g = build_graph(&sample_products());
    let m = compute_network_metrics(&g);
    assert_eq!(m.node_count, 5);
    assert_eq!(m.edge_count, 4);
    assert_eq!(m.connected_components, 2);
    assert_eq!(m.degree_sum, 8);
    assert_eq!(m.max_degree, 2);
    assert_eq!(m.diameter, None);
}

#[test]
fn metrics_of_empty_network() {
    let m = compute_network_metrics(&build_graph(&[]));
    assert_eq!(m.node_count, 0);
    assert_eq!(m.edge_count, 0);
    assert_eq!(m.connected_components, 0);
    assert_eq!(m.degree_sum, 0);
    assert_eq!(m.max_degree, 0);
}

#[test]
fn degree_sum_is_twice_the_edges() {
    let g = build_graph(&sample_products());
    let m = compute_network_metrics(&g);
    assert_eq!(m.degree_sum, 2 * m.edge_count as u64);
}

#[test]
fn node_degree_counts_neighbours() {
    let g = build_graph(&sample_products());
    assert_eq!(node_degree(&g, 0), 2);
    assert_eq!(node_degree(&g, 3), 1);
}

#[test]
fn degree_distribution_counts_nodes_by_degree() {
    let g = build_graph(&sample_products());
    let dist = compute_degree_distribution(&g);
    let mut expected = BTreeMap::new();
    expected.insert(1, 2);
    expected.insert(2, 3);
    assert_eq!(dist, expected);
    assert_eq!(dist.values().sum::<usize>(), g.node_count());
}

#[test]
fn degree_distribution_with_isolated_nodes() {
    let g = build_graph(&[product("A", &[]), product("B", &[])]);
    let dist = compute_degree_distribution(&g);
    assert_eq!(dist.len(), 1);
    assert_eq!(dist[&0], 2);
}

#[test]
fn communities_are_components_largest_first() {
    let g = build_graph(&sample_products());
    let cs = detect_communities(&g, 10, 1);
    assert_eq!(cs.len(), 2);
    assert_eq!(cs[0].id, 0);
    assert_eq!(cs[0].nodes, vec!["A", "B", "C"]);
    assert_eq!(cs[0].size, 3);
    assert_eq!(cs[0].internal_edges, 3);
    assert!(cs[0].main_categories.is_empty());
    assert_eq!(cs[1].id, 1);
    assert_eq!(cs[1].nodes, vec!["D", "E"]);
    assert_eq!(cs[1].size, 2);
    assert_eq!(cs[1].internal_edges, 1);
}

#[test]
fn communities_respect_size_and_number() {
    let g = build_graph(&sample_products());
    let big = detect_communities(&g, 10, 3);
    assert_eq!(big.len(), 1);
    assert_eq!(big[0].size, 3);
    let one = detect_communities(&g, 1, 1);
    assert_eq!(one.len(), 1);
    assert_eq!(one[0].nodes, vec!["A", "B", "C"]);
    assert!(detect_communities(&g, 0, 1).is_empty());
    assert!(detect_communities(&g, 10, 4).is_empty());
}

#[test]
fn communities_tie_broken_by_smaller_node() {
    let products = vec![
        product("P", &[]),
        product("Q", &["R"]),
        product("R", &[]),
        product("S", &["T"]),
        product("T", &[]),
    ];
    let g = build_graph(&products);
    let cs = detect_communities(&g, 10, 2);
    assert_eq!(cs.len(), 2);
    assert_eq!(cs[0].nodes, vec!["Q", "R"]);
    assert_eq!(cs[1].nodes, vec!["S", "T"]);
}

#[test]
fn every_component_is_a_community_without_limits() {
    let g = build_graph(&sample_products());
    let m = compute_network_metrics(&g);
    let cs = detect_communities(&g, g.node_count(), 0);
    assert_eq!(cs.len(), m.connected_components);
}

#[test]
fn small_networks_fit_graph_indices() {
    let g = try_build_graph(&sample_products()).unwrap();
    assert_eq!(g.node_count(), 5);
    assert_eq!(g.edge_count(), 4);
    assert_eq!(try_build_graph(&[]).unwrap().node_count(), 0);
}

#[test]
fn network_ignores_order_repeats_and_unknown_entries() {
    let a = sample_products();
    let b = vec![
        product("A", &["C", "ZZ", "B", "C"]),
        product("B", &["X", "C", "A"]),
        product("C", &["C", "Q"]),
        product("D", &[]),
        product("E", &["D", "D"]),
    ];
    let ga = build_graph(&a);
    let gb = build_graph(&b);
    assert_eq!(ga.node_count(), gb.node_count());
    assert_eq!(ga.edge_count(), gb.edge_count());
    for x in 0..5 {
        for y in 0..5 {
            assert_eq!(joined(&ga, x, y), joined(&gb, x, y));
        }
    }
}

#[test]
fn community_sizes_add_up_to_node_count() {
    let g = build_graph(&sample_products());
    let cs = detect_communities(&g, g.node_count(), 1);
    assert_eq!(cs.iter().map(|c| c.size).sum::<usize>(), g.node_count());
}

#[test]
fn distribution_agrees_with_metrics() {
    let g = build_graph(&sample_products());
    let m = compute_network_metrics(&g);
    let dist = compute_degree_distribution(&g);
    assert_eq!(dist.keys().max(), Some(&m.max_degree));
    assert_eq!(dist.values().sum::<usize>(), m.node_count);
    let weighted: usize = dist.iter().map(|(k, c)| k * c).sum();
    assert_eq!(weighted as u64, m.degree_sum);
}
