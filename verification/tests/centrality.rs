use copurchase_network::categories::analyze_cross_category_connections;
use copurchase_network::centrality::calculate_centrality_measures;
use copurchase_network::densest::find_densest_subgraph;
use copurchase_network::graph::build_graph;
use copurchase_network::product::Product;

fn product(asin: &str, similar: &[&str], category: Option<&str>) -> Product {
    Product {
        asin: asin.to_string(),
        title: None,
        categories: match category {
            Some(c) => vec![vec!["Root".to_string(), c.to_string()]],
            None => Vec::new(),
        },
        price: None,
        sales_rank: None,
        avg_rating: None,
        review_count: 0,
        similar: similar.iter().map(|s| s.to_string()).collect(),
    }
}

fn sample_products() -> Vec<Product> {
    vec![
        product("A", &["B", "C"], Some("Books")),
        product("B", &["A", "C", "X"], Some("Music")),
        product("C", &["C"], Some("Books")),
        product("D", &[], Some("Music")),
        product("E", &["D"], None),
    ]
}

#[test]
fn cross_category_counts_links_between_different_categories() {
    let products = sample_products();
    let g = build_graph(&products);
    let links = analyze_cross_category_connections(&g, &products);
    assert_eq!(links, vec![("Books".to_string(), "Music".to_string(), 2)]);
}

#[test]
fn cross_category_orders_pairs_and_counts() {
    let products = vec![
        product("A", &["B", "C", "D"], Some("Toys")),
        product("B", &[], Some("Books")),
        product("C", &[], Some("Books")),
        product("D", &["E"], Some("Music")),
        product("E", &[], Some("Books")),
    ];
    let g = build_graph(&products);
    let links = analyze_cross_category_connections(&g, &products);
    assert_eq!(links.len(), 3);
    assert_eq!(links[0], ("Books".to_string(), "Toys".to_string(), 2));
    assert!(links.contains(&("Music".to_string(), "Toys".to_string(), 1)));
    assert!(links.contains(&("Books".to_string(), "Music".to_string(), 1)));
}

#[test]
fn cross_category_none_without_categories() {
    let products = vec![product("A", &["B"], None), product("B", &[], Some("Books"))];
    let g = build_graph(&products);
    assert!(analyze_cross_category_connections(&g, &products).is_empty());
}

#[test]
fn cross_category_later_product_sets_category() {
    let products = vec![
        product("A", &["B"], Some("Books")),
        product("B", &[], Some("Books")),
        product("B", &[], Some("Music")),
    ];
    let g = build_graph(&products);
    // The edge joins A to the last node of B; B's category is the later one.
    let links = analyze_cross_category_connections(&g, &products);
    assert_eq!(links, vec![("Books".to_string(), "Music".to_string(), 1)]);
}

#[test]
fn centrality_of_each_node() {
    let g = build_graph(&sample_products());
    let cs = calculate_centrality_measures(&g);
    assert_eq!(cs.len(), 5);
    let asins: Vec<&str> = cs.iter().map(|c| c.asin.as_str()).collect();
    assert_eq!(asins, vec!["A", "B", "C", "D", "E"]);
    assert_eq!(cs[0].degree, 2);
    assert_eq!(cs[0].reachable, 3);
    assert_eq!(cs[0].distance_sum, 2);
    assert_eq!(cs[3].degree, 1);
    assert_eq!(cs[3].reachable, 2);
    assert_eq!(cs[3].distance_sum, 1);
}

#[test]
fn centrality_on_a_path() {
    let products = vec![
        product("A", &["B"], None),
        product("B", &["C"], None),
        product("C", &[], None),
        product("Z", &[], None),
    ];
    let g = build_graph(&products);
    let cs = calculate_centrality_measures(&g);
    assert_eq!(cs[0].reachable, 3);
    assert_eq!(cs[0].distance_sum, 3);
    assert_eq!(cs[1].distance_sum, 2);
    assert_eq!(cs[3].reachable, 1);
    assert_eq!(cs[3].distance_sum, 0);
    assert_eq!(cs[3].degree, 0);
}

#[test]
fn centrality_keeps_last_node_of_repeated_asin() {
    let products = vec![product("A", &["B"], None), product("B", &[], None), product("A", &[], None)];
    let g = build_graph(&products);
    let cs = calculate_centrality_measures(&g);
    assert_eq!(cs.len(), 2);
    assert_eq!(cs[0].asin, "B");
    assert_eq!(cs[1].asin, "A");
    assert_eq!(cs[1].degree, 1);
}

#[test]
fn densest_core_is_the_triangle() {
    let g = build_graph(&sample_products());
    assert_eq!(find_densest_subgraph(&g), vec!["A", "B", "C"]);
}

#[test]
fn densest_core_empty_without_edges() {
    let g = build_graph(&[product("A", &[], None), product("B", &[], None)]);
    assert!(find_densest_subgraph(&g).is_empty());
    assert!(find_densest_subgraph(&build_graph(&[])).is_empty());
}

#[test]
fn densest_core_of_a_star_is_the_whole_star() {
    let products = vec![
        product("H", &["L1", "L2", "L3"], None),
        product("L1", &[], None),
        product("L2", &[], None),
        product("L3", &[], None),
    ];
    let g = build_graph(&products);
    // The whole star keeps 3 edges on 4 nodes; peeling a leaf leaves 2 on 3.
    assert_eq!(find_densest_subgraph(&g), vec!["H", "L1", "L2", "L3"]);
}

#[test]
fn densest_core_within_half_of_best_density() {
    // Two triangles sharing an edge (4 nodes, 5 edges) and a pendant path.
    let products = vec![
        product("A", &["B", "C"], None),
        product("B", &["C", "D"], None),
        product("C", &["D"], None),
        product("D", &["E"], None),
        product("E", &["F"], None),
        product("F", &[], None),
    ];
    let g = build_graph(&products);
    let core = find_densest_subgraph(&g);
    let idx: Vec<usize> = core.iter().map(|a| products.iter().position(|p| &p.asin == a).unwrap()).collect();
    let inside = g
        .edge_indices()
        .filter(|&e| {
            let (x, y) = g.edge_endpoints(e).unwrap();
            idx.contains(&x.index()) && idx.contains(&y.index())
        })
        .count();
    // The set {A, B, C, D} holds 5 edges on 4 nodes.
    assert!(2 * inside * 4 >= 5 * core.len());
    assert_eq!(core, vec!["A", "B", "C", "D"]);
}
