use copurchase_network::analysis::detect_communities;
use copurchase_network::centrality::{calculate_centrality_measures, NodeCentrality};
use copurchase_network::graph::build_graph;
use copurchase_network::order::stable_order_desc;
use copurchase_network::product::Product;
use copurchase_network::report::{
    centrality_rows, dense_core_details, enrich_communities, get_top_products, main_categories,
};

fn product(asin: &str, title: Option<&str>, similar: &[&str], paths: &[&[&str]]) -> Product {
    Product {
        asin: asin.to_string(),
        title: title.map(|t| t.to_string()),
        categories: paths.iter().map(|p| p.iter().map(|s| s.to_string()).collect()).collect(),
        price: Some(0x4024000000000000),
        sales_rank: None,
        avg_rating: None,
        review_count: 0,
        similar: similar.iter().map(|s| s.to_string()).collect(),
    }
}

fn sample_products() -> Vec<Product> {
    vec![
        product("A", Some("Alpha"), &["B", "C"], &[&["Root", "Books"]]),
        product("B", None, &["A", "C"], &[&["Root", "Music"], &["Root", "Books"]]),
        product("C", Some("Gamma"), &[], &[&["Root", "Books"], &[]]),
        product("D", None, &["E"], &[]),
        product("E", None, &[], &[&["Toys"]]),
    ]
}

fn owned(v: &[&str]) -> Vec<String> {
    v.iter().map(|s| s.to_string()).collect()
}

#[test]
fn main_categories_counts_last_path_elements() {
    let ps = sample_products();
    let top = main_categories(&owned(&["A", "B", "C"]), &ps);
    assert_eq!(top, vec![("Books".to_string(), 3), ("Music".to_string(), 1)]);
}

#[test]
fn main_categories_skips_unknown_members() {
    let ps = sample_products();
    let top = main_categories(&owned(&["Z", "E", "D"]), &ps);
    assert_eq!(top, vec![("Toys".to_string(), 1)]);
    assert!(main_categories(&owned(&["D"]), &ps).is_empty());
}

#[test]
fn main_categories_keeps_five_most_frequent() {
    let ps = vec![
        product("A", None, &[], &[&["a"], &["b"], &["c"], &["d"], &["e"], &["f"]]),
        product("B", None, &[], &[&["f"], &["e"]]),
    ];
    let top = main_categories(&owned(&["A", "B"]), &ps);
    assert_eq!(
        top,
        vec![
            ("e".to_string(), 2),
            ("f".to_string(), 2),
            ("a".to_string(), 1),
            ("b".to_string(), 1),
            ("c".to_string(), 1),
        ]
    );
}

#[test]
fn enrich_communities_fills_main_categories() {
    let ps = sample_products();
    let g = build_graph(&ps);
    let cs = detect_communities(&g, 10, 1);
    let enriched = enrich_communities(&cs, &ps);
    assert_eq!(enriched.len(), 2);
    assert_eq!(enriched[0].nodes, cs[0].nodes);
    assert_eq!(enriched[0].size, 3);
    assert_eq!(enriched[0].main_categories, vec![("Books".to_string(), 3), ("Music".to_string(), 1)]);
    assert_eq!(enriched[1].main_categories, vec![("Toys".to_string(), 1)]);
}

#[test]
fn centrality_rows_sorted_by_degree_with_details() {
    let ps = sample_products();
    let g = build_graph(&ps);
    let cs = calculate_centrality_measures(&g);
    let rows = centrality_rows(&cs, &ps);
    let order: Vec<&str> = rows.iter().map(|r| r.asin.as_str()).collect();
    assert_eq!(order, vec!["A", "B", "C", "D", "E"]);
    assert_eq!(rows[0].title, "Alpha");
    assert_eq!(rows[0].category, "Books");
    assert_eq!(rows[1].title, "Unknown");
    assert_eq!(rows[1].category, "Music");
    assert_eq!(rows[3].category, "Unknown");
    assert_eq!(rows[4].category, "Toys");
    assert_eq!(rows[0].degree, 2);
    assert_eq!(rows[0].reachable, 3);
}

#[test]
fn centrality_rows_unknown_product() {
    let cs = vec![NodeCentrality { asin: "Q".to_string(), degree: 1, reachable: 1, distance_sum: 0 }];
    let rows = centrality_rows(&cs, &[]);
    assert_eq!(rows[0].title, "Unknown");
    assert_eq!(rows[0].category, "Unknown");
}

#[test]
fn top_products_by_degree() {
    let ps = sample_products();
    let cs = vec![
        NodeCentrality { asin: "D".to_string(), degree: 1, reachable: 2, distance_sum: 1 },
        NodeCentrality { asin: "A".to_string(), degree: 5, reachable: 3, distance_sum: 2 },
        NodeCentrality { asin: "C".to_string(), degree: 5, reachable: 3, distance_sum: 2 },
        NodeCentrality { asin: "Z".to_string(), degree: 3, reachable: 1, distance_sum: 0 },
    ];
    let top = get_top_products(&cs, &ps, 3);
    assert_eq!(
        top,
        vec![
            ("A".to_string(), "Alpha".to_string(), 5),
            ("C".to_string(), "Gamma".to_string(), 5),
            ("Z".to_string(), "Unknown".to_string(), 3),
        ]
    );
    assert_eq!(get_top_products(&cs, &ps, 10).len(), 4);
    assert!(get_top_products(&cs, &ps, 0).is_empty());
}

#[test]
fn dense_core_details_of_known_nodes() {
    let ps = sample_products();
    let details = dense_core_details(&owned(&["C", "Z", "D"]), &ps);
    assert_eq!(details.len(), 2);
    assert_eq!(details[0].asin, "C");
    assert_eq!(details[0].title, "Gamma");
    assert_eq!(details[0].category, "Books");
    assert_eq!(details[0].price.map(f64::from_bits), Some(10.0));
    assert_eq!(details[1].asin, "D");
    assert_eq!(details[1].title, "Unknown");
    assert_eq!(details[1].category, "Unknown");
}

#[test]
fn stable_order_by_decreasing_key() {
    assert_eq!(stable_order_desc(&vec![3, 1, 3, 2]), vec![0, 2, 3, 1]);
    assert!(stable_order_desc(&vec![]).is_empty());
    assert_eq!(stable_order_desc(&vec![0, 0, 0]), vec![0, 1, 2]);
}
