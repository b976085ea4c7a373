use copurchase_network::product::Product;
use copurchase_network::sample::{
    fill_candidates, grow_sample, sample_products, sample_with, SampleError,
};
use copurchase_network::synthetic::{co_purchase_links, generate_synthetic_dataset, synthetic_product};

fn product(asin: &str, similar: &[&str]) -> Product {
    Product {
        asin: asin.to_string(),
        title: None,
        categories: Vec::new(),
        price: None,
        sales_rank: None,
        avg_rating: None,
        review_count: 0,
        similar: similar.iter().map(|s| s.to_string()).collect(),
    }
}

fn chain() -> Vec<Product> {
    vec![
        product("P0", &["P1"]),
        product("P1", &["P2", "P0", "NONE"]),
        product("P2", &[]),
        product("P3", &[]),
    ]
}

fn asins(ps: &[Product]) -> Vec<String> {
    ps.iter().map(|p| p.asin.clone()).collect()
}

#[test]
fn grow_sample_follows_co_purchases_breadth_first() {
    let ps = chain();
    assert_eq!(grow_sample(&ps, 3, 0), vec![0, 1, 2]);
    assert_eq!(grow_sample(&ps, 10, 1), vec![1, 2, 0]);
    assert_eq!(grow_sample(&ps, 2, 1), vec![1, 2]);
}

#[test]
fn grow_sample_keeps_seed_even_for_size_zero() {
    assert_eq!(grow_sample(&chain(), 0, 3), vec![3]);
}

#[test]
fn grow_sample_reads_last_product_of_an_asin() {
    let ps = vec![product("A", &[]), product("B", &[]), product("A", &["B"])];
    // The seed is product 0, but the list followed is that of the last "A".
    assert_eq!(grow_sample(&ps, 5, 0), vec![0, 1]);
}

#[test]
fn fill_candidates_are_products_of_untaken_asins() {
    let ps = chain();
    assert_eq!(fill_candidates(&ps, 3, 0), vec![3]);
    assert_eq!(fill_candidates(&ps, 1, 0), vec![1, 2, 3]);
}

#[test]
fn sample_with_joins_grown_and_fill() {
    let ps = chain();
    let s = sample_with(&ps, 10, 0, &vec![3]);
    assert_eq!(asins(&s), vec!["P0", "P1", "P2", "P3"]);
    let t = sample_with(&ps, 1, 1, &vec![]);
    assert_eq!(asins(&t), vec!["P1"]);
}

#[test]
fn sample_products_grows_from_a_connected_product() {
    let ps = chain();
    let s = sample_products(&ps, 3).unwrap();
    let got = asins(&s);
    assert!(got == vec!["P0", "P1", "P2"] || got == vec!["P1", "P2", "P0"]);
    assert!(!s[0].similar.is_empty());
}

#[test]
fn sample_products_fills_up_a_short_sample() {
    let ps = chain();
    let s = sample_products(&ps, 10).unwrap();
    assert_eq!(s.len(), 4);
    assert_eq!(s[3].asin, "P3");
    assert!(s.len() <= 10);
}

#[test]
fn sample_products_fill_is_limited_to_what_is_wanted() {
    let mut ps = vec![product("S", &["T"]), product("T", &[])];
    for i in 0..20 {
        ps.push(product(&format!("X{}", i), &[]));
    }
    let s = sample_products(&ps, 5).unwrap();
    assert_eq!(s.len(), 5);
    assert_eq!(asins(&s[..2]), vec!["S", "T"]);
    for p in &s[2..] {
        assert!(p.asin.starts_with('X'));
    }
}

#[test]
fn sample_products_fails_without_co_purchases() {
    let ps = vec![product("A", &[]), product("B", &[])];
    assert_eq!(sample_products(&ps, 3).unwrap_err(), SampleError::NoConnectedProducts);
    assert_eq!(sample_products(&[], 3).unwrap_err(), SampleError::NoConnectedProducts);
}

#[test]
fn synthetic_product_fields() {
    let p = synthetic_product(12, 1, 7, 3);
    assert_eq!(p.asin, "A00000012");
    assert_eq!(p.title.as_deref(), Some("Product 12"));
    assert_eq!(p.categories, vec![vec!["Electronics".to_string()]]);
    assert_eq!(p.sales_rank, Some(7));
    assert_eq!(p.review_count, 3);
    assert_eq!(p.price, None);
    assert_eq!(p.avg_rating, None);
    assert!(p.similar.is_empty());
    assert_eq!(synthetic_product(123456789, 3, 1, 0).asin, "A123456789");
    assert_eq!(synthetic_product(0, 3, 1, 0).categories, vec![vec!["Movies & TV".to_string()]]);
}

#[test]
fn co_purchase_links_skip_self_and_repeats() {
    let names: Vec<String> = vec!["a".into(), "b".into(), "c".into()];
    assert_eq!(co_purchase_links(&names, 0, &vec![0, 1, 1, 2]), vec!["b", "c"]);
    assert!(co_purchase_links(&names, 2, &vec![2, 2]).is_empty());
    assert!(co_purchase_links(&names, 1, &vec![]).is_empty());
}

#[test]
fn synthetic_dataset_shape() {
    let ps = generate_synthetic_dataset(30);
    assert_eq!(ps.len(), 30);
    let names = ["Books", "Electronics", "Clothing", "Movies & TV", "Music"];
    for (i, p) in ps.iter().enumerate() {
        assert_eq!(p.asin, format!("A{:08}", i));
        assert_eq!(p.title, Some(format!("Product {}", i)));
        assert_eq!(p.categories.len(), 1);
        assert_eq!(p.categories[0].len(), 1);
        assert!(names.contains(&p.categories[0][0].as_str()));
        let rank = p.sales_rank.unwrap();
        assert!((1..100000).contains(&rank));
        assert!(p.review_count < 100);
        assert!(p.similar.len() >= 2 && p.similar.len() <= 4);
        for (k, s) in p.similar.iter().enumerate() {
            assert_ne!(s, &p.asin);
            assert!(ps.iter().any(|q| &q.asin == s));
            assert!(!p.similar[..k].contains(s));
        }
    }
}

#[test]
fn synthetic_dataset_empty() {
    assert!(generate_synthetic_dataset(0).is_empty());
}

#[test]
fn grow_sample_takes_each_asin_once() {
    let ps = vec![
        product("A", &["B", "B", "A", "C"]),
        product("B", &["A", "C"]),
        product("C", &["B"]),
        product("B", &["C", "A"]),
    ];
    let picked = grow_sample(&ps, 10, 0);
    assert_eq!(picked, vec![0, 3, 2]);
    let names: Vec<&str> = picked.iter().map(|&i| ps[i].asin.as_str()).collect();
    assert_eq!(names, vec!["A", "B", "C"]);
}

#[test]
fn synthetic_dataset_links_all_others_when_few() {
    let two = generate_synthetic_dataset(2);
    assert_eq!(two[0].similar, vec![two[1].asin.clone()]);
    assert_eq!(two[1].similar, vec![two[0].asin.clone()]);
    let one = generate_synthetic_dataset(1);
    assert!(one[0].similar.is_empty());
    let three = generate_synthetic_dataset(3);
    for p in &three {
        assert_eq!(p.similar.len(), 2);
    }
}
