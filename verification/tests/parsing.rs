use copurchase_network::meta::{parse_amazon_meta, parse_meta_records};

const SAMPLE: &str = "# Full information about Amazon Share the Love products
Total items: 548552

Id:   0
ASIN: 0771044445
  discontinued product

Id:   1
ASIN: 0827229534
  title: Patterns of Preaching: A Sermon Sampler
  group: Book
  salesrank: 396585
  similar: 5  0804215715  156101074X  0687023955  0687074231  082721619X
  categories: 2
   |Books[283155]|Subjects[1000]|Religion & Spirituality[22]|Christianity[12290]|Clergy[12360]|Preaching[12368]
   |Books[283155]|Subjects[1000]|Religion & Spirituality[22]|Christianity[12290]|Clergy[12360]|Sermons[12370]
  reviews: total: 2  downloaded: 2  avg rating: 5
    2000-7-28  cutomer: A2JW67OY8U6HHK  rating: 5  votes:  10  helpful:   9
";

#[test]
fn parse_reads_one_product_per_asin_line() {
    let products = parse_amazon_meta(SAMPLE);
    assert_eq!(products.len(), 2);
    assert_eq!(products[0].asin, "0771044445");
    assert_eq!(products[1].asin, "0827229534");
}

#[test]
fn parse_reads_the_attributes_of_each_product() {
    let products = parse_amazon_meta(SAMPLE);
    let bare = &products[0];
    assert_eq!(bare.title, None);
    assert!(bare.categories.is_empty());
    assert!(bare.similar.is_empty());
    let p = &products[1];
    assert_eq!(p.title.as_deref(), Some("Patterns of Preaching: A Sermon Sampler"));
    assert_eq!(p.sales_rank, Some(396585));
    assert_eq!(
        p.similar,
        vec!["0804215715", "156101074X", "0687023955", "0687074231", "082721619X"]
    );
    assert_eq!(p.categories.len(), 2);
    assert_eq!(
        p.categories[0],
        vec![
            "Books[283155]",
            "Subjects[1000]",
            "Religion & Spirituality[22]",
            "Christianity[12290]",
            "Clergy[12360]",
            "Preaching[12368]"
        ]
    );
    assert_eq!(p.categories[1][5], "Sermons[12370]");
    assert_eq!(p.review_count, 2);
    assert_eq!(p.price, None);
    assert_eq!(p.avg_rating, None);
}

#[test]
fn parse_keeps_each_products_own_categories() {
    let text = "ASIN: A1\n  categories: 1\n   |Books[283155]|Fiction[17]\nASIN: A2\n  categories: 1\n   |Music[5174]|Jazz[34]\n";
    let v = parse_amazon_meta(text);
    assert_eq!(v.len(), 2);
    assert_eq!(v[0].asin, "A1");
    assert_eq!(v[0].categories, vec![vec!["Books[283155]", "Fiction[17]"]]);
    assert_eq!(v[1].asin, "A2");
    assert_eq!(v[1].categories, vec![vec!["Music[5174]", "Jazz[34]"]]);
}

#[test]
fn parse_reads_title_rank_and_similar() {
    let text = "Id:   1\nASIN: 0827229534\n  title: Patterns of Preaching\n  group: Book\n  salesrank: 396585\n  similar: 2  0804215715  156101074X\n";
    let v = parse_amazon_meta(text);
    assert_eq!(v.len(), 1);
    assert_eq!(v[0].asin, "0827229534");
    assert_eq!(v[0].title.as_deref(), Some("Patterns of Preaching"));
    assert_eq!(v[0].sales_rank, Some(396585));
    assert_eq!(v[0].similar, vec!["0804215715", "156101074X"]);
    assert_eq!(v[0].price, None);
}

#[test]
fn parse_reads_review_count_and_rating_text() {
    let text = "ASIN: B1\n  reviews: total: 2  downloaded: 2  avg rating: 4.5\n";
    let records = parse_meta_records(text);
    assert_eq!(records.len(), 1);
    assert_eq!(records[0].product.asin, "B1");
    assert_eq!(records[0].product.review_count, 2);
    assert_eq!(records[0].rating.as_deref(), Some("4.5"));
    assert_eq!(records[0].rating.as_deref().and_then(|t| t.parse::<f64>().ok()), Some(4.5));
}

#[test]
fn parse_bad_numbers() {
    let text = "ASIN: C1\n  salesrank: many\n  reviews: total: 2  downloaded: x  avg rating: 3\nASIN: C2\n  salesrank:\n  salesrank: +7\n";
    let v = parse_amazon_meta(text);
    assert_eq!(v[0].sales_rank, None);
    assert_eq!(v[0].review_count, 0);
    assert_eq!(v[1].sales_rank, Some(7));
}

#[test]
fn parse_ignores_untagged_and_early_lines() {
    let text = "  title: Nobody\nASIN: D1\ntitle: not indented\n   |  | Kids |\n  similar: 0\n";
    let v = parse_amazon_meta(text);
    assert_eq!(v.len(), 1);
    assert_eq!(v[0].title, None);
    assert_eq!(v[0].categories, vec![vec!["Kids"]]);
    assert!(v[0].similar.is_empty());
}

#[test]
fn parse_empty_text_gives_no_products() {
    assert!(parse_amazon_meta("").is_empty());
    assert!(parse_amazon_meta("\n\n   \n").is_empty());
}

#[test]
fn parse_asin_line_without_value_gives_empty_asin() {
    let products = parse_amazon_meta("ASIN:\n");
    assert_eq!(products.len(), 1);
    assert_eq!(products[0].asin, "");
}

#[test]
fn parse_trims_lines_and_carriage_returns() {
    let products = parse_amazon_meta("   ASIN:   B000  extra\r\nASIN: C111\r\n");
    assert_eq!(products.len(), 2);
    assert_eq!(products[0].asin, "B000");
    assert_eq!(products[1].asin, "C111");
}

#[test]
fn parse_takes_second_word_of_any_line_starting_with_asin() {
    let products = parse_amazon_meta("ASINX foo bar\nId: 3\nasin: lower\n");
    assert_eq!(products.len(), 1);
    assert_eq!(products[0].asin, "foo");
}

#[test]
fn parse_last_line_without_newline() {
    let products = parse_amazon_meta("ASIN: 1\nASIN: 2");
    assert_eq!(products.len(), 2);
    assert_eq!(products[1].asin, "2");
}
