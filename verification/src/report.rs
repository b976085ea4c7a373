//! The tables that the analysis reports: products looked up by ASIN, the
//! main categories of each community, the centrality table, the details of
//! the dense core, the top products by degree, and the summary.

use crate::analysis::{Community, NetworkMetrics};
use crate::centrality::NodeCentrality;
use crate::order::{is_rank_order, ranks_before, stable_order_desc};
use crate::product::{
    Product, ProductView, asin_positions, copy_strings, asins_of, last_positions, lemma_last_positions,
    positions_match, product_views,
};
use vstd::hash_map::StringHashMap;
use vstd::prelude::*;

verus! {

/// The product that a lookup by ASIN finds: the last one that carries it.
pub open spec fn product_for(ps: Seq<ProductView>, asin: Seq<char>) -> Option<ProductView> {
    let pos = last_positions(asins_of(ps));
    if pos.contains_key(asin) {
        Some(ps[pos[asin]])
    } else {
        None
    }
}

/// The text reported where a product or its field is missing.
pub open spec fn unknown() -> Seq<char> {
    "Unknown"@
}

/// The title of a looked-up product, or "Unknown".
pub open spec fn title_of(p: Option<ProductView>) -> Seq<char> {
    match p {
        Some(q) => match q.title {
            Some(t) => t,
            None => unknown(),
        },
        None => unknown(),
    }
}

/// The main category of a looked-up product (the last element of its first
/// category path), or "Unknown".
pub open spec fn category_of(p: Option<ProductView>) -> Seq<char> {
    match p {
        Some(q) => if q.categories.len() > 0 && q.categories[0].len() > 0 {
            q.categories[0].last()
        } else {
            unknown()
        },
        None => unknown(),
    }
}

/// "Unknown".
fn unknown_text() -> (s: String)
    ensures
        s@ == unknown(),
{
    "Unknown".to_owned()
}

/// Looks up the product of an ASIN (the last one that carries it).
fn lookup<'a>(products: &'a [Product], positions: &StringHashMap<usize>, asin: &String) -> (p: Option<
    &'a Product,
>)
    requires
        positions_match(positions@, last_positions(asins_of(product_views(products@)))),
    ensures
        product_for(product_views(products@), asin@) == match p {
            Some(q) => Some(q@),
            None => None::<ProductView>,
        },
{
    let ghost keys = asins_of(product_views(products@));
    proof {
        lemma_last_positions(keys);
    }
    match positions.get(asin.as_str()) {
        Some(i) => {
            let i = *i;
            proof {
                assert(0 <= last_positions(keys)[asin@] < keys.len());
            }
            Some(&products[i])
        },
        None => None,
    }
}

/// The title of a looked-up product, or "Unknown".
fn title_text(p: Option<&Product>) -> (s: String)
    ensures
        s@ == title_of(
            match p {
                Some(q) => Some(q@),
                None => None::<ProductView>,
            },
        ),
{
    match p {
        Some(q) => match &q.title {
            Some(t) => t.clone(),
            None => unknown_text(),
        },
        None => unknown_text(),
    }
}

/// The main category of a looked-up product, or "Unknown".
fn category_text(p: Option<&Product>) -> (s: String)
    ensures
        s@ == category_of(
            match p {
                Some(q) => Some(q@),
                None => None::<ProductView>,
            },
        ),
{
    match p {
        Some(q) => {
            if q.categories.len() > 0 && q.categories[0].len() > 0 {
                let path = &q.categories[0];
                proof {
                    assert(q@.categories[0] == path.deep_view());
                    assert(path.deep_view().last() == path@[path@.len() - 1]@);
                }
                path[path.len() - 1].clone()
            } else {
                proof {
                    if q@.categories.len() > 0 {
                        assert(q@.categories[0] == q.categories@[0].deep_view());
                    }
                }
                unknown_text()
            }
        },
        None => unknown_text(),
    }
}

/// The category labels of a product: the last element of each of its
/// non-empty category paths, in order.
pub open spec fn path_labels(paths: Seq<Seq<Seq<char>>>) -> Seq<Seq<char>>
    decreases paths.len(),
{
    if paths.len() == 0 {
        Seq::empty()
    } else {
        let prev = path_labels(paths.drop_last());
        if paths.last().len() > 0 {
            prev.push(paths.last().last())
        } else {
            prev
        }
    }
}

/// The category labels of a community with member ASINs `nodes`: those of
/// each member's product, member by member (a member that no product
/// carries gives none).
pub open spec fn community_labels(ps: Seq<ProductView>, nodes: Seq<Seq<char>>) -> Seq<Seq<char>>
    decreases nodes.len(),
{
    if nodes.len() == 0 {
        Seq::empty()
    } else {
        community_labels(ps, nodes.drop_last()) + match product_for(ps, nodes.last()) {
            Some(p) => path_labels(p.categories),
            None => Seq::empty(),
        }
    }
}

/// The test for being the label `c`.
pub open spec fn same_label(c: Seq<char>) -> spec_fn(Seq<char>) -> bool {
    |x: Seq<char>| x == c
}

/// How often `c` occurs among `labels`.
pub open spec fn label_count(labels: Seq<Seq<char>>, c: Seq<char>) -> nat {
    labels.filter(same_label(c)).len()
}

/// `top` lists the most frequent of `labels` with their counts: at most
/// five, no label twice, by non-increasing count; every label when fewer
/// than five are listed; and no unlisted label more frequent than the last
/// one listed.
pub open spec fn is_top_categories(labels: Seq<Seq<char>>, top: Seq<(Seq<char>, usize)>) -> bool {
    &&& top.len() <= 5
    &&& forall|k: int|
        0 <= k < top.len() ==> (#[trigger] top[k]).1 == label_count(labels, top[k].0) && top[k].1 > 0
    &&& forall|a: int, b: int| 0 <= a < b < top.len() ==> (#[trigger] top[a]).0 != (#[trigger] top[b]).0
    &&& forall|a: int, b: int| 0 <= a < b < top.len() ==> (#[trigger] top[a]).1 >= (#[trigger] top[b]).1
    &&& forall|x: Seq<char>|
        #[trigger] labels.contains(x) && (forall|k: int| 0 <= k < top.len() ==> top[k].0 != x) ==> top.len()
            == 5 && label_count(labels, x) <= top[4].1
}

/// The position of a string equal to `s` in `list`, if there is one.
fn position_of(list: &Vec<String>, s: &String) -> (r: Option<usize>)
    ensures
        match r {
            Some(j) => j < list@.len() && list@[j as int]@ == s@,
            None => !list.deep_view().contains(s@),
        },
{
    for k in 0..list.len()
        invariant
            !list.deep_view().take(k as int).contains(s@),
    {
        proof {
            assert(list.deep_view().take(k + 1) =~= list.deep_view().take(k as int).push(list@[k as int]@));
        }
        if list[k] == *s {
            return Some(k);
        }
    }
    proof {
        assert(list.deep_view().take(list.len() as int) =~= list.deep_view());
    }
    None
}

/// The category labels of a product.
fn product_labels(paths: &Vec<Vec<String>>, out: &mut Vec<String>)
    ensures
        final(out).deep_view() == old(out).deep_view() + path_labels(paths.deep_view()),
{
    let ghost start = out.deep_view();
    for k in 0..paths.len()
        invariant
            out.deep_view() == start + path_labels(paths.deep_view().take(k as int)),
    {
        proof {
            assert(paths.deep_view().take(k + 1).drop_last() =~= paths.deep_view().take(k as int));
            assert(paths.deep_view().take(k + 1).last() == paths@[k as int].deep_view());
        }
        let path = &paths[k];
        if path.len() > 0 {
            let ghost before = out.deep_view();
            out.push(path[path.len() - 1].clone());
            proof {
                assert(out.deep_view() =~= before.push(path@[path@.len() - 1]@));
                assert(path.deep_view().last() == path@[path@.len() - 1]@);
                assert(out.deep_view() =~= start + path_labels(paths.deep_view().take(k + 1)));
            }
        } else {
            proof {
                assert(path.deep_view().len() == 0);
            }
        }
    }
    proof {
        assert(paths.deep_view().take(paths.len() as int) =~= paths.deep_view());
    }
}

/// The category labels of the community with member ASINs `nodes`.
fn member_labels(products: &[Product], positions: &StringHashMap<usize>, nodes: &Vec<String>) -> (labels: Vec<String>)
    requires
        positions_match(positions@, last_positions(asins_of(product_views(products@)))),
    ensures
        labels.deep_view() == community_labels(product_views(products@), nodes.deep_view()),
{
    let ghost ps = product_views(products@);
    let mut labels: Vec<String> = Vec::new();
    for k in 0..nodes.len()
        invariant
            ps == product_views(products@),
            positions_match(positions@, last_positions(asins_of(ps))),
            labels.deep_view() == community_labels(ps, nodes.deep_view().take(k as int)),
    {
        proof {
            assert(nodes.deep_view().take(k + 1).drop_last() =~= nodes.deep_view().take(k as int));
            assert(nodes.deep_view().take(k + 1).last() == nodes@[k as int]@);
        }
        match lookup(products, positions, &nodes[k]) {
            Some(p) => {
                product_labels(&p.categories, &mut labels);
            },
            None => {
                proof {
                    assert(labels.deep_view() =~= labels.deep_view() + Seq::<Seq<char>>::empty());
                }
            },
        }
    }
    proof {
        assert(nodes.deep_view().take(nodes.len() as int) =~= nodes.deep_view());
    }
    labels
}

/// The distinct labels, in order of first occurrence, with how often each
/// occurs.
fn tally(labels: &Vec<String>) -> (res: (Vec<String>, Vec<usize>))
    ensures
        res.0@.len() == res.1@.len(),
        res.0.deep_view().no_duplicates(),
        forall|j: int|
            0 <= j < res.1@.len() ==> #[trigger] res.1@[j] == label_count(labels.deep_view(), res.0@[j]@)
                && res.1@[j] > 0,
        forall|w: int|
            0 <= w < labels@.len() ==> res.0.deep_view().contains(#[trigger] labels.deep_view()[w]),
{
    let ghost all = labels.deep_view();
    let mut names: Vec<String> = Vec::new();
    let mut counts: Vec<usize> = Vec::new();
    for t in 0..labels.len()
        invariant
            all == labels.deep_view(),
            names@.len() == counts@.len(),
            names.deep_view().no_duplicates(),
            forall|j: int|
                0 <= j < counts@.len() ==> #[trigger] counts@[j] == label_count(all.take(t as int), names@[j]@)
                    && 0 < counts@[j] <= t,
            forall|w: int| 0 <= w < t ==> names.deep_view().contains(#[trigger] all[w]),
    {
        let ghost pre = all.take(t as int);
        let ghost cur = all.take(t + 1);
        let ghost label = labels@[t as int]@;
        proof {
            assert(cur =~= pre.push(label));
            assert forall|x: Seq<char>| #[trigger] label_count(cur, x) == label_count(pre, x) + (if x
                == label {
                1nat
            } else {
                0nat
            }) by {
                pre.lemma_filter_push(label, same_label(x));
            }
        }
        let ghost old_names = names.deep_view();
        match position_of(&names, &labels[t]) {
            Some(j) => {
                counts.set(j, counts[j] + 1);
                proof {
                    assert(names.deep_view()[j as int] == names@[j as int]@);
                    assert forall|i: int| 0 <= i < counts@.len() implies #[trigger] counts@[i] == label_count(
                        cur,
                        names@[i]@,
                    ) && 0 < counts@[i] <= t + 1 by {
                        if i != j {
                            assert(names.deep_view()[i] == names@[i]@);
                            assert(names@[i]@ != label);
                        }
                    }
                    assert(names.deep_view()[j as int] == label);
                    assert(all[t as int] == label);
                }
            },
            None => {
                names.push(labels[t].clone());
                counts.push(1);
                proof {
                    assert(names.deep_view() =~= old_names.push(label));
                    assert forall|i: int| 0 <= i < counts@.len() implies #[trigger] counts@[i] == label_count(
                        cur,
                        names@[i]@,
                    ) && 0 < counts@[i] <= t + 1 by {
                        assert(names.deep_view()[i] == names@[i]@);
                        if i < counts@.len() - 1 {
                            assert(old_names[i] == names@[i]@);
                            assert(old_names.contains(names@[i]@));
                        } else {
                            assert(label_count(pre, label) == 0) by {
                                if label_count(pre, label) > 0 {
                                    let f = pre.filter(same_label(label));
                                    assert(f.contains(f[0]));
                                    pre.lemma_filter_contains_rev(same_label(label), f[0]);
                                }
                            }
                        }
                    }
                    assert forall|w: int| 0 <= w < t + 1 implies names.deep_view().contains(#[trigger] all[w]) by {
                        if w < t {
                            let x = all[w];
                            assert(old_names.contains(x));
                            let v = choose|v: int| 0 <= v < old_names.len() && old_names[v] == x;
                            assert(names.deep_view()[v] == x);
                        } else {
                            assert(all[w] == label);
                            assert(names.deep_view()[old_names.len() as int] == label);
                        }
                    }
                }
            },
        }
    }
    proof {
        assert(all.take(labels.len() as int) =~= all);
    }
    (names, counts)
}

/// The main categories of the community with member ASINs `nodes`: the
/// labels (last elements of the category paths of the members' products)
/// that occur most, with how often they occur; at most five, by
/// non-increasing count, equal counts in order of first occurrence.
pub fn main_categories(nodes: &Vec<String>, products: &[Product]) -> (top: Vec<(String, usize)>)
    ensures
        is_top_categories(community_labels(product_views(products@), nodes.deep_view()), top.deep_view()),
{
    let ghost ps = product_views(products@);
    let positions = asin_positions(products);
    let labels = member_labels(products, &positions, nodes);
    let ghost all = labels.deep_view();
    let (names, counts) = tally(&labels);
    let order = stable_order_desc(&counts);
    let m: usize = if names.len() < 5 {
        names.len()
    } else {
        5
    };
    let mut top: Vec<(String, usize)> = Vec::new();
    for k in 0..m
        invariant
            m <= names@.len(),
            m <= 5,
            m == names@.len() || m == 5,
            names@.len() == counts@.len(),
            is_rank_order(counts@, order@),
            top@.len() == k,
            forall|i: int|
                0 <= i < k ==> (#[trigger] top.deep_view()[i]).0 == names@[order@[i] as int]@ && top.deep_view()[i].1
                    == counts@[order@[i] as int],
    {
        let o = order[k];
        let ghost before = top.deep_view();
        top.push((names[o].clone(), counts[o]));
        proof {
            assert(top.deep_view() =~= before.push((names@[o as int]@, counts@[o as int])));
        }
    }
    proof {
        let t = top.deep_view();
        assert forall|a: int, b: int| 0 <= a < b < t.len() implies (#[trigger] t[a]).0 != (#[trigger] t[b]).0 by {
            assert(ranks_before(counts@, order@[a] as int, order@[b] as int));
            assert(names.deep_view()[order@[a] as int] == names@[order@[a] as int]@);
            assert(names.deep_view()[order@[b] as int] == names@[order@[b] as int]@);
        }
        assert forall|a: int, b: int| 0 <= a < b < t.len() implies (#[trigger] t[a]).1 >= (#[trigger] t[b]).1 by {
            assert(ranks_before(counts@, order@[a] as int, order@[b] as int));
        }
        assert forall|x: Seq<char>|
            #[trigger] all.contains(x) && (forall|k: int| 0 <= k < t.len() ==> t[k].0 != x) implies t.len() == 5
                && label_count(all, x) <= t[4].1 by {
            let u = choose|u: int| 0 <= u < all.len() && all[u] == x;
            assert(names.deep_view().contains(all[u]));
            let v = choose|v: int| 0 <= v < names.deep_view().len() && names.deep_view()[v] == x;
            assert(names.deep_view()[v] == names@[v]@);
            assert(order@.contains(v as usize));
            let w = choose|w: int| 0 <= w < order@.len() && order@[w] == v as usize;
            if w < m {
                assert(t[w].0 == x);
            }
            assert(ranks_before(counts@, order@[4] as int, order@[w] as int));
        }
    }
    top
}

/// `out` is `c` with its main categories filled in from the products.
pub open spec fn is_enriched(ps: Seq<ProductView>, c: Community, out: Community) -> bool {
    &&& out.id == c.id
    &&& out.nodes.deep_view() == c.nodes.deep_view()
    &&& out.size == c.size
    &&& out.internal_edges == c.internal_edges
    &&& is_top_categories(community_labels(ps, c.nodes.deep_view()), out.main_categories.deep_view())
}

/// The communities with their main categories filled in (see
/// `main_categories`).
pub fn enrich_communities(communities: &Vec<Community>, products: &[Product]) -> (out: Vec<Community>)
    ensures
        out@.len() == communities@.len(),
        forall|k: int|
            0 <= k < out@.len() ==> is_enriched(product_views(products@), communities@[k], #[trigger] out@[k]),
{
    let mut out: Vec<Community> = Vec::new();
    for k in 0..communities.len()
        invariant
            out@.len() == k,
            forall|i: int|
                0 <= i < k ==> is_enriched(product_views(products@), communities@[i], #[trigger] out@[i]),
    {
        let c = &communities[k];
        let top = main_categories(&c.nodes, products);
        out.push(Community {
            id: c.id,
            nodes: copy_strings(&c.nodes),
            size: c.size,
            internal_edges: c.internal_edges,
            main_categories: top,
        });
    }
    out
}

/// One row of the centrality table.
#[derive(Debug, Clone)]
pub struct CentralityRow {
    pub asin: String,
    /// The product's title, or "Unknown".
    pub title: String,
    /// The product's main category, or "Unknown".
    pub category: String,
    pub degree: usize,
    /// The number of nodes that the node reaches, itself included.
    pub reachable: usize,
    /// The sum of the shortest distances to those nodes.
    pub distance_sum: u128,
}

/// The degrees of a list of centralities.
pub open spec fn degrees_of(cs: Seq<NodeCentrality>) -> Seq<usize> {
    cs.map_values(|c: NodeCentrality| c.degree)
}

/// `row` reports centrality `c`, with its product's title and category.
pub open spec fn is_row_of(ps: Seq<ProductView>, c: NodeCentrality, row: CentralityRow) -> bool {
    &&& row.asin@ == c.asin@
    &&& row.title@ == title_of(product_for(ps, c.asin@))
    &&& row.category@ == category_of(product_for(ps, c.asin@))
    &&& row.degree == c.degree
    &&& row.reachable == c.reachable
    &&& row.distance_sum == c.distance_sum
}

/// The degrees of the centralities, as a vector.
fn degree_list(centrality: &Vec<NodeCentrality>) -> (keys: Vec<usize>)
    ensures
        keys@ == degrees_of(centrality@),
{
    let mut keys: Vec<usize> = Vec::new();
    for k in 0..centrality.len()
        invariant
            keys@ == degrees_of(centrality@).take(k as int),
    {
        keys.push(centrality[k].degree);
        proof {
            assert(degrees_of(centrality@).take(k + 1) =~= degrees_of(centrality@).take(k as int).push(
                centrality@[k as int].degree,
            ));
        }
    }
    proof {
        assert(degrees_of(centrality@).take(centrality@.len() as int) =~= degrees_of(centrality@));
    }
    keys
}

/// The centrality table: one row per centrality, with the title and main
/// category of its product ("Unknown" where there is none), by decreasing
/// degree, equal degrees in the order given.
pub fn centrality_rows(centrality: &Vec<NodeCentrality>, products: &[Product]) -> (rows: Vec<CentralityRow>)
    ensures
        rows@.len() == centrality@.len(),
        exists|order: Seq<usize>|
            is_rank_order(degrees_of(centrality@), order) && forall|k: int|
                0 <= k < rows@.len() ==> is_row_of(
                    product_views(products@),
                    centrality@[order[k] as int],
                    #[trigger] rows@[k],
                ),
{
    let ghost ps = product_views(products@);
    let positions = asin_positions(products);
    let keys = degree_list(centrality);
    let order = stable_order_desc(&keys);
    let mut rows: Vec<CentralityRow> = Vec::new();
    for k in 0..order.len()
        invariant
            ps == product_views(products@),
            positions_match(positions@, last_positions(asins_of(ps))),
            keys@ == degrees_of(centrality@),
            is_rank_order(keys@, order@),
            rows@.len() == k,
            forall|i: int| 0 <= i < k ==> is_row_of(ps, centrality@[order@[i] as int], #[trigger] rows@[i]),
    {
        let c = &centrality[order[k]];
        let p = lookup(products, &positions, &c.asin);
        rows.push(CentralityRow {
            asin: c.asin.clone(),
            title: title_text(p),
            category: category_text(p),
            degree: c.degree,
            reachable: c.reachable,
            distance_sum: c.distance_sum,
        });
    }
    rows
}

/// The top `n` products by degree: ASIN, title ("Unknown" where no product
/// carries the ASIN or it has no title) and degree, by decreasing degree,
/// equal degrees in the order given.
pub fn get_top_products(centrality: &Vec<NodeCentrality>, products: &[Product], n: usize) -> (top: Vec<
    (String, String, usize),
>)
    ensures
        top@.len() == if n < centrality@.len() {
            n as int
        } else {
            centrality@.len() as int
        },
        exists|order: Seq<usize>|
            is_rank_order(degrees_of(centrality@), order) && forall|k: int|
                0 <= k < top@.len() ==> {
                    let c = centrality@[order[k] as int];
                    &&& (#[trigger] top@[k]).0@ == c.asin@
                    &&& top@[k].1@ == title_of(product_for(product_views(products@), c.asin@))
                    &&& top@[k].2 == c.degree
                },
{
    let ghost ps = product_views(products@);
    let positions = asin_positions(products);
    let keys = degree_list(centrality);
    let order = stable_order_desc(&keys);
    let m = if n < order.len() {
        n
    } else {
        order.len()
    };
    let mut top: Vec<(String, String, usize)> = Vec::new();
    for k in 0..m
        invariant
            ps == product_views(products@),
            positions_match(positions@, last_positions(asins_of(ps))),
            keys@ == degrees_of(centrality@),
            is_rank_order(keys@, order@),
            m <= order@.len(),
            top@.len() == k,
            forall|i: int|
                0 <= i < k ==> {
                    let c = centrality@[order@[i] as int];
                    &&& (#[trigger] top@[i]).0@ == c.asin@
                    &&& top@[i].1@ == title_of(product_for(ps, c.asin@))
                    &&& top@[i].2 == c.degree
                },
    {
        let c = &centrality[order[k]];
        let p = lookup(products, &positions, &c.asin);
        top.push((c.asin.clone(), title_text(p), c.degree));
    }
    top
}

/// One node of the dense core, with its product's details.
#[derive(Debug, Clone)]
pub struct DenseNode {
    pub asin: String,
    /// The product's title, or "Unknown".
    pub title: String,
    /// The product's main category, or "Unknown".
    pub category: String,
    /// The product's price, as the bits of an `f64`.
    pub price: Option<u64>,
}

/// The ASINs among `nodes` that some product carries, in order.
pub open spec fn known_asins(ps: Seq<ProductView>, nodes: Seq<Seq<char>>) -> Seq<Seq<char>>
    decreases nodes.len(),
{
    if nodes.len() == 0 {
        Seq::empty()
    } else {
        let prev = known_asins(ps, nodes.drop_last());
        if product_for(ps, nodes.last()) is Some {
            prev.push(nodes.last())
        } else {
            prev
        }
    }
}

/// `d` gives the details of the product of `asin`.
pub open spec fn is_dense_node(ps: Seq<ProductView>, asin: Seq<char>, d: DenseNode) -> bool {
    &&& d.asin@ == asin
    &&& d.title@ == title_of(product_for(ps, asin))
    &&& d.category@ == category_of(product_for(ps, asin))
    &&& d.price == product_for(ps, asin).unwrap().price
}

/// The details of the nodes of the dense core that some product carries
/// (title, main category and price), in order.
pub fn dense_core_details(nodes: &Vec<String>, products: &[Product]) -> (out: Vec<DenseNode>)
    ensures
        out@.len() == known_asins(product_views(products@), nodes.deep_view()).len(),
        forall|k: int|
            0 <= k < out@.len() ==> is_dense_node(
                product_views(products@),
                known_asins(product_views(products@), nodes.deep_view())[k],
                #[trigger] out@[k],
            ),
{
    let ghost ps = product_views(products@);
    let positions = asin_positions(products);
    let mut out: Vec<DenseNode> = Vec::new();
    for k in 0..nodes.len()
        invariant
            ps == product_views(products@),
            positions_match(positions@, last_positions(asins_of(ps))),
            out@.len() == known_asins(ps, nodes.deep_view().take(k as int)).len(),
            forall|i: int|
                0 <= i < out@.len() ==> is_dense_node(
                    ps,
                    known_asins(ps, nodes.deep_view().take(k as int))[i],
                    #[trigger] out@[i],
                ),
    {
        proof {
            assert(nodes.deep_view().take(k + 1).drop_last() =~= nodes.deep_view().take(k as int));
            assert(nodes.deep_view().take(k + 1).last() == nodes@[k as int]@);
        }
        let asin = &nodes[k];
        let found = lookup(products, &positions, asin);
        match found {
            Some(p) => {
                let ghost before = out@;
                out.push(DenseNode {
                    asin: asin.clone(),
                    title: title_text(found),
                    category: category_text(found),
                    price: p.price,
                });
                proof {
                    assert forall|i: int| 0 <= i < out@.len() implies is_dense_node(
                        ps,
                        known_asins(ps, nodes.deep_view().take(k + 1))[i],
                        #[trigger] out@[i],
                    ) by {
                        if i < before.len() {
                            assert(out@[i] == before[i]);
                        }
                    }
                }
            },
            None => {},
        }
    }
    proof {
        assert(nodes.deep_view().take(nodes.len() as int) =~= nodes.deep_view());
    }
    out
}

/// The summary of an analysis.
#[derive(Debug, Clone)]
pub struct AnalysisResults {
    pub metrics: NetworkMetrics,
    /// The number of communities detected.
    pub communities: usize,
    /// The top products by degree: (ASIN, title, degree).
    pub top_products: Vec<(String, String, usize)>,
    /// The number of category pairs that co-purchases link.
    pub cross_category_count: usize,
    /// The number of nodes of the dense core.
    pub densest_subgraph_size: usize,
}

} // verus!
