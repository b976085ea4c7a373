//! Links between product categories.
//!
//! Each product has a main category: the last entry of its first category
//! path. Every edge of the network whose two ends have known, different main
//! categories links those two categories; the analysis counts the links of
//! each pair of categories.

use crate::graph::{NetworkGraph, graph_edge_count, graph_edge_list, graph_edges, graph_node_count, graph_node_weight, graph_nodes};
use crate::order::{is_rank_order, ranks_before, stable_order_desc};
use crate::product::{Product, ProductView, product_views};
use std::collections::HashMap;
use vstd::hash_map::StringHashMap;
use vstd::prelude::*;

verus! {

/// The main category of a product: the last entry of its first category
/// path, if there is one.
pub open spec fn main_category(p: ProductView) -> Option<Seq<char>> {
    if p.categories.len() > 0 && p.categories[0].len() > 0 {
        Some(p.categories[0].last())
    } else {
        None
    }
}

/// The main category of each ASIN, the products taken in order (a later
/// product with a main category replaces an earlier one with its ASIN).
pub open spec fn category_map(ps: Seq<ProductView>) -> Map<Seq<char>, Seq<char>>
    decreases ps.len(),
{
    if ps.len() == 0 {
        Map::empty()
    } else {
        let m = category_map(ps.drop_last());
        match main_category(ps.last()) {
            Some(c) => m.insert(ps.last().asin, c),
            None => m,
        }
    }
}

/// `String`'s order: lexicographic by code point.
pub open spec fn lex_less(a: Seq<char>, b: Seq<char>) -> bool
    decreases a.len(),
{
    if a.len() == 0 {
        b.len() > 0
    } else if b.len() == 0 {
        false
    } else if a[0] != b[0] {
        (a[0] as int) < (b[0] as int)
    } else {
        lex_less(a.drop_first(), b.drop_first())
    }
}

/// Of two different texts, exactly one comes first.
pub proof fn lemma_lex_total(a: Seq<char>, b: Seq<char>)
    ensures
        a != b ==> (lex_less(a, b) || lex_less(b, a)),
        !(lex_less(a, b) && lex_less(b, a)),
        !lex_less(a, a),
    decreases a.len(),
{
    if a.len() > 0 && b.len() > 0 {
        lemma_lex_total(a.drop_first(), b.drop_first());
        if a[0] == b[0] && a != b {
            assert(a.drop_first() != b.drop_first()) by {
                if a.drop_first() == b.drop_first() {
                    assert(a =~= seq![a[0]] + a.drop_first());
                    assert(b =~= seq![b[0]] + b.drop_first());
                }
            }
        }
        if a[0] != b[0] {
            assert((a[0] as int) != (b[0] as int));
        }
    } else if a.len() > 0 {
    } else if b.len() > 0 {
    } else {
        assert(a =~= b);
    }
    if a.len() > 0 {
        lemma_lex_total(a.drop_first(), a.drop_first());
    }
}

/// The categories at the two ends of an edge link `c1` and `c2`: both are
/// known, they differ, and they are `c1` and `c2` in some order.
pub open spec fn links_categories(
    weights: Seq<Seq<char>>,
    cm: Map<Seq<char>, Seq<char>>,
    e: (int, int),
    c1: Seq<char>,
    c2: Seq<char>,
) -> bool {
    let s = weights[e.0];
    let t = weights[e.1];
    &&& cm.contains_key(s)
    &&& cm.contains_key(t)
    &&& cm[s] != cm[t]
    &&& ((cm[s] == c1 && cm[t] == c2) || (cm[s] == c2 && cm[t] == c1))
}

/// The number of edges that link `c1` and `c2`.
pub open spec fn category_link_count(
    edges: Seq<(int, int)>,
    weights: Seq<Seq<char>>,
    cm: Map<Seq<char>, Seq<char>>,
    c1: Seq<char>,
    c2: Seq<char>,
) -> nat
    decreases edges.len(),
{
    if edges.len() == 0 {
        0
    } else {
        category_link_count(edges.drop_last(), weights, cm, c1, c2) + if links_categories(
            weights,
            cm,
            edges.last(),
            c1,
            c2,
        ) {
            1nat
        } else {
            0nat
        }
    }
}

proof fn lemma_link_count_bound(
    edges: Seq<(int, int)>,
    weights: Seq<Seq<char>>,
    cm: Map<Seq<char>, Seq<char>>,
    c1: Seq<char>,
    c2: Seq<char>,
)
    ensures
        category_link_count(edges, weights, cm, c1, c2) <= edges.len(),
    decreases edges.len(),
{
    if edges.len() > 0 {
        lemma_link_count_bound(edges.drop_last(), weights, cm, c1, c2);
    }
}

/// The main category of a product, if it has one.
fn product_main_category(p: &Product) -> (c: Option<&String>)
    ensures
        match c {
            Some(s) => main_category(p@) == Some(s@),
            None => main_category(p@) is None,
        },
{
    if p.categories.len() > 0 && p.categories[0].len() > 0 {
        let path = &p.categories[0];
        proof {
            assert(p@.categories[0] == path.deep_view());
        }
        Some(&path[path.len() - 1])
    } else {
        proof {
            if p@.categories.len() > 0 {
                assert(p@.categories[0] == p.categories@[0].deep_view());
            }
        }
        None
    }
}

/// The distinct main categories of the products, numbered in order of
/// first appearance, and the number of the main category of each ASIN.
fn category_index(products: &[Product]) -> (res: (Vec<String>, StringHashMap<usize>))
    ensures
        ({
            let (cats, asin_cat) = res;
            let cm = category_map(product_views(products@));
            &&& forall|a: int, b: int| 0 <= a < b < cats@.len() ==> (#[trigger] cats@[a])@ != (#[trigger] cats@[b])@
            &&& asin_cat@.dom() == cm.dom()
            &&& forall|s: Seq<char>|
                #[trigger] asin_cat@.contains_key(s) ==> asin_cat@[s] < cats@.len() && cats@[asin_cat@[s] as int]@ == cm[s]
        }),
{
    let ghost ps = product_views(products@);
    let mut cats: Vec<String> = Vec::new();
    let mut cat_ids: StringHashMap<usize> = StringHashMap::new();
    let mut asin_cat: StringHashMap<usize> = StringHashMap::new();
    for i in 0..products.len()
        invariant
            ps == product_views(products@),
            forall|a: int, b: int| 0 <= a < b < cats@.len() ==> (#[trigger] cats@[a])@ != (#[trigger] cats@[b])@,
            forall|c: Seq<char>|
                #[trigger] cat_ids@.contains_key(c) ==> cat_ids@[c] < cats@.len() && cats@[cat_ids@[c] as int]@ == c,
            forall|k: int| 0 <= k < cats@.len() ==> #[trigger] cat_ids@.contains_key(cats@[k]@),
            asin_cat@.dom() == category_map(ps.take(i as int)).dom(),
            forall|s: Seq<char>|
                #[trigger] asin_cat@.contains_key(s) ==> asin_cat@[s] < cats@.len() && cats@[asin_cat@[s] as int]@
                    == category_map(ps.take(i as int))[s],
    {
        let p = &products[i];
        proof {
            assert(ps.take(i + 1).drop_last() =~= ps.take(i as int));
            assert(ps.take(i + 1).last() == p@);
        }
        match product_main_category(p) {
            Some(c) => {
                let id = match cat_ids.get(c.as_str()) {
                    Some(id) => *id,
                    None => {
                        let id = cats.len();
                        let ghost before = cats@;
                        cats.push(c.clone());
                        cat_ids.insert(c.clone(), id);
                        proof {
                            assert forall|a: int, b: int| 0 <= a < b < cats@.len() implies (#[trigger] cats@[a])@ != (#[trigger] cats@[b])@ by {
                                if b == cats@.len() - 1 {
                                    assert(cats@[a] == before[a]);
                                    if cats@[a]@ == c@ {
                                        assert(cat_ids@.contains_key(before[a]@));
                                    }
                                } else {
                                    assert(cats@[a] == before[a]);
                                    assert(cats@[b] == before[b]);
                                }
                            }
                            assert forall|k: int| 0 <= k < cats@.len() implies #[trigger] cat_ids@.contains_key(cats@[k]@) by {
                                if k < before.len() {
                                    assert(cats@[k] == before[k]);
                                }
                            }
                        }
                        id
                    },
                };
                asin_cat.insert(p.asin.clone(), id);
            },
            None => {},
        }
    }
    proof {
        assert(ps.take(products@.len() as int) =~= ps);
    }
    (cats, asin_cat)
}

} // verus!

verus! {

/// Whether `a` comes before `b` in `String`'s order.
fn chars_less(a: &Vec<char>, b: &Vec<char>) -> (r: bool)
    ensures
        r == lex_less(a@, b@),
{
    let mut i: usize = 0;
    proof {
        assert(a@.skip(0) =~= a@);
        assert(b@.skip(0) =~= b@);
    }
    while i < a.len() && i < b.len() && a[i] == b[i]
        invariant
            i <= a@.len(),
            i <= b@.len(),
            lex_less(a@, b@) == lex_less(a@.skip(i as int), b@.skip(i as int)),
        decreases a.len() - i,
    {
        proof {
            assert(a@.skip(i as int).drop_first() =~= a@.skip(i + 1));
            assert(b@.skip(i as int).drop_first() =~= b@.skip(i + 1));
        }
        i = i + 1;
    }
    proof {
        if i < a.len() {
            assert(a@.skip(i as int)[0] == a@[i as int]);
        }
        if i < b.len() {
            assert(b@.skip(i as int)[0] == b@[i as int]);
        }
    }
    if i == a.len() {
        i < b.len()
    } else if i == b.len() {
        false
    } else {
        a[i] < b[i]
    }
}

} // verus!

verus! {

/// The chars of a string.
fn string_chars(s: &String) -> (res: Vec<char>)
    ensures
        res@ == s@,
{
    let text = s.as_str();
    let mut res: Vec<char> = Vec::new();
    for c in it: text.chars()
        invariant
            it.seq() == text@,
            res@ == text@.take(it.index() as int),
    {
        res.push(c);
    }
    res
}

/// The key of an ordered pair of category numbers.
pub open spec fn pair_key(lo: int, hi: int) -> int {
    lo * 0x1_0000_0000_0000_0000 + hi
}

fn pair_key_of(lo: usize, hi: usize) -> (k: u128)
    ensures
        k as int == pair_key(lo as int, hi as int),
{
    proof {
        assert(0 <= (lo as int) * 0x1_0000_0000_0000_0000 + (hi as int) < 0x1_0000_0000_0000_0000 * 0x1_0000_0000_0000_0000) by (nonlinear_arith)
            requires
                0 <= lo < 0x1_0000_0000_0000_0000,
                0 <= hi < 0x1_0000_0000_0000_0000,
        ;
    }
    (lo as u128) * 0x1_0000_0000_0000_0000u128 + (hi as u128)
}

proof fn lemma_pair_key_injective(a: int, b: int, c: int, d: int)
    requires
        0 <= b < 0x1_0000_0000_0000_0000,
        0 <= d < 0x1_0000_0000_0000_0000,
        pair_key(a, b) == pair_key(c, d),
    ensures
        a == c,
        b == d,
{
    assert(a == c && b == d) by (nonlinear_arith)
        requires
            0 <= b < 0x1_0000_0000_0000_0000,
            0 <= d < 0x1_0000_0000_0000_0000,
            a * 0x1_0000_0000_0000_0000 + b == c * 0x1_0000_0000_0000_0000 + d,
    ;
}

/// The pair counts gathered from the edges `edges`: each slot holds an
/// ordered pair of category numbers (smaller category first) with its
/// positive link count; no pair is held twice; `pair_slot` finds the slot of
/// each pair; and every linked pair has a slot.
#[verifier::opaque]
pub open spec fn slots_ok(
    slots: Seq<(usize, usize, usize)>,
    pair_slot: Map<u128, usize>,
    cv: Seq<Seq<char>>,
    edges: Seq<(int, int)>,
    weights: Seq<Seq<char>>,
    cm: Map<Seq<char>, Seq<char>>,
) -> bool {
    &&& slots.len() <= edges.len()
    &&& forall|s: int|
        0 <= s < slots.len() ==> {
            let (lo, hi, count) = #[trigger] slots[s];
            &&& lo < cv.len()
            &&& hi < cv.len()
            &&& lex_less(cv[lo as int], cv[hi as int])
            &&& count > 0
            &&& count == category_link_count(edges, weights, cm, cv[lo as int], cv[hi as int])
            &&& pair_slot.contains_key(pair_key(lo as int, hi as int) as u128)
            &&& pair_slot[pair_key(lo as int, hi as int) as u128] == s
        }
    &&& forall|s: int, t: int|
        0 <= s < t < slots.len() ==> !((#[trigger] slots[s]).0 == (#[trigger] slots[t]).0 && slots[s].1 == slots[t].1)
    &&& forall|key: u128|
        #[trigger] pair_slot.contains_key(key) ==> pair_slot[key] < slots.len() && pair_key(
            slots[pair_slot[key] as int].0 as int,
            slots[pair_slot[key] as int].1 as int,
        ) == key
    &&& forall|c1: Seq<char>, c2: Seq<char>|
        lex_less(c1, c2) && #[trigger] category_link_count(edges, weights, cm, c1, c2) > 0 ==> exists|s: int|
            0 <= s < slots.len() && cv[(#[trigger] slots[s]).0 as int] == c1 && cv[slots[s].1 as int] == c2
}

/// No two category numbers name the same category.
pub open spec fn distinct_names(cv: Seq<Seq<char>>) -> bool {
    forall|a: int, b: int| 0 <= a < b < cv.len() ==> #[trigger] cv[a] != #[trigger] cv[b]
}

/// Two category numbers name the same category only if they are equal.
proof fn lemma_distinct_names(cv: Seq<Seq<char>>, a: int, b: int)
    requires
        distinct_names(cv),
        0 <= a < cv.len(),
        0 <= b < cv.len(),
        cv[a] == cv[b],
    ensures
        a == b,
{
    if a < b {
        assert(cv[a] != cv[b]);
    } else if b < a {
        assert(cv[b] != cv[a]);
    }
}

/// Counts one more edge, whose ends have the category numbers `a` and `b`
/// (where known).
#[verifier::rlimit(80)]
fn count_edge(
    slots: &mut Vec<(usize, usize, usize)>,
    pair_slot: &mut HashMap<u128, usize>,
    cat_chars: &Vec<Vec<char>>,
    a: Option<usize>,
    b: Option<usize>,
    Ghost(cv): Ghost<Seq<Seq<char>>>,
    Ghost(pre): Ghost<Seq<(int, int)>>,
    Ghost(e): Ghost<(int, int)>,
    Ghost(weights): Ghost<Seq<Seq<char>>>,
    Ghost(cm): Ghost<Map<Seq<char>, Seq<char>>>,
)
    requires
        slots_ok(old(slots)@, old(pair_slot)@, cv, pre, weights, cm),
        pre.len() < u32::MAX,
        distinct_names(cv),
        cat_chars@.len() == cv.len(),
        forall|j: int| 0 <= j < cv.len() ==> (#[trigger] cat_chars@[j])@ == cv[j],
        a is Some <==> cm.contains_key(weights[e.0]),
        a matches Some(x) ==> x < cv.len() && cv[x as int] == cm[weights[e.0]],
        b is Some <==> cm.contains_key(weights[e.1]),
        b matches Some(y) ==> y < cv.len() && cv[y as int] == cm[weights[e.1]],
    ensures
        slots_ok(final(slots)@, final(pair_slot)@, cv, pre.push(e), weights, cm),
{
    broadcast use vstd::std_specs::hash::group_hash_axioms;

    reveal(slots_ok);
    let ghost post = pre.push(e);
    proof {
        assert(post.drop_last() =~= pre);
        assert(post.last() == e);
    }
    let mut linked = false;
    if let (Some(a), Some(b)) = (a, b) {
        if a != b {
            linked = true;
            let a_first = chars_less(&cat_chars[a], &cat_chars[b]);
            let (lo, hi) = if a_first { (a, b) } else { (b, a) };
            let ghost clo = cv[lo as int];
            let ghost chi = cv[hi as int];
            proof {
                lemma_lex_total(cv[a as int], cv[b as int]);
                if cv[a as int] == cv[b as int] {
                    lemma_distinct_names(cv, a as int, b as int);
                }
                assert(lex_less(clo, chi));
                assert forall|c1: Seq<char>, c2: Seq<char>| lex_less(c1, c2) implies
                    #[trigger] links_categories(weights, cm, e, c1, c2) == (c1 == clo && c2 == chi) by {
                    lemma_lex_total(c1, c2);
                    lemma_lex_total(clo, chi);
                }
            }
            let key = pair_key_of(lo, hi);
            let ghost old_slots = slots@;
            match pair_slot.get(&key) {
                Some(s) => {
                    let s = *s;
                    let (l0, h0, c0) = slots[s];
                    proof {
                        lemma_pair_key_injective(l0 as int, h0 as int, lo as int, hi as int);
                        lemma_link_count_bound(pre, weights, cm, clo, chi);
                    }
                    slots.set(s, (l0, h0, c0 + 1));
                },
                None => {
                    let idx = slots.len();
                    slots.push((lo, hi, 1));
                    pair_slot.insert(key, idx);
                    proof {
                        assert forall|t: int| 0 <= t < old_slots.len() implies
                            !((#[trigger] old_slots[t]).0 == lo && old_slots[t].1 == hi) by {
                            if old_slots[t].0 == lo && old_slots[t].1 == hi {
                                assert(old(pair_slot)@.contains_key(key));
                            }
                        }
                    }
                },
            }
            proof {
                assert forall|s: int| 0 <= s < slots@.len() implies {
                    let (l, h, count) = #[trigger] slots@[s];
                    &&& l < cv.len()
                    &&& h < cv.len()
                    &&& lex_less(cv[l as int], cv[h as int])
                    &&& count > 0
                    &&& count == category_link_count(post, weights, cm, cv[l as int], cv[h as int])
                    &&& pair_slot@.contains_key(pair_key(l as int, h as int) as u128)
                    &&& pair_slot@[pair_key(l as int, h as int) as u128] == s
                } by {
                    let (l, h, count) = slots@[s];
                    if s < old_slots.len() {
                        let (l1, h1, c1) = old_slots[s];
                        assert(l1 == l && h1 == h);
                        if !(l == lo && h == hi) {
                            if cv[l as int] == clo && cv[h as int] == chi {
                                lemma_distinct_names(cv, l as int, lo as int);
                                lemma_distinct_names(cv, h as int, hi as int);
                            }
                            assert(!links_categories(weights, cm, e, cv[l as int], cv[h as int]));
                            if pair_key(l as int, h as int) == pair_key(lo as int, hi as int) {
                                lemma_pair_key_injective(l as int, h as int, lo as int, hi as int);
                            }
                        }
                    }
                }
                assert forall|s: int, t: int|
                    0 <= s < t < slots@.len() implies !((#[trigger] slots@[s]).0 == (#[trigger] slots@[t]).0 && slots@[s].1 == slots@[t].1) by {
                    assert(slots@[s].0 == old_slots[s].0 && slots@[s].1 == old_slots[s].1);
                    if t < old_slots.len() {
                        assert(slots@[t].0 == old_slots[t].0 && slots@[t].1 == old_slots[t].1);
                    }
                }
                assert forall|k: u128| #[trigger] pair_slot@.contains_key(k) implies pair_slot@[k] < slots@.len() && pair_key(
                    slots@[pair_slot@[k] as int].0 as int,
                    slots@[pair_slot@[k] as int].1 as int,
                ) == k by {
                    if k != key {
                        let s = pair_slot@[k] as int;
                        assert(slots@[s].0 == old_slots[s].0 && slots@[s].1 == old_slots[s].1);
                    }
                }
                assert forall|c1: Seq<char>, c2: Seq<char>|
                    lex_less(c1, c2) && #[trigger] category_link_count(post, weights, cm, c1, c2) > 0
                        implies exists|s: int|
                        0 <= s < slots@.len() && cv[(#[trigger] slots@[s]).0 as int] == c1 && cv[slots@[s].1 as int] == c2 by {
                    if c1 == clo && c2 == chi {
                        let s = pair_slot@[key as u128] as int;
                        lemma_pair_key_injective(slots@[s].0 as int, slots@[s].1 as int, lo as int, hi as int);
                    } else {
                        assert(!links_categories(weights, cm, e, c1, c2));
                        assert(category_link_count(pre, weights, cm, c1, c2) > 0);
                        let s = choose|s: int| 0 <= s < old_slots.len() && cv[(#[trigger] old_slots[s]).0 as int] == c1 && cv[old_slots[s].1 as int] == c2;
                        assert(slots@[s].0 == old_slots[s].0 && slots@[s].1 == old_slots[s].1);
                    }
                }
            }
        }
    }
    if !linked {
        proof {
            assert forall|c1: Seq<char>, c2: Seq<char>| !#[trigger] links_categories(weights, cm, e, c1, c2) by {
                if cm.contains_key(weights[e.0]) && cm.contains_key(weights[e.1]) && cm[weights[e.0]] != cm[weights[e.1]] {
                    assert(a is Some && b is Some);
                }
            }
            assert forall|c1: Seq<char>, c2: Seq<char>| #[trigger] category_link_count(post, weights, cm, c1, c2)
                == category_link_count(pre, weights, cm, c1, c2) by {
                assert(!links_categories(weights, cm, e, c1, c2));
            }
        }
    }
}

/// Analyzes the links between categories: for each pair of different main
/// categories that some edge links, the pair (the smaller category first, in
/// `String`'s order) with its number of linking edges; by decreasing count.
pub fn analyze_cross_category_connections(graph: &NetworkGraph, products: &[Product]) -> (links: Vec<
    (String, String, usize),
>)
    ensures
        forall|k: int|
            0 <= k < links@.len() ==> {
                let (c1, c2, count) = #[trigger] links@[k];
                &&& lex_less(c1@, c2@)
                &&& count > 0
                &&& count == category_link_count(
                    graph_edges(*graph),
                    graph_nodes(*graph),
                    category_map(product_views(products@)),
                    c1@,
                    c2@,
                )
            },
        forall|c1: Seq<char>, c2: Seq<char>|
            lex_less(c1, c2) && #[trigger] category_link_count(
                graph_edges(*graph),
                graph_nodes(*graph),
                category_map(product_views(products@)),
                c1,
                c2,
            ) > 0 ==> exists|k: int| 0 <= k < links@.len() && (#[trigger] links@[k]).0@ == c1 && links@[k].1@ == c2,
        forall|a: int, b: int|
            0 <= a < b < links@.len() ==> !((#[trigger] links@[a]).0@ == (#[trigger] links@[b]).0@ && links@[a].1@
                == links@[b].1@),
        forall|a: int, b: int|
            0 <= a < b < links@.len() ==> (#[trigger] links@[a]).2 >= (#[trigger] links@[b]).2,
{
    broadcast use vstd::std_specs::hash::group_hash_axioms;

    let ghost edges = graph_edges(*graph);
    let ghost weights = graph_nodes(*graph);
    let ghost cm = category_map(product_views(products@));
    let (cats, asin_cat) = category_index(products);
    let ghost cv = cats@.map_values(|s: String| s@);
    let mut cat_chars: Vec<Vec<char>> = Vec::new();
    for k in 0..cats.len()
        invariant
            cv == cats@.map_values(|s: String| s@),
            cat_chars@.len() == k,
            forall|j: int| 0 <= j < k ==> (#[trigger] cat_chars@[j])@ == cv[j],
    {
        cat_chars.push(string_chars(&cats[k]));
    }
    proof {
        assert forall|a: int, b: int| 0 <= a < b < cv.len() implies #[trigger] cv[a] != #[trigger] cv[b] by {
            assert(cats@[a]@ != cats@[b]@);
        }
    }
    let n = graph_node_count(graph);
    let list = graph_edge_list(graph);
    let m = graph_edge_count(graph);
    let mut slots: Vec<(usize, usize, usize)> = Vec::new();
    let mut pair_slot: HashMap<u128, usize> = HashMap::new();
    proof {
        reveal(slots_ok);
        assert(edges.take(0) =~= Seq::<(int, int)>::empty());
    }
    for e in 0..list.len()
        invariant
            edges == graph_edges(*graph),
            weights == graph_nodes(*graph),
            n == weights.len(),
            list@.len() == edges.len(),
            list@.len() == m,
            m <= u32::MAX,
            forall|k: int|
                0 <= k < list@.len() ==> (#[trigger] list@[k]).0 == edges[k].0 && list@[k].1 == edges[k].1,
            forall|k: int| 0 <= k < edges.len() ==> 0 <= #[trigger] edges[k].0 < n && 0 <= edges[k].1 < n,
            cv == cats@.map_values(|s: String| s@),
            distinct_names(cv),
            cat_chars@.len() == cv.len(),
            forall|j: int| 0 <= j < cv.len() ==> (#[trigger] cat_chars@[j])@ == cv[j],
            asin_cat@.dom() == cm.dom(),
            forall|s: Seq<char>|
                #[trigger] asin_cat@.contains_key(s) ==> asin_cat@[s] < cats@.len() && cats@[asin_cat@[s] as int]@ == cm[s],
            slots_ok(slots@, pair_slot@, cv, edges.take(e as int), weights, cm),
    {
        let (x, y) = list[e];
        proof {
            assert(edges.take(e + 1) =~= edges.take(e as int).push(edges[e as int]));
            assert(edges[e as int] == (x as int, y as int));
        }
        let a = match graph_node_weight(graph, x) {
            Some(w) => match asin_cat.get(w.as_str()) {
                Some(c) => Some(*c),
                None => None,
            },
            None => None,
        };
        let b = match graph_node_weight(graph, y) {
            Some(w) => match asin_cat.get(w.as_str()) {
                Some(c) => Some(*c),
                None => None,
            },
            None => None,
        };
        count_edge(
            &mut slots,
            &mut pair_slot,
            &cat_chars,
            a,
            b,
            Ghost(cv),
            Ghost(edges.take(e as int)),
            Ghost(edges[e as int]),
            Ghost(weights),
            Ghost(cm),
        );
    }
    proof {
        assert(edges.take(list@.len() as int) =~= edges);
        reveal(slots_ok);
    }
    // Order the pairs by decreasing count.
    let mut counts: Vec<usize> = Vec::new();
    for s in 0..slots.len()
        invariant
            counts@.len() == s,
            s <= slots@.len(),
            forall|t: int| 0 <= t < s ==> #[trigger] counts@[t] == slots@[t].2,
    {
        counts.push(slots[s].2);
    }
    let order = stable_order_desc(&counts);
    let mut links: Vec<(String, String, usize)> = Vec::new();
    for k in 0..order.len()
        invariant
            cv == cats@.map_values(|s: String| s@),
            is_rank_order(counts@, order@),
            counts@.len() == slots@.len(),
            forall|t: int| 0 <= t < slots@.len() ==> #[trigger] counts@[t] == slots@[t].2,
            forall|s: int| 0 <= s < slots@.len() ==> (#[trigger] slots@[s]).0 < cv.len() && slots@[s].1 < cv.len(),
            links@.len() == k,
            forall|j: int|
                0 <= j < k ==> {
                    let s = order@[j] as int;
                    &&& (#[trigger] links@[j]).0@ == cv[slots@[s].0 as int]
                    &&& links@[j].1@ == cv[slots@[s].1 as int]
                    &&& links@[j].2 == slots@[s].2
                },
    {
        let (lo, hi, count) = slots[order[k]];
        links.push((cats[lo].clone(), cats[hi].clone(), count));
    }
    proof {
        assert forall|a: int, b: int|
            0 <= a < b < links@.len() implies (#[trigger] links@[a]).2 >= (#[trigger] links@[b]).2 by {
            assert(ranks_before(counts@, order@[a] as int, order@[b] as int));
        }
        assert forall|a: int, b: int|
            0 <= a < b < links@.len() implies !((#[trigger] links@[a]).0@ == (#[trigger] links@[b]).0@ && links@[a].1@
                == links@[b].1@) by {
            let sa = order@[a] as int;
            let sb = order@[b] as int;
            assert(sa != sb);
            let (la, ha, _) = slots@[sa];
            let (lb, hb, _) = slots@[sb];
            if links@[a].0@ == links@[b].0@ && links@[a].1@ == links@[b].1@ {
                lemma_distinct_names(cv, la as int, lb as int);
                lemma_distinct_names(cv, ha as int, hb as int);
                if sa < sb {
                    assert(!(slots@[sa].0 == slots@[sb].0 && slots@[sa].1 == slots@[sb].1));
                } else {
                    assert(!(slots@[sb].0 == slots@[sa].0 && slots@[sb].1 == slots@[sa].1));
                }
            }
        }
        assert forall|c1: Seq<char>, c2: Seq<char>|
            lex_less(c1, c2) && #[trigger] category_link_count(edges, weights, cm, c1, c2) > 0
                implies exists|k: int| 0 <= k < links@.len() && (#[trigger] links@[k]).0@ == c1 && links@[k].1@ == c2 by {
            let s = choose|s: int| 0 <= s < slots@.len() && cv[(#[trigger] slots@[s]).0 as int] == c1 && cv[slots@[s].1 as int] == c2;
            assert(0 <= s < counts@.len());
            assert(order@.contains(s as usize));
            let k = choose|k: int| 0 <= k < order@.len() && order@[k] == s as usize;
            assert(links@[k].0@ == c1);
        }
    }
    links
}

} // verus!

verus! {

/// The category that the analysis counts for an ASIN is the last entry of
/// the first category path of the last product that carries the ASIN, when
/// that path is not empty (later paths do not matter).
pub proof fn lemma_category_from_first_path(ps: Seq<ProductView>, i: int)
    requires
        0 <= i < ps.len(),
        ps[i].categories.len() > 0,
        ps[i].categories[0].len() > 0,
        forall|j: int| i < j < ps.len() ==> #[trigger] ps[j].asin != ps[i].asin,
    ensures
        category_map(ps).contains_key(ps[i].asin),
        category_map(ps)[ps[i].asin] == ps[i].categories[0][ps[i].categories[0].len() - 1],
    decreases ps.len(),
{
    if i < ps.len() - 1 {
        let rest = ps.drop_last();
        assert forall|j: int| i < j < rest.len() implies #[trigger] rest[j].asin != rest[i].asin by {
            assert(rest[j] == ps[j]);
        }
        lemma_category_from_first_path(rest, i);
        assert(ps.last() == ps[ps.len() - 1]);
    } else {
        assert(ps.last() == ps[i]);
    }
}

} // verus!
