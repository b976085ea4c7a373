//! The co-purchasing network, held in a `petgraph` undirected graph.
//!
//! A graph is described by two names: the sequence of its node weights
//! (`graph_nodes`) and the sequence of its edges as pairs of node
//! positions, in the order in which they were added (`graph_edges`).

use petgraph::algo::{connected_components, dijkstra};
use petgraph::graph::{Graph, NodeIndex};
use petgraph::visit::EdgeRef;
use petgraph::Undirected;
use crate::product::{Product, ProductView, asin_positions, asins_of, last_positions, lemma_last_positions, positions_match, product_views};
use vstd::prelude::*;

verus! {

#[verifier::external_type_specification]
#[verifier::external_body]
#[verifier::reject_recursive_types(N)]
#[verifier::reject_recursive_types(E)]
#[verifier::reject_recursive_types(Ty)]
#[verifier::reject_recursive_types(Ix)]
pub struct ExGraph<N, E, Ty, Ix>(Graph<N, E, Ty, Ix>);

#[verifier::external_type_specification]
#[verifier::external_body]
pub struct ExUndirected(Undirected);

/// The co-purchasing network: one node per product, weighted by its ASIN.
pub type NetworkGraph = Graph<String, (), Undirected>;

/// The node weights of a graph, by node position.
pub uninterp spec fn graph_nodes(g: NetworkGraph) -> Seq<Seq<char>>;

/// The edges of a graph, by edge position, each as (source, target).
pub uninterp spec fn graph_edges(g: NetworkGraph) -> Seq<(int, int)>;

/// `Graph::new_undirected`: a graph with no nodes and no edges.
#[verifier::external_body]
pub(crate) fn graph_new() -> (g: NetworkGraph)
    ensures
        graph_nodes(g) == Seq::<Seq<char>>::empty(),
        graph_edges(g) == Seq::<(int, int)>::empty(),
{
    Graph::new_undirected()
}

/// `Graph::node_count`: the number of nodes. `add_node` panics before the
/// count would pass `u32::MAX`, and `add_edge` panics on an endpoint that is
/// not a node, so the count bounds every edge endpoint.
#[verifier::external_body]
pub(crate) fn graph_node_count(g: &NetworkGraph) -> (n: usize)
    ensures
        n == graph_nodes(*g).len(),
        n <= u32::MAX,
        forall|k: int|
            0 <= k < graph_edges(*g).len() ==> 0 <= #[trigger] graph_edges(*g)[k].0 < n
                && 0 <= graph_edges(*g)[k].1 < n,
{
    g.node_count()
}

/// `Graph::edge_count`: the number of edges (`add_edge` panics before the
/// count would pass `u32::MAX`).
#[verifier::external_body]
pub(crate) fn graph_edge_count(g: &NetworkGraph) -> (m: usize)
    ensures
        m == graph_edges(*g).len(),
        m <= u32::MAX,
{
    g.edge_count()
}

/// `Graph::add_node`: appends a node with the given weight and returns its
/// position; the edges are unchanged.
#[verifier::external_body]
pub(crate) fn graph_add_node(g: &mut NetworkGraph, weight: String) -> (i: usize)
    requires
        graph_nodes(*old(g)).len() < u32::MAX,
    ensures
        i == graph_nodes(*old(g)).len(),
        graph_nodes(*final(g)) == graph_nodes(*old(g)).push(weight@),
        graph_edges(*final(g)) == graph_edges(*old(g)),
{
    g.add_node(weight).index()
}

/// `Graph::add_edge`: appends the edge (a, b); the nodes are unchanged.
#[verifier::external_body]
pub(crate) fn graph_add_edge(g: &mut NetworkGraph, a: usize, b: usize)
    requires
        a < graph_nodes(*old(g)).len(),
        b < graph_nodes(*old(g)).len(),
        graph_edges(*old(g)).len() < u32::MAX,
    ensures
        graph_nodes(*final(g)) == graph_nodes(*old(g)),
        graph_edges(*final(g)) == graph_edges(*old(g)).push((a as int, b as int)),
{
    g.add_edge(NodeIndex::new(a), NodeIndex::new(b), ());
}


/// `u` and `v` are the two ends of some edge (in either direction).
pub open spec fn adjacent(edges: Seq<(int, int)>, u: int, v: int) -> bool {
    exists|k: int|
        0 <= k < edges.len() && ((#[trigger] edges[k].0 == u && edges[k].1 == v) || (edges[k].0
            == v && edges[k].1 == u))
}

/// Step `k` of `p` follows an edge.
pub open spec fn walk_step(edges: Seq<(int, int)>, p: Seq<int>, k: int) -> bool {
    adjacent(edges, p[k], p[k + 1])
}

/// `p` is a walk: a non-empty sequence of nodes, each step along an edge.
pub open spec fn is_walk(edges: Seq<(int, int)>, p: Seq<int>) -> bool {
    &&& p.len() > 0
    &&& forall|k: int| 0 <= k < p.len() - 1 ==> #[trigger] walk_step(edges, p, k)
}

/// Some walk leads from `u` to `v` (every node reaches itself).
pub open spec fn reachable(edges: Seq<(int, int)>, u: int, v: int) -> bool {
    exists|p: Seq<int>| #[trigger] is_walk(edges, p) && p[0] == u && p.last() == v
}

/// The fewest steps of a walk from `s` to `v` is `d`.
pub open spec fn is_shortest_distance(edges: Seq<(int, int)>, s: int, v: int, d: int) -> bool {
    &&& exists|p: Seq<int>| #[trigger] is_walk(edges, p) && p[0] == s && p.last() == v && p.len() == d + 1
    &&& forall|p: Seq<int>| #[trigger] is_walk(edges, p) && p[0] == s && p.last() == v ==> p.len() >= d + 1
}

/// `r` is the smallest node of its connected component.
pub open spec fn is_component_root(edges: Seq<(int, int)>, r: int) -> bool {
    forall|j: int| 0 <= j < r ==> !#[trigger] reachable(edges, r, j)
}

/// The smallest node of each connected component of a graph with nodes
/// `0..n`, in increasing order: one entry per component.
pub open spec fn component_roots(n: nat, edges: Seq<(int, int)>) -> Seq<int> {
    Seq::new(n, |i: int| i).filter(|r: int| is_component_root(edges, r))
}

/// The neighbours of `a` as `Graph::neighbors` lists them: for each edge
/// touching `a`, its other end (a self-loop gives `a` once).
pub open spec fn neighbors_of(edges: Seq<(int, int)>, a: int) -> Seq<int>
    decreases edges.len(),
{
    if edges.len() == 0 {
        Seq::empty()
    } else {
        let e = edges.last();
        let rest = neighbors_of(edges.drop_last(), a);
        if e.0 == a {
            rest.push(e.1)
        } else if e.1 == a {
            rest.push(e.0)
        } else {
            rest
        }
    }
}

/// The positions of a list of node indices, as integers.
pub open spec fn as_ints(v: Seq<usize>) -> Seq<int> {
    v.map_values(|x: usize| x as int)
}

/// `Graph::node_weight`: the weight of node `i`.
#[verifier::external_body]
pub(crate) fn graph_node_weight(g: &NetworkGraph, i: usize) -> (w: Option<&String>)
    requires
        i < graph_nodes(*g).len(),
    ensures
        w is Some,
        w.unwrap()@ == graph_nodes(*g)[i as int],
{
    g.node_weight(NodeIndex::new(i))
}

/// `Graph::contains_edge`: whether an edge joins `a` and `b` (undirected).
#[verifier::external_body]
pub(crate) fn graph_contains_edge(g: &NetworkGraph, a: usize, b: usize) -> (r: bool)
    requires
        a < graph_nodes(*g).len(),
        b < graph_nodes(*g).len(),
    ensures
        r == adjacent(graph_edges(*g), a as int, b as int),
{
    g.contains_edge(NodeIndex::new(a), NodeIndex::new(b))
}

/// `Graph::neighbors`, collected: the neighbours of `a`, one per incident
/// edge (the order, which the documentation leaves open, is not stated).
#[verifier::external_body]
pub(crate) fn graph_neighbors(g: &NetworkGraph, a: usize) -> (res: Vec<usize>)
    requires
        a < graph_nodes(*g).len(),
    ensures
        as_ints(res@).to_multiset() == neighbors_of(graph_edges(*g), a as int).to_multiset(),
{
    g.neighbors(NodeIndex::new(a)).map(|n| n.index()).collect()
}

/// `Graph::edge_references`, collected: every edge as (source, target), in
/// edge order.
#[verifier::external_body]
pub(crate) fn graph_edge_list(g: &NetworkGraph) -> (res: Vec<(usize, usize)>)
    ensures
        res@.len() == graph_edges(*g).len(),
        forall|k: int|
            0 <= k < res@.len() ==> (#[trigger] res@[k]).0 == graph_edges(*g)[k].0 && res@[k].1
                == graph_edges(*g)[k].1,
{
    g.edge_references().map(|e| (e.source().index(), e.target().index())).collect()
}

/// `petgraph::algo::connected_components`: the number of connected
/// components.
#[verifier::external_body]
pub(crate) fn graph_connected_components(g: &NetworkGraph) -> (c: usize)
    ensures
        c == component_roots(graph_nodes(*g).len(), graph_edges(*g)).len(),
{
    connected_components(g)
}

/// `petgraph::algo::dijkstra` with every edge costing 1, collected: each node
/// reachable from `s` once, with the number of steps of a shortest walk to
/// it. The order of the entries (a hash map's) is not stated.
#[verifier::external_body]
pub(crate) fn graph_unit_distances(g: &NetworkGraph, s: usize) -> (res: Vec<(usize, usize)>)
    requires
        s < graph_nodes(*g).len(),
    ensures
        forall|i: int, j: int|
            0 <= i < j < res@.len() ==> (#[trigger] res@[i]).0 != (#[trigger] res@[j]).0,
        forall|i: int|
            0 <= i < res@.len() ==> (#[trigger] res@[i]).0 < graph_nodes(*g).len()
                && is_shortest_distance(graph_edges(*g), s as int, res@[i].0 as int, res@[i].1 as int),
        forall|v: int|
            0 <= v < graph_nodes(*g).len() && #[trigger] reachable(graph_edges(*g), s as int, v)
                ==> exists|i: int| 0 <= i < res@.len() && (#[trigger] res@[i]).0 == v,
{
    dijkstra(g, NodeIndex::new(s), None, |_| 1usize).into_iter().map(|(n, d)| (n.index(), d)).collect()
}

} // verus!

verus! {

/// No edge is a self-loop and no two edges join the same two nodes.
pub open spec fn is_simple(edges: Seq<(int, int)>) -> bool {
    &&& forall|k: int| 0 <= k < edges.len() ==> (#[trigger] edges[k]).0 != edges[k].1
    &&& forall|k: int, l: int|
        0 <= k < l < edges.len() ==> !same_link(#[trigger] edges[k], #[trigger] edges[l])
}

/// Two edges join the same two nodes.
pub open spec fn same_link(e: (int, int), f: (int, int)) -> bool {
    (e.0 == f.0 && e.1 == f.1) || (e.0 == f.1 && e.1 == f.0)
}

/// One co-purchase link of product `p` to the product with ASIN `s`, as
/// `build_graph` makes it: none to itself or to an unknown ASIN, and none
/// where the two nodes are already joined.
pub open spec fn link_step(
    edges: Seq<(int, int)>,
    pos: Map<Seq<char>, int>,
    p: ProductView,
    s: Seq<char>,
) -> Seq<(int, int)> {
    if s == p.asin || !pos.contains_key(s) {
        edges
    } else {
        let a = pos[p.asin];
        let b = pos[s];
        if adjacent(edges, a, b) {
            edges
        } else {
            edges.push((a, b))
        }
    }
}

/// The edges after the first `j` co-purchase entries of `p`.
pub open spec fn links_of(
    edges: Seq<(int, int)>,
    pos: Map<Seq<char>, int>,
    p: ProductView,
    j: int,
) -> Seq<(int, int)>
    decreases j,
{
    if j <= 0 {
        edges
    } else {
        link_step(links_of(edges, pos, p, j - 1), pos, p, p.similar[j - 1])
    }
}

/// The edges after the entries of the first `i` products.
pub open spec fn links_upto(ps: Seq<ProductView>, pos: Map<Seq<char>, int>, i: int) -> Seq<
    (int, int),
>
    decreases i,
{
    if i <= 0 {
        Seq::empty()
    } else {
        links_of(links_upto(ps, pos, i - 1), pos, ps[i - 1], ps[i - 1].similar.len() as int)
    }
}

/// The edges of the network built from a list of products.
pub open spec fn built_edges(ps: Seq<ProductView>) -> Seq<(int, int)> {
    links_upto(ps, last_positions(asins_of(ps)), ps.len() as int)
}

proof fn lemma_links_of_grows(edges: Seq<(int, int)>, pos: Map<Seq<char>, int>, p: ProductView, j: int, k: int)
    requires
        j <= k,
    ensures
        links_of(edges, pos, p, j).len() <= links_of(edges, pos, p, k).len(),
        edges.len() <= links_of(edges, pos, p, k).len(),
    decreases k,
{
    if k > 0 {
        if j < k {
            lemma_links_of_grows(edges, pos, p, j, k - 1);
        }
        lemma_links_of_grows(edges, pos, p, 0, k - 1);
    }
}

proof fn lemma_links_upto_grows(ps: Seq<ProductView>, pos: Map<Seq<char>, int>, i: int, k: int)
    requires
        i <= k,
    ensures
        links_upto(ps, pos, i).len() <= links_upto(ps, pos, k).len(),
    decreases k - i,
{
    if i < k {
        lemma_links_upto_grows(ps, pos, i, k - 1);
        lemma_links_of_grows(links_upto(ps, pos, k - 1), pos, ps[k - 1], 0, ps[k - 1].similar.len() as int);
    }
}

/// Builds the network (see `build_graph`), or gives up when its edges
/// would outgrow the graph's 32-bit indices.
fn build(products: &[Product]) -> (r: Option<NetworkGraph>)
    requires
        products@.len() <= u32::MAX,
    ensures
        r is Some <==> built_edges(product_views(products@)).len() <= u32::MAX,
        r is Some ==> graph_nodes(r.unwrap()) == asins_of(product_views(products@)),
        r is Some ==> graph_edges(r.unwrap()) == built_edges(product_views(products@)),
        r is Some ==> is_simple(graph_edges(r.unwrap())),
{
    let ghost ps = product_views(products@);
    let ghost keys = asins_of(ps);
    let ghost pos = last_positions(keys);
    let mut g = graph_new();
    let asin_to_node = asin_positions(products);
    for i in 0..products.len()
        invariant
            ps == product_views(products@),
            keys == asins_of(ps),
            products@.len() <= u32::MAX,
            graph_nodes(g) == keys.take(i as int),
            graph_edges(g) == Seq::<(int, int)>::empty(),
    {
        let _ = graph_add_node(&mut g, products[i].asin.clone());
        proof {
            assert(keys.take(i + 1) =~= keys.take(i as int).push(products@[i as int].asin@));
        }
    }
    proof {
        assert(keys.take(products@.len() as int) =~= keys);
        lemma_last_positions(keys);
    }
    for i in 0..products.len()
        invariant
            ps == product_views(products@),
            keys == asins_of(ps),
            pos == last_positions(keys),
            positions_match(asin_to_node@, pos),
            graph_nodes(g) == keys,
            graph_edges(g) == links_upto(ps, pos, i as int),
            is_simple(graph_edges(g)),
            graph_edges(g).len() <= u32::MAX,
            forall|k: Seq<char>|
                #[trigger] pos.contains_key(k) ==> {
                    let x = pos[k];
                    &&& 0 <= x < keys.len()
                    &&& keys[x] == k
                },
    {
        let product = &products[i];
        let ghost start = links_upto(ps, pos, i as int);
        proof {
            assert(ps[i as int] == product@);
            assert(keys[i as int] == product.asin@);
            assert(pos.contains_key(product.asin@)) by {
                lemma_last_positions(keys);
            }
        }
        let source = match asin_to_node.get(product.asin.as_str()) {
            Some(s) => *s,
            None => 0,
        };
        for j in 0..product.similar.len()
            invariant
                ps == product_views(products@),
                keys == asins_of(ps),
                pos == last_positions(keys),
                positions_match(asin_to_node@, pos),
                product@ == ps[i as int],
                0 <= i < ps.len(),
                pos.contains_key(product.asin@),
                source as int == pos[product.asin@],
                start == links_upto(ps, pos, i as int),
                graph_nodes(g) == keys,
                graph_edges(g) == links_of(start, pos, ps[i as int], j as int),
                is_simple(graph_edges(g)),
                graph_edges(g).len() <= u32::MAX,
                forall|k: Seq<char>|
                    #[trigger] pos.contains_key(k) ==> {
                        let x = pos[k];
                        &&& 0 <= x < keys.len()
                        &&& keys[x] == k
                    },
        {
            let similar_asin = &product.similar[j];
            proof {
                assert(product@.similar[j as int] == similar_asin@);
            }
            if *similar_asin == product.asin {
            } else {
                match asin_to_node.get(similar_asin.as_str()) {
                    Some(t) => {
                        let target = *t;
                        if !graph_contains_edge(&g, source, target) {
                            if graph_edge_count(&g) >= 0xffff_ffff {
                                proof {
                                    lemma_links_of_grows(start, pos, ps[i as int], j + 1, ps[i as int].similar.len() as int);
                                    lemma_links_upto_grows(ps, pos, i + 1, ps.len() as int);
                                    assert(links_upto(ps, pos, i + 1) == links_of(start, pos, ps[i as int], ps[i as int].similar.len() as int));
                                    assert(links_of(start, pos, ps[i as int], j + 1).len() == graph_edges(g).len() + 1);
                                }
                                return None;
                            }
                            proof {
                                assert(source != target);
                            }
                            graph_add_edge(&mut g, source, target);
                            proof {
                                let e = graph_edges(g);
                                assert forall|k: int, l: int|
                                    0 <= k < l < e.len() implies !same_link(#[trigger] e[k], #[trigger] e[l]) by {
                                    if l == e.len() - 1 {
                                        if same_link(e[k], e[l]) {
                                            assert(adjacent(e.drop_last(), source as int, target as int));
                                        }
                                    } else {
                                        assert(e[k] == e.drop_last()[k]);
                                        assert(e[l] == e.drop_last()[l]);
                                    }
                                }
                            }
                        }
                    },
                    None => {},
                }
            }
        }
    }
    Some(g)
}

/// Builds the co-purchasing network: one node per product, weighted by its
/// ASIN, in product order; then, product by product and entry by entry, an
/// edge from the node of the product's ASIN to the node of each co-purchased
/// ASIN, skipping entries that name the product itself, ASINs with no
/// product, and pairs that are already joined. Where several products carry
/// one ASIN, its node is the last of them.
pub fn build_graph(products: &[Product]) -> (g: NetworkGraph)
    requires
        products@.len() <= u32::MAX,
        built_edges(product_views(products@)).len() <= u32::MAX,
    ensures
        graph_nodes(g) == asins_of(product_views(products@)),
        graph_edges(g) == built_edges(product_views(products@)),
        is_simple(graph_edges(g)),
{
    match build(products) {
        Some(g) => g,
        None => graph_new(),
    }
}

/// `build_graph` where the network fits the graph's 32-bit indices (at most
/// `u32::MAX` products and edges), and nothing otherwise (where the graph
/// library would panic).
pub fn try_build_graph(products: &[Product]) -> (r: Option<NetworkGraph>)
    ensures
        r is Some <==> (products@.len() <= u32::MAX && built_edges(product_views(products@)).len() <= u32::MAX),
        r is Some ==> graph_nodes(r.unwrap()) == asins_of(product_views(products@)),
        r is Some ==> graph_edges(r.unwrap()) == built_edges(product_views(products@)),
        r is Some ==> is_simple(graph_edges(r.unwrap())),
{
    if products.len() > 0xffff_ffff {
        return None;
    }
    build(products)
}

} // verus!

verus! {

/// The edges of `edges` that join two different nodes of `members`, in edge
/// order, each renumbered by the positions of its ends in `members` and
/// oriented from the smaller node of the whole graph to the larger.
pub open spec fn sub_edges(edges: Seq<(int, int)>, members: Seq<int>) -> Seq<(int, int)>
    decreases edges.len(),
{
    if edges.len() == 0 {
        Seq::empty()
    } else {
        let rest = sub_edges(edges.drop_last(), members);
        let e = edges.last();
        if e.0 != e.1 && members.contains(e.0) && members.contains(e.1) {
            if e.0 < e.1 {
                rest.push((members.index_of(e.0), members.index_of(e.1)))
            } else {
                rest.push((members.index_of(e.1), members.index_of(e.0)))
            }
        } else {
            rest
        }
    }
}

proof fn lemma_sub_edges_len(edges: Seq<(int, int)>, members: Seq<int>)
    ensures
        sub_edges(edges, members).len() <= edges.len(),
    decreases edges.len(),
{
    if edges.len() > 0 {
        lemma_sub_edges_len(edges.drop_last(), members);
    }
}

/// A list of distinct numbers below `n` has at most `n` entries.
pub proof fn lemma_distinct_below(s: Seq<int>, n: int)
    requires
        0 <= n,
        s.no_duplicates(),
        forall|k: int| 0 <= k < s.len() ==> 0 <= #[trigger] s[k] < n,
    ensures
        s.len() <= n,
{
    s.unique_seq_to_set();
    let r = vstd::set_lib::set_int_range(0, n);
    vstd::set_lib::lemma_int_range(0, n);
    assert forall|x: int| s.to_set().contains(x) implies r.contains(x) by {
        assert(s.contains(x));
        let k = choose|k: int| 0 <= k < s.len() && #[trigger] s[k] == x;
    }
    assert(s.to_set().subset_of(r));
    vstd::set_lib::lemma_len_subset(s.to_set(), r);
}

/// Extracts the subgraph on the given nodes (distinct positions of
/// `graph`): node `k` of the result carries the weight of `nodes[k]`, and
/// each edge of `graph` between two different given nodes appears once,
/// renumbered (see `sub_edges`).
pub fn extract_subgraph(graph: &NetworkGraph, nodes: &Vec<usize>) -> (sub: NetworkGraph)
    requires
        as_ints(nodes@).no_duplicates(),
        forall|k: int| 0 <= k < nodes@.len() ==> #[trigger] nodes@[k] < graph_nodes(*graph).len(),
    ensures
        graph_nodes(sub) == as_ints(nodes@).map_values(|x: int| graph_nodes(*graph)[x]),
        graph_edges(sub) == sub_edges(graph_edges(*graph), as_ints(nodes@)),
{
    let ghost members = as_ints(nodes@);
    let ghost weights = graph_nodes(*graph);
    let n = graph_node_count(graph);
    proof {
        lemma_distinct_below(members, n as int);
    }
    let mut slot: Vec<Option<usize>> = Vec::new();
    for x in 0..n
        invariant
            slot@.len() == x,
            forall|y: int| 0 <= y < x ==> slot@[y] is None,
    {
        slot.push(None);
    }
    let mut sub = graph_new();
    for k in 0..nodes.len()
        invariant
            members == as_ints(nodes@),
            weights == graph_nodes(*graph),
            n == weights.len(),
            members.no_duplicates(),
            nodes@.len() <= n <= u32::MAX,
            forall|j: int| 0 <= j < nodes@.len() ==> #[trigger] nodes@[j] < n,
            slot@.len() == n,
            forall|y: int|
                0 <= y < n ==> match #[trigger] slot@[y] {
                    Some(j) => 0 <= j < k && members[j as int] == y,
                    None => !members.take(k as int).contains(y),
                },
            graph_nodes(sub) == members.take(k as int).map_values(|x: int| weights[x]),
            graph_edges(sub) == Seq::<(int, int)>::empty(),
    {
        let x = nodes[k];
        let w = match graph_node_weight(graph, x) {
            Some(w) => w.clone(),
            None => String::new(),
        };
        let _ = graph_add_node(&mut sub, w);
        slot.set(x, Some(k));
        proof {
            assert(members[k as int] == x);
            assert(members.take(k + 1).map_values(|x: int| weights[x]) =~= members.take(
                k as int,
            ).map_values(|x: int| weights[x]).push(weights[x as int]));
            assert forall|y: int| 0 <= y < n implies match #[trigger] slot@[y] {
                Some(j) => 0 <= j < k + 1 && members[j as int] == y,
                None => !members.take(k + 1).contains(y),
            } by {
                if y != x {
                    if members.take(k + 1).contains(y) {
                        let j = choose|j: int| 0 <= j < k + 1 && #[trigger] members.take(k + 1)[j] == y;
                        assert(j != k);
                        assert(members.take(k as int)[j] == y);
                    }
                }
            }
        }
    }
    proof {
        assert(members.take(nodes@.len() as int) =~= members);
    }
    let edges = graph_edge_list(graph);
    let m = graph_edge_count(graph);
    for e in 0..edges.len()
        invariant
            members == as_ints(nodes@),
            weights == graph_nodes(*graph),
            n == weights.len(),
            members.no_duplicates(),
            edges@.len() == graph_edges(*graph).len(),
            edges@.len() == m,
            m <= u32::MAX,
            forall|k: int|
                0 <= k < edges@.len() ==> (#[trigger] edges@[k]).0 == graph_edges(*graph)[k].0
                    && edges@[k].1 == graph_edges(*graph)[k].1,
            forall|k: int|
                0 <= k < graph_edges(*graph).len() ==> 0 <= #[trigger] graph_edges(*graph)[k].0 < n
                    && 0 <= graph_edges(*graph)[k].1 < n,
            slot@.len() == n,
            forall|y: int|
                0 <= y < n ==> match #[trigger] slot@[y] {
                    Some(j) => 0 <= j < members.len() && members[j as int] == y,
                    None => !members.contains(y),
                },
            graph_nodes(sub) == members.map_values(|x: int| weights[x]),
            graph_edges(sub) == sub_edges(graph_edges(*graph).take(e as int), members),
    {
        let (x, y) = edges[e];
        let ghost pre = graph_edges(*graph).take(e as int);
        proof {
            assert(graph_edges(*graph).take(e + 1).drop_last() =~= pre);
            assert(graph_edges(*graph).take(e + 1).last() == (x as int, y as int));
            lemma_sub_edges_len(pre, members);
        }
        if x != y {
            match (slot[x], slot[y]) {
                (Some(a), Some(b)) => {
                    proof {
                        assert(members.contains(x as int));
                        assert(members.contains(y as int));
                        assert(members.index_of(x as int) == a) by {
                            let i = members.index_of(x as int);
                            assert(members[i] == x);
                        }
                        assert(members.index_of(y as int) == b) by {
                            let i = members.index_of(y as int);
                            assert(members[i] == y);
                        }
                    }
                    if x < y {
                        graph_add_edge(&mut sub, a, b);
                    } else {
                        graph_add_edge(&mut sub, b, a);
                    }
                },
                _ => {
                    proof {
                        assert(!(members.contains(x as int) && members.contains(y as int)));
                    }
                },
            }
        }
    }
    proof {
        assert(graph_edges(*graph).take(edges@.len() as int) =~= graph_edges(*graph));
    }
    sub
}

} // verus!

verus! {

/// Adjacency does not depend on the direction.
pub proof fn lemma_adjacent_symmetric(edges: Seq<(int, int)>, u: int, v: int)
    ensures
        adjacent(edges, u, v) == adjacent(edges, v, u),
{
    if adjacent(edges, u, v) {
        let k = choose|k: int|
            0 <= k < edges.len() && ((#[trigger] edges[k].0 == u && edges[k].1 == v) || (edges[k].0
                == v && edges[k].1 == u));
        assert(edges[k].0 == v && edges[k].1 == u || edges[k].0 == u && edges[k].1 == v);
    }
    if adjacent(edges, v, u) {
        let k = choose|k: int|
            0 <= k < edges.len() && ((#[trigger] edges[k].0 == v && edges[k].1 == u) || (edges[k].0
                == u && edges[k].1 == v));
        assert(edges[k].0 == v && edges[k].1 == u || edges[k].0 == u && edges[k].1 == v);
    }
}

/// Every node reaches itself.
pub proof fn lemma_reachable_refl(edges: Seq<(int, int)>, u: int)
    ensures
        reachable(edges, u, u),
{
    let p = seq![u];
    assert(is_walk(edges, p));
}

/// A walk can be extended by one more edge.
pub proof fn lemma_reachable_step(edges: Seq<(int, int)>, u: int, v: int, w: int)
    requires
        reachable(edges, u, v),
        adjacent(edges, v, w),
    ensures
        reachable(edges, u, w),
{
    let p = choose|p: Seq<int>| #[trigger] is_walk(edges, p) && p[0] == u && p.last() == v;
    let q = p.push(w);
    assert forall|k: int| 0 <= k < q.len() - 1 implies #[trigger] walk_step(edges, q, k) by {
        if k < p.len() - 1 {
            assert(walk_step(edges, p, k));
        }
    }
    assert(is_walk(edges, q));
}

/// Reachability goes both ways.
pub proof fn lemma_reachable_symmetric(edges: Seq<(int, int)>, u: int, v: int)
    requires
        reachable(edges, u, v),
    ensures
        reachable(edges, v, u),
{
    let p = choose|p: Seq<int>| #[trigger] is_walk(edges, p) && p[0] == u && p.last() == v;
    let q = p.reverse();
    assert forall|k: int| 0 <= k < q.len() - 1 implies #[trigger] walk_step(edges, q, k) by {
        let j = p.len() - 2 - k;
        assert(walk_step(edges, p, j));
        assert(q[k] == p[j + 1]);
        assert(q[k + 1] == p[j]);
        lemma_adjacent_symmetric(edges, p[j], p[j + 1]);
    }
    assert(is_walk(edges, q));
}

/// Reachability is transitive.
pub proof fn lemma_reachable_trans(edges: Seq<(int, int)>, u: int, v: int, w: int)
    requires
        reachable(edges, u, v),
        reachable(edges, v, w),
    ensures
        reachable(edges, u, w),
{
    let p = choose|p: Seq<int>| #[trigger] is_walk(edges, p) && p[0] == u && p.last() == v;
    let q = choose|q: Seq<int>| #[trigger] is_walk(edges, q) && q[0] == v && q.last() == w;
    let r = p + q.drop_first();
    assert forall|k: int| 0 <= k < r.len() - 1 implies #[trigger] walk_step(edges, r, k) by {
        if k < p.len() - 1 {
            assert(walk_step(edges, p, k));
        } else {
            let j = k - (p.len() - 1);
            assert(walk_step(edges, q, j));
            if j == 0 {
                assert(r[k] == p.last());
            } else {
                assert(r[k] == q[j]);
            }
            assert(r[k + 1] == q[j + 1]);
        }
    }
    assert(is_walk(edges, r));
    if q.len() == 1 {
        assert(r =~= p);
    } else {
        assert(r.last() == q.last());
    }
}

/// Whether `v` is listed among the neighbours of `a`.
pub proof fn lemma_neighbors_of_contains(edges: Seq<(int, int)>, a: int, v: int)
    ensures
        neighbors_of(edges, a).contains(v) == adjacent(edges, a, v),
    decreases edges.len(),
{
    if edges.len() > 0 {
        let rest = edges.drop_last();
        let e = edges.last();
        lemma_neighbors_of_contains(rest, a, v);
        let k = edges.len() - 1;
        if adjacent(rest, a, v) {
            let j = choose|j: int|
                0 <= j < rest.len() && ((#[trigger] rest[j].0 == a && rest[j].1 == v) || (rest[j].0
                    == v && rest[j].1 == a));
            assert(edges[j] == rest[j]);
        }
        if adjacent(edges, a, v) && !adjacent(rest, a, v) {
            let j = choose|j: int|
                0 <= j < edges.len() && ((#[trigger] edges[j].0 == a && edges[j].1 == v) || (edges[j].0
                    == v && edges[j].1 == a));
            if j < k {
                assert(rest[j] == edges[j]);
            }
        }
        let ns = neighbors_of(edges, a);
        let rs = neighbors_of(rest, a);
        if e.0 == a {
            assert(ns == rs.push(e.1));
            assert(ns[ns.len() - 1] == e.1);
            if rs.contains(v) {
                let i = choose|i: int| 0 <= i < rs.len() && rs[i] == v;
                assert(ns[i] == v);
            }
            if ns.contains(v) && v != e.1 {
                let i = choose|i: int| 0 <= i < ns.len() && ns[i] == v;
                assert(rs[i] == v);
            }
        } else if e.1 == a {
            assert(ns == rs.push(e.0));
            assert(ns[ns.len() - 1] == e.0);
            if rs.contains(v) {
                let i = choose|i: int| 0 <= i < rs.len() && rs[i] == v;
                assert(ns[i] == v);
            }
            if ns.contains(v) && v != e.0 {
                let i = choose|i: int| 0 <= i < ns.len() && ns[i] == v;
                assert(rs[i] == v);
            }
        }
    }
}

/// A node listed by `graph_neighbors` is a neighbour, and every neighbour is
/// listed.
pub proof fn lemma_listed_neighbors(edges: Seq<(int, int)>, a: int, listed: Seq<usize>, v: int)
    requires
        as_ints(listed).to_multiset() == neighbors_of(edges, a).to_multiset(),
    ensures
        as_ints(listed).contains(v) == adjacent(edges, a, v),
{
    broadcast use vstd::seq_lib::group_to_multiset_ensures;

    lemma_neighbors_of_contains(edges, a, v);
    assert(as_ints(listed).contains(v) == (as_ints(listed).to_multiset().count(v) > 0));
    assert(neighbors_of(edges, a).contains(v) == (neighbors_of(edges, a).to_multiset().count(v)
        > 0));
}

} // verus!

verus! {

/// Entry `t` of product `p`'s co-purchase list joins `a` and `b`: it names
/// a known ASIN other than the product's own, and the two nodes are `a` and
/// `b` (in either order).
pub open spec fn entry_joins(pos: Map<Seq<char>, int>, p: ProductView, t: int, a: int, b: int) -> bool {
    let s = p.similar[t];
    &&& s != p.asin
    &&& pos.contains_key(s)
    &&& same_link((pos[p.asin], pos[s]), (a, b))
}

/// Some entry of the first `i` products joins `a` and `b`.
pub open spec fn joined_by_entries(ps: Seq<ProductView>, pos: Map<Seq<char>, int>, i: int, a: int, b: int) -> bool {
    exists|q: int, t: int| 0 <= q < i && 0 <= t < ps[q].similar.len() && #[trigger] entry_joins(pos, ps[q], t, a, b)
}

proof fn lemma_adjacent_push(edges: Seq<(int, int)>, e: (int, int), a: int, b: int)
    ensures
        adjacent(edges.push(e), a, b) == (adjacent(edges, a, b) || same_link(e, (a, b))),
{
    let f = edges.push(e);
    if adjacent(edges, a, b) {
        let k = choose|k: int|
            0 <= k < edges.len() && ((#[trigger] edges[k].0 == a && edges[k].1 == b) || (edges[k].0 == b
                && edges[k].1 == a));
        assert(f[k] == edges[k]);
    }
    if same_link(e, (a, b)) {
        assert(f[edges.len() as int] == e);
    }
    if adjacent(f, a, b) && !same_link(e, (a, b)) {
        let k = choose|k: int|
            0 <= k < f.len() && ((#[trigger] f[k].0 == a && f[k].1 == b) || (f[k].0 == b && f[k].1 == a));
        assert(k < edges.len());
        assert(f[k] == edges[k]);
    }
}

proof fn lemma_links_of_adjacent(edges: Seq<(int, int)>, pos: Map<Seq<char>, int>, p: ProductView, j: int, a: int, b: int)
    requires
        0 <= j <= p.similar.len(),
    ensures
        adjacent(links_of(edges, pos, p, j), a, b) == (adjacent(edges, a, b) || exists|t: int|
            0 <= t < j && #[trigger] entry_joins(pos, p, t, a, b)),
    decreases j,
{
    if j > 0 {
        lemma_links_of_adjacent(edges, pos, p, j - 1, a, b);
        let prev = links_of(edges, pos, p, j - 1);
        let s = p.similar[j - 1];
        let ej = entry_joins(pos, p, j - 1, a, b);
        assert((exists|t: int| 0 <= t < j && #[trigger] entry_joins(pos, p, t, a, b)) == ((exists|t: int|
            0 <= t < j - 1 && #[trigger] entry_joins(pos, p, t, a, b)) || ej)) by {
            if exists|t: int| 0 <= t < j && #[trigger] entry_joins(pos, p, t, a, b) {
                let t = choose|t: int| 0 <= t < j && #[trigger] entry_joins(pos, p, t, a, b);
                if t < j - 1 {
                    assert(exists|u: int| 0 <= u < j - 1 && #[trigger] entry_joins(pos, p, u, a, b));
                }
            }
            if ej {
                assert(exists|u: int| 0 <= u < j && #[trigger] entry_joins(pos, p, u, a, b));
            }
            if exists|t: int| 0 <= t < j - 1 && #[trigger] entry_joins(pos, p, t, a, b) {
                let t = choose|t: int| 0 <= t < j - 1 && #[trigger] entry_joins(pos, p, t, a, b);
                assert(exists|u: int| 0 <= u < j && #[trigger] entry_joins(pos, p, u, a, b));
            }
        }
        if s != p.asin && pos.contains_key(s) {
            let x = pos[p.asin];
            let y = pos[s];
            if !adjacent(prev, x, y) {
                lemma_adjacent_push(prev, (x, y), a, b);
                assert(links_of(edges, pos, p, j) == prev.push((x, y)));
            } else {
                assert(links_of(edges, pos, p, j) == prev);
                if ej {
                    lemma_adjacent_symmetric(prev, x, y);
                }
            }
        } else {
            assert(links_of(edges, pos, p, j) == prev);
            assert(!ej);
        }
    }
}

proof fn lemma_links_upto_adjacent(ps: Seq<ProductView>, pos: Map<Seq<char>, int>, i: int, a: int, b: int)
    requires
        0 <= i <= ps.len(),
    ensures
        adjacent(links_upto(ps, pos, i), a, b) == joined_by_entries(ps, pos, i, a, b),
    decreases i,
{
    if i > 0 {
        lemma_links_upto_adjacent(ps, pos, i - 1, a, b);
        let p = ps[i - 1];
        lemma_links_of_adjacent(links_upto(ps, pos, i - 1), pos, p, p.similar.len() as int, a, b);
        if joined_by_entries(ps, pos, i, a, b) {
            let (q, t) = choose|q: int, t: int|
                0 <= q < i && 0 <= t < ps[q].similar.len() && #[trigger] entry_joins(pos, ps[q], t, a, b);
            if q < i - 1 {
                assert(joined_by_entries(ps, pos, i - 1, a, b));
            } else {
                assert(exists|u: int| 0 <= u < p.similar.len() && #[trigger] entry_joins(pos, p, u, a, b));
            }
        }
        if exists|u: int| 0 <= u < p.similar.len() && #[trigger] entry_joins(pos, p, u, a, b) {
            let u = choose|u: int| 0 <= u < p.similar.len() && #[trigger] entry_joins(pos, p, u, a, b);
            assert(entry_joins(pos, ps[i - 1], u, a, b));
        }
        if joined_by_entries(ps, pos, i - 1, a, b) {
            let (q, t) = choose|q: int, t: int|
                0 <= q < i - 1 && 0 <= t < ps[q].similar.len() && #[trigger] entry_joins(pos, ps[q], t, a, b);
            assert(0 <= q < i);
        }
    } else {
        assert(links_upto(ps, pos, 0) =~= Seq::<(int, int)>::empty());
    }
}

proof fn lemma_links_of_simple(edges: Seq<(int, int)>, ps: Seq<ProductView>, i: int, j: int)
    requires
        0 <= i < ps.len(),
        0 <= j <= ps[i].similar.len(),
        is_simple(edges),
    ensures
        is_simple(links_of(edges, last_positions(asins_of(ps)), ps[i], j)),
    decreases j,
{
    let keys = asins_of(ps);
    let pos = last_positions(keys);
    if j > 0 {
        lemma_links_of_simple(edges, ps, i, j - 1);
        let prev = links_of(edges, pos, ps[i], j - 1);
        let p = ps[i];
        let s = p.similar[j - 1];
        if s != p.asin && pos.contains_key(s) {
            let x = pos[p.asin];
            let y = pos[s];
            if !adjacent(prev, x, y) {
                lemma_last_positions(keys);
                assert(keys[i] == p.asin);
                assert(keys[x] == p.asin);
                assert(keys[y] == s);
                let e = prev.push((x, y));
                assert forall|k: int, l: int| 0 <= k < l < e.len() implies !same_link(#[trigger] e[k], #[trigger] e[l]) by {
                    assert(e[k] == prev[k]);
                    if l < prev.len() {
                        assert(e[l] == prev[l]);
                    } else if same_link(e[k], e[l]) {
                        assert(adjacent(prev, x, y));
                    }
                }
                assert forall|k: int| 0 <= k < e.len() implies (#[trigger] e[k]).0 != e[k].1 by {
                    if k < prev.len() {
                        assert(e[k] == prev[k]);
                    }
                }
            }
        }
    }
}

proof fn lemma_links_upto_simple(ps: Seq<ProductView>, i: int)
    requires
        0 <= i <= ps.len(),
    ensures
        is_simple(links_upto(ps, last_positions(asins_of(ps)), i)),
    decreases i,
{
    if i > 0 {
        lemma_links_upto_simple(ps, i - 1);
        lemma_links_of_simple(
            links_upto(ps, last_positions(asins_of(ps)), i - 1),
            ps,
            i - 1,
            ps[i - 1].similar.len() as int,
        );
    } else {
        assert(links_upto(ps, last_positions(asins_of(ps)), 0) =~= Seq::<(int, int)>::empty());
    }
}

/// An edge as the pair of its ends, smaller first.
pub open spec fn ends(e: (int, int)) -> (int, int) {
    if e.0 <= e.1 {
        e
    } else {
        (e.1, e.0)
    }
}

/// A network without self-loops or repeated links has as many edges as
/// pairs of adjacent nodes.
proof fn lemma_simple_count(e1: Seq<(int, int)>, e2: Seq<(int, int)>)
    requires
        is_simple(e1),
        is_simple(e2),
        forall|a: int, b: int| adjacent(e1, a, b) == adjacent(e2, a, b),
    ensures
        e1.len() == e2.len(),
{
    let n1 = e1.map_values(|e: (int, int)| ends(e));
    let n2 = e2.map_values(|e: (int, int)| ends(e));
    assert(n1.no_duplicates()) by {
        assert forall|k: int, l: int| 0 <= k < n1.len() && 0 <= l < n1.len() && k != l implies n1[k] != n1[l] by {
            if k < l {
                assert(!same_link(e1[k], e1[l]));
            } else {
                assert(!same_link(e1[l], e1[k]));
            }
        }
    }
    assert(n2.no_duplicates()) by {
        assert forall|k: int, l: int| 0 <= k < n2.len() && 0 <= l < n2.len() && k != l implies n2[k] != n2[l] by {
            if k < l {
                assert(!same_link(e2[k], e2[l]));
            } else {
                assert(!same_link(e2[l], e2[k]));
            }
        }
    }
    assert forall|x: (int, int)| n1.to_set().contains(x) == n2.to_set().contains(x) by {
        if n1.contains(x) {
            let k = choose|k: int| 0 <= k < n1.len() && n1[k] == x;
            assert(adjacent(e1, e1[k].0, e1[k].1));
            let l = choose|l: int|
                0 <= l < e2.len() && ((#[trigger] e2[l].0 == e1[k].0 && e2[l].1 == e1[k].1) || (e2[l].0
                    == e1[k].1 && e2[l].1 == e1[k].0));
            assert(n2[l] == x);
        }
        if n2.contains(x) {
            let k = choose|k: int| 0 <= k < n2.len() && n2[k] == x;
            assert(adjacent(e2, e2[k].0, e2[k].1));
            let l = choose|l: int|
                0 <= l < e1.len() && ((#[trigger] e1[l].0 == e2[k].0 && e1[l].1 == e2[k].1) || (e1[l].0
                    == e2[k].1 && e1[l].1 == e2[k].0));
            assert(n1[l] == x);
        }
    }
    assert(n1.to_set() =~= n2.to_set());
    n1.unique_seq_to_set();
    n2.unique_seq_to_set();
}

/// The network depends on each co-purchase list only through the known
/// ASINs other than the product's own that it names: reordering a list,
/// repeating an entry, or adding ASINs that no product carries gives the
/// same nodes and edges joining the same pairs of nodes, as many of them.
pub proof fn lemma_network_ignores_list_order(ps1: Seq<ProductView>, ps2: Seq<ProductView>)
    requires
        asins_of(ps1) == asins_of(ps2),
        forall|i: int, s: Seq<char>|
            0 <= i < ps1.len() && last_positions(asins_of(ps1)).contains_key(s) ==> (#[trigger] ps1[i].similar.contains(s)
                <==> ps2[i].similar.contains(s)),
    ensures
        built_edges(ps1).len() == built_edges(ps2).len(),
        forall|a: int, b: int| adjacent(built_edges(ps1), a, b) == adjacent(built_edges(ps2), a, b),
{
    let pos = last_positions(asins_of(ps1));
    assert(ps1.len() == asins_of(ps1).len());
    assert(ps2.len() == asins_of(ps2).len());
    assert forall|q: int| 0 <= q < ps1.len() implies #[trigger] ps1[q].asin == ps2[q].asin by {
        assert(asins_of(ps1)[q] == ps1[q].asin);
        assert(asins_of(ps2)[q] == ps2[q].asin);
    }
    assert forall|a: int, b: int| adjacent(built_edges(ps1), a, b) == adjacent(built_edges(ps2), a, b) by {
        lemma_links_upto_adjacent(ps1, pos, ps1.len() as int, a, b);
        lemma_links_upto_adjacent(ps2, pos, ps2.len() as int, a, b);
        if joined_by_entries(ps1, pos, ps1.len() as int, a, b) {
            let (q, t) = choose|q: int, t: int|
                0 <= q < ps1.len() && 0 <= t < ps1[q].similar.len() && #[trigger] entry_joins(pos, ps1[q], t, a, b);
            let s = ps1[q].similar[t];
            assert(ps1[q].similar.contains(s));
            assert(ps2[q].similar.contains(s));
            let u = choose|u: int| 0 <= u < ps2[q].similar.len() && ps2[q].similar[u] == s;
            assert(entry_joins(pos, ps2[q], u, a, b));
        }
        if joined_by_entries(ps2, pos, ps2.len() as int, a, b) {
            let (q, t) = choose|q: int, t: int|
                0 <= q < ps2.len() && 0 <= t < ps2[q].similar.len() && #[trigger] entry_joins(pos, ps2[q], t, a, b);
            let s = ps2[q].similar[t];
            assert(ps2[q].similar.contains(s));
            assert(ps1[q].similar.contains(s));
            let u = choose|u: int| 0 <= u < ps1[q].similar.len() && ps1[q].similar[u] == s;
            assert(entry_joins(pos, ps1[q], u, a, b));
        }
    }
    lemma_links_upto_simple(ps1, ps1.len() as int);
    lemma_links_upto_simple(ps2, ps2.len() as int);
    lemma_simple_count(built_edges(ps1), built_edges(ps2));
}

} // verus!
