//! Network statistics: degrees, connected components and communities,
//! links between categories, centrality, and a dense core.

use crate::graph::{
    NetworkGraph, adjacent, extract_subgraph, graph_connected_components, graph_edge_count, graph_node_weight, sub_edges, as_ints, component_roots, graph_edges, graph_neighbors,
    graph_node_count, graph_nodes, is_component_root, is_walk, lemma_distinct_below,
    lemma_listed_neighbors, lemma_reachable_refl, lemma_reachable_step,
    lemma_reachable_symmetric, lemma_reachable_trans, neighbors_of, reachable, walk_step,
};
use crate::order::{is_rank_order, ranks_before, stable_order_desc};
use vstd::prelude::*;

verus! {

/// Some node before `v` reaches `i`.
pub open spec fn reached_before(edges: Seq<(int, int)>, v: int, i: int) -> bool {
    exists|j: int| 0 <= j < v && #[trigger] reachable(edges, j, i)
}

/// A list of nodes that holds `v` and every neighbour of each of its nodes
/// holds every node that `v` reaches.
proof fn lemma_closed_holds_reachable(edges: Seq<(int, int)>, s: Seq<int>, v: int, i: int)
    requires
        s.contains(v),
        forall|k: int, y: int| 0 <= k < s.len() && #[trigger] adjacent(edges, s[k], y) ==> s.contains(y),
        reachable(edges, v, i),
    ensures
        s.contains(i),
{
    let p = choose|p: Seq<int>| #[trigger] is_walk(edges, p) && p[0] == v && p.last() == i;
    lemma_closed_walk(edges, s, p, p.len() - 1);
}

proof fn lemma_closed_walk(edges: Seq<(int, int)>, s: Seq<int>, p: Seq<int>, m: int)
    requires
        is_walk(edges, p),
        s.contains(p[0]),
        0 <= m < p.len(),
        forall|k: int, y: int| 0 <= k < s.len() && #[trigger] adjacent(edges, s[k], y) ==> s.contains(y),
    ensures
        s.contains(p[m]),
    decreases m,
{
    if m > 0 {
        lemma_closed_walk(edges, s, p, m - 1);
        assert(walk_step(edges, p, m - 1));
        let k = choose|k: int| 0 <= k < s.len() && s[k] == p[m - 1];
        assert(adjacent(edges, s[k], p[m]));
    }
}

/// The nodes `0..n` in increasing order.
pub open spec fn node_range(n: int) -> Seq<int> {
    Seq::new(n as nat, |i: int| i)
}

proof fn lemma_node_range_push(n: int)
    requires
        0 <= n,
    ensures
        node_range(n + 1) == node_range(n).push(n),
{
    assert(node_range(n + 1) =~= node_range(n).push(n));
}

/// Labels each node with the number of its connected component, the
/// components numbered in the order of their smallest nodes (the roots),
/// which are returned too.
fn label_components(g: &NetworkGraph) -> (res: (Vec<usize>, Vec<usize>))
    ensures
        as_ints(res.1@) == component_roots(graph_nodes(*g).len(), graph_edges(*g)),
        res.0@.len() == graph_nodes(*g).len(),
        forall|i: int|
            0 <= i < graph_nodes(*g).len() ==> (#[trigger] res.0@[i]) < res.1@.len()
                && reachable(graph_edges(*g), res.1@[res.0@[i] as int] as int, i),
{
    let ghost edges = graph_edges(*g);
    let n = graph_node_count(g);
    let mut visited: Vec<bool> = Vec::new();
    let mut labels: Vec<usize> = Vec::new();
    for i in 0..n
        invariant
            visited@.len() == i,
            labels@.len() == i,
            forall|k: int| 0 <= k < i ==> !(#[trigger] visited@[k]),
    {
        visited.push(false);
        labels.push(0);
    }
    let mut roots: Vec<usize> = Vec::new();
    for v in 0..n
        invariant
            edges == graph_edges(*g),
            n == graph_nodes(*g).len(),
            forall|k: int| 0 <= k < edges.len() ==> 0 <= #[trigger] edges[k].0 < n && 0 <= edges[k].1 < n,
            visited@.len() == n,
            labels@.len() == n,
            forall|i: int| 0 <= i < n ==> (#[trigger] visited@[i] <==> reached_before(edges, v as int, i)),
            forall|i: int|
                0 <= i < n && #[trigger] visited@[i] ==> labels@[i] < roots@.len() && reachable(
                    edges,
                    roots@[labels@[i] as int] as int,
                    i,
                ),
            as_ints(roots@) == node_range(v as int).filter(|r: int| is_component_root(edges, r)),
    {
        proof {
            lemma_node_range_push(v as int);
            node_range(v as int).lemma_filter_push(v as int, |r: int| is_component_root(edges, r));
        }
        if !visited[v] {
            proof {
                assert forall|j: int| 0 <= j < v implies !#[trigger] reachable(edges, v as int, j) by {
                    if reachable(edges, v as int, j) {
                        lemma_reachable_symmetric(edges, v as int, j);
                    }
                }
                assert(is_component_root(edges, v as int));
            }
            let c = roots.len();
            roots.push(v);
            proof {
                assert(as_ints(roots@) =~= node_range(v + 1).filter(|r: int| is_component_root(edges, r)));
            }
            let mut comp: Vec<usize> = Vec::new();
            comp.push(v);
            let ghost vis0 = visited@;
            visited.set(v, true);
            labels.set(v, c);
            proof {
                lemma_reachable_refl(edges, v as int);
                assert(as_ints(comp@) =~= seq![v as int]);
                assert(as_ints(comp@)[0] == v);
                assert(!reached_before(edges, v as int, v as int));
                assert forall|i: int| 0 <= i < n implies (#[trigger] visited@[i] <==> (reached_before(edges, v as int, i)
                    || as_ints(comp@).contains(i))) by {
                    if i != v {
                        assert(visited@[i] == vis0[i]);
                        if as_ints(comp@).contains(i) {
                            let q = choose|q: int| 0 <= q < as_ints(comp@).len() && as_ints(comp@)[q] == i;
                        }
                    }
                }
                assert forall|j: int| 0 <= j < v implies !#[trigger] reachable(edges, j, v as int) by {
                    if reachable(edges, j, v as int) {
                        assert(reached_before(edges, v as int, v as int));
                    }
                }
            }
            let mut head: usize = 0;
            while head < comp.len()
                invariant
                    edges == graph_edges(*g),
                    n == graph_nodes(*g).len(),
                    forall|k: int| 0 <= k < edges.len() ==> 0 <= #[trigger] edges[k].0 < n && 0 <= edges[k].1 < n,
                    v < n,
                    c == roots@.len() - 1,
                    roots@[c as int] == v,
                    visited@.len() == n,
                    labels@.len() == n,
                    head <= comp@.len() <= n,
                    as_ints(comp@).no_duplicates(),
                    as_ints(comp@).contains(v as int),
                    forall|k: int| 0 <= k < comp@.len() ==> #[trigger] comp@[k] < n && reachable(edges, v as int, comp@[k] as int),
                    forall|j: int| 0 <= j < v ==> !#[trigger] reachable(edges, j, v as int),
                    forall|i: int|
                        0 <= i < n ==> (#[trigger] visited@[i] <==> (reached_before(edges, v as int, i)
                            || as_ints(comp@).contains(i))),
                    forall|i: int|
                        0 <= i < n && #[trigger] visited@[i] ==> labels@[i] < roots@.len() && reachable(
                            edges,
                            roots@[labels@[i] as int] as int,
                            i,
                        ),
                    forall|k: int, y: int|
                        0 <= k < head && #[trigger] adjacent(edges, as_ints(comp@)[k], y) ==> as_ints(comp@).contains(y),
                decreases n - head,
            {
                let x = comp[head];
                let ns = graph_neighbors(g, x);
                for t in 0..ns.len()
                    invariant
                        edges == graph_edges(*g),
                        n == graph_nodes(*g).len(),
                        forall|k: int| 0 <= k < edges.len() ==> 0 <= #[trigger] edges[k].0 < n && 0 <= edges[k].1 < n,
                        v < n,
                        x < n,
                        c == roots@.len() - 1,
                        roots@[c as int] == v,
                        reachable(edges, v as int, x as int),
                        as_ints(ns@).to_multiset() == neighbors_of(edges, x as int).to_multiset(),
                        visited@.len() == n,
                        labels@.len() == n,
                        head < comp@.len() <= n,
                        comp@[head as int] == x,
                        as_ints(comp@).no_duplicates(),
                        as_ints(comp@).contains(v as int),
                        forall|k: int| 0 <= k < comp@.len() ==> #[trigger] comp@[k] < n && reachable(edges, v as int, comp@[k] as int),
                        forall|j: int| 0 <= j < v ==> !#[trigger] reachable(edges, j, v as int),
                        forall|i: int|
                            0 <= i < n ==> (#[trigger] visited@[i] <==> (reached_before(edges, v as int, i)
                                || as_ints(comp@).contains(i))),
                        forall|i: int|
                            0 <= i < n && #[trigger] visited@[i] ==> labels@[i] < roots@.len() && reachable(
                                edges,
                                roots@[labels@[i] as int] as int,
                                i,
                            ),
                        forall|k: int, y: int|
                            0 <= k < head && #[trigger] adjacent(edges, as_ints(comp@)[k], y) ==> as_ints(comp@).contains(y),
                        forall|s: int| 0 <= s < t ==> as_ints(comp@).contains(#[trigger] as_ints(ns@)[s]),
                {
                    let y = ns[t];
                    proof {
                        assert(as_ints(ns@)[t as int] == y);
                        assert(as_ints(ns@).contains(y as int));
                        lemma_listed_neighbors(edges, x as int, ns@, y as int);
                        assert(adjacent(edges, x as int, y as int));
                        let k = choose|k: int| 0 <= k < edges.len() && ((#[trigger] edges[k].0 == x && edges[k].1 == y) || (edges[k].0 == y && edges[k].1 == x));
                        lemma_reachable_step(edges, v as int, x as int, y as int);
                    }
                    if !visited[y] {
                        let ghost before = comp@;
                        let ghost vis1 = visited@;
                        visited.set(y, true);
                        labels.set(y, c);
                        comp.push(y);
                        proof {
                            assert(as_ints(comp@) =~= as_ints(before).push(y as int));
                            assert forall|i: int| 0 <= i < n implies (#[trigger] visited@[i] <==> (reached_before(edges, v as int, i)
                                || as_ints(comp@).contains(i))) by {
                                if i != y {
                                    assert(visited@[i] == vis1[i]);
                                } else {
                                    assert(as_ints(comp@)[comp@.len() - 1] == y);
                                }
                                if as_ints(before).contains(i) {
                                    let q = choose|q: int| 0 <= q < as_ints(before).len() && as_ints(before)[q] == i;
                                    assert(as_ints(comp@)[q] == i);
                                }
                                if i != y && as_ints(comp@).contains(i) {
                                    let q = choose|q: int| 0 <= q < as_ints(comp@).len() && as_ints(comp@)[q] == i;
                                    assert(as_ints(before)[q] == i);
                                }
                            }
                            assert forall|k: int, z: int|
                                0 <= k < head && #[trigger] adjacent(edges, as_ints(comp@)[k], z) implies as_ints(comp@).contains(z) by {
                                assert(as_ints(comp@)[k] == as_ints(before)[k]);
                                if as_ints(before).contains(z) {
                                    let q = choose|q: int| 0 <= q < as_ints(before).len() && as_ints(before)[q] == z;
                                    assert(as_ints(comp@)[q] == z);
                                }
                            }
                            assert forall|s: int| 0 <= s < t + 1 implies as_ints(comp@).contains(#[trigger] as_ints(ns@)[s]) by {
                                if s < t {
                                    let z = as_ints(ns@)[s];
                                    assert(as_ints(before).contains(z));
                                    let q = choose|q: int| 0 <= q < as_ints(before).len() && as_ints(before)[q] == z;
                                    assert(as_ints(comp@)[q] == z);
                                } else {
                                    assert(as_ints(comp@)[comp@.len() - 1] == y);
                                }
                            }
                            assert forall|k: int| 0 <= k < comp@.len() implies #[trigger] comp@[k] < n && reachable(edges, v as int, comp@[k] as int) by {
                                if k < before.len() {
                                    assert(comp@[k] == before[k]);
                                }
                            }
                            assert(as_ints(comp@).contains(v as int)) by {
                                let q = choose|q: int| 0 <= q < as_ints(before).len() && as_ints(before)[q] == v;
                                assert(as_ints(comp@)[q] == v);
                            }
                            assert(as_ints(comp@).no_duplicates()) by {
                                assert forall|a: int, b: int| 0 <= a < b < as_ints(comp@).len() implies as_ints(comp@)[a] != as_ints(comp@)[b] by {
                                    if b == as_ints(comp@).len() - 1 {
                                        assert(as_ints(comp@)[a] == as_ints(before)[a]);
                                        if as_ints(comp@)[a] == y {
                                            assert(as_ints(before).contains(y as int));
                                        }
                                    } else {
                                        assert(as_ints(comp@)[a] == as_ints(before)[a]);
                                        assert(as_ints(comp@)[b] == as_ints(before)[b]);
                                    }
                                }
                            }
                            lemma_distinct_below(as_ints(comp@), n as int);
                        }
                    } else {
                        proof {
                            if reached_before(edges, v as int, y as int) {
                                let j = choose|j: int| 0 <= j < v && #[trigger] reachable(edges, j, y as int);
                                lemma_reachable_symmetric(edges, v as int, y as int);
                                lemma_reachable_trans(edges, j, y as int, v as int);
                            }
                            assert(as_ints(comp@).contains(y as int));
                        }
                    }
                }
                proof {
                    assert forall|k: int, y: int|
                        0 <= k < head + 1 && #[trigger] adjacent(edges, as_ints(comp@)[k], y) implies as_ints(comp@).contains(y) by {
                        if k == head {
                            lemma_listed_neighbors(edges, x as int, ns@, y);
                            let s = choose|s: int| 0 <= s < as_ints(ns@).len() && as_ints(ns@)[s] == y;
                            assert(as_ints(comp@).contains(#[trigger] as_ints(ns@)[s]));
                        }
                    }
                }
                head = head + 1;
            }
            proof {
                assert forall|i: int| 0 <= i < n implies (#[trigger] visited@[i] <==> reached_before(edges, v + 1, i)) by {
                    if reachable(edges, v as int, i) {
                        lemma_closed_holds_reachable(edges, as_ints(comp@), v as int, i);
                    }
                    if as_ints(comp@).contains(i) {
                        let q = choose|q: int| 0 <= q < as_ints(comp@).len() && as_ints(comp@)[q] == i;
                        assert(comp@[q] < n && reachable(edges, v as int, comp@[q] as int));
                    }
                    if reached_before(edges, v as int, i) {
                        let j = choose|j: int| 0 <= j < v && #[trigger] reachable(edges, j, i);
                        assert(reachable(edges, j, i));
                    }
                    if reached_before(edges, v + 1, i) && !reachable(edges, v as int, i) {
                        let j = choose|j: int| 0 <= j < v + 1 && #[trigger] reachable(edges, j, i);
                        assert(reached_before(edges, v as int, i));
                    }
                }
            }
        } else {
            proof {
                assert(reached_before(edges, v as int, v as int));
                let j = choose|j: int| 0 <= j < v && #[trigger] reachable(edges, j, v as int);
                lemma_reachable_symmetric(edges, j, v as int);
                assert(!is_component_root(edges, v as int));
                assert(as_ints(roots@) =~= node_range(v + 1).filter(|r: int| is_component_root(edges, r)));
                assert forall|i: int| 0 <= i < n implies (#[trigger] visited@[i] <==> reached_before(edges, v + 1, i)) by {
                    if reachable(edges, v as int, i) {
                        lemma_reachable_trans(edges, j, v as int, i);
                    }
                    if reached_before(edges, v as int, i) {
                        let j2 = choose|j2: int| 0 <= j2 < v && #[trigger] reachable(edges, j2, i);
                        assert(reachable(edges, j2, i));
                    }
                    if reached_before(edges, v + 1, i) && !reachable(edges, v as int, i) {
                        let j2 = choose|j2: int| 0 <= j2 < v + 1 && #[trigger] reachable(edges, j2, i);
                        assert(reached_before(edges, v as int, i));
                    }
                }
            }
        }
    }
    proof {
        assert forall|i: int| 0 <= i < n implies #[trigger] visited@[i] by {
            lemma_reachable_refl(edges, i);
            assert(reachable(edges, i, i));
        }
        assert(node_range(n as int) =~= Seq::new(n as nat, |i: int| i));
        assert forall|i: int| 0 <= i < n implies (#[trigger] labels@[i]) < roots@.len()
            && reachable(edges, roots@[labels@[i] as int] as int, i) by {
            assert(visited@[i]);
        }
    }
    (labels, roots)
}

} // verus!

verus! {

/// The entries of `s` increase strictly.
pub open spec fn strictly_increasing(s: Seq<int>) -> bool {
    forall|a: int, b: int| 0 <= a < b < s.len() ==> #[trigger] s[a] < #[trigger] s[b]
}

proof fn lemma_node_range_increasing(n: int)
    requires
        0 <= n,
    ensures
        strictly_increasing(node_range(n)),
{
}

/// Filtering keeps a sequence strictly increasing.
proof fn lemma_filter_increasing(s: Seq<int>, pred: spec_fn(int) -> bool)
    requires
        strictly_increasing(s),
    ensures
        strictly_increasing(s.filter(pred)),
        forall|k: int| 0 <= k < s.filter(pred).len() ==> s.contains(#[trigger] s.filter(pred)[k]),
    decreases s.len(),
{
    broadcast use vstd::seq_lib::group_filter_ensures;

    if s.len() > 0 {
        let rest = s.drop_last();
        assert(strictly_increasing(rest));
        lemma_filter_increasing(rest, pred);
        assert(s =~= rest.push(s.last()));
        rest.lemma_filter_push(s.last(), pred);
        let fr = rest.filter(pred);
        assert forall|k: int| 0 <= k < fr.len() implies #[trigger] fr[k] < s.last() by {
            assert(rest.contains(fr[k]));
            let j = choose|j: int| 0 <= j < rest.len() && rest[j] == fr[k];
            assert(s[j] == rest[j]);
        }
        assert forall|k: int| 0 <= k < s.filter(pred).len() implies s.contains(#[trigger] s.filter(pred)[k]) by {
            if k < fr.len() {
                assert(s.filter(pred)[k] == fr[k]);
                assert(rest.contains(fr[k]));
                let j = choose|j: int| 0 <= j < rest.len() && rest[j] == fr[k];
                assert(s[j] == rest[j]);
            } else {
                assert(s[s.len() - 1] == s.last());
            }
        }
    }
}

/// Filtering by two predicates that agree on every entry gives one result.
proof fn lemma_filter_agree(s: Seq<int>, p: spec_fn(int) -> bool, q: spec_fn(int) -> bool)
    requires
        forall|k: int| 0 <= k < s.len() ==> p(#[trigger] s[k]) == q(s[k]),
    ensures
        s.filter(p) == s.filter(q),
    decreases s.len(),
{
    if s.len() > 0 {
        let rest = s.drop_last();
        assert forall|k: int| 0 <= k < rest.len() implies p(#[trigger] rest[k]) == q(rest[k]) by {
            assert(rest[k] == s[k]);
        }
        lemma_filter_agree(rest, p, q);
        assert(s =~= rest.push(s.last()));
        rest.lemma_filter_push(s.last(), p);
        rest.lemma_filter_push(s.last(), q);
        assert(p(s[s.len() - 1]) == q(s[s.len() - 1]));
    }
}

/// A strictly increasing sequence has no duplicates.
proof fn lemma_increasing_no_dup(s: Seq<int>)
    requires
        strictly_increasing(s),
    ensures
        s.no_duplicates(),
{
    assert forall|a: int, b: int| 0 <= a < s.len() && 0 <= b < s.len() && a != b implies s[a] != s[b] by {
        if a < b {
            assert(s[a] < s[b]);
        } else {
            assert(s[b] < s[a]);
        }
    }
}

/// The nodes of the connected component of `r`, in increasing order.
pub open spec fn component_members(n: nat, edges: Seq<(int, int)>, r: int) -> Seq<int> {
    node_range(n as int).filter(|x: int| reachable(edges, r, x))
}

/// The roots of the components that have at least `min_size` nodes, in
/// increasing order.
pub open spec fn large_roots(n: nat, edges: Seq<(int, int)>, min_size: int) -> Seq<int> {
    component_roots(n, edges).filter(|r: int| component_members(n, edges, r).len() >= min_size)
}

/// The component of `r` comes before that of `s`: it is larger, or as large
/// with a smaller root.
pub open spec fn larger_component(n: nat, edges: Seq<(int, int)>, r: int, s: int) -> bool {
    component_members(n, edges, r).len() > component_members(n, edges, s).len() || (
    component_members(n, edges, r).len() == component_members(n, edges, s).len() && r < s)
}

/// `sel` lists the roots of the `num` largest components with at least
/// `min_size` nodes (all of them if there are fewer), largest first, ties
/// broken by the smaller root.
pub open spec fn top_components(
    n: nat,
    edges: Seq<(int, int)>,
    min_size: int,
    num: int,
    sel: Seq<int>,
) -> bool {
    let large = large_roots(n, edges, min_size);
    &&& sel.len() == if num < large.len() { num } else { large.len() as int }
    &&& forall|k: int| 0 <= k < sel.len() ==> large.contains(#[trigger] sel[k])
    &&& forall|a: int, b: int|
        0 <= a < b < sel.len() ==> larger_component(n, edges, #[trigger] sel[a], #[trigger] sel[b])
    &&& forall|r: int, k: int|
        #![trigger large.contains(r), sel[k]]
        large.contains(r) && !sel.contains(r) && 0 <= k < sel.len() ==> larger_component(
            n,
            edges,
            sel[k],
            r,
        )
}

} // verus!

verus! {

/// A community of the network: a connected component.
#[derive(Debug, Clone)]
pub struct Community {
    /// Rank of the community, largest first.
    pub id: usize,
    /// ASINs of the member nodes, in node order.
    pub nodes: Vec<String>,
    /// Number of member nodes.
    pub size: usize,
    /// Number of edges between two different members (the edge count of
    /// the extracted subgraph, from which the density follows).
    pub internal_edges: usize,
    /// The most frequent categories of the members, with their counts.
    pub main_categories: Vec<(String, usize)>,
}

/// `c` is the community of rank `id` made of the component of `r`.
pub open spec fn describes_component(c: Community, g: NetworkGraph, r: int, id: int) -> bool {
    let members = component_members(graph_nodes(g).len(), graph_edges(g), r);
    &&& c.id == id
    &&& c.nodes.deep_view() == members.map_values(|x: int| graph_nodes(g)[x])
    &&& c.size == members.len()
    &&& c.internal_edges == sub_edges(graph_edges(g), members).len()
    &&& c.main_categories@.len() == 0
}

/// The component number of each node: the one whose root reaches it.
proof fn lemma_label_is_component(
    edges: Seq<(int, int)>,
    n: nat,
    labels: Seq<usize>,
    roots: Seq<int>,
    c: int,
    x: int,
)
    requires
        roots == component_roots(n, edges),
        labels.len() == n,
        forall|i: int|
            0 <= i < n ==> (#[trigger] labels[i]) < roots.len() && reachable(edges, roots[labels[i] as int], i),
        0 <= c < roots.len(),
        0 <= x < n,
    ensures
        (labels[x] == c) == reachable(edges, roots[c], x),
{
    broadcast use vstd::seq_lib::group_filter_ensures;

    lemma_node_range_increasing(n as int);
    lemma_filter_increasing(node_range(n as int), |r: int| is_component_root(edges, r));
    assert(roots == node_range(n as int).filter(|r: int| is_component_root(edges, r)));
    let d = labels[x] as int;
    if d != c && reachable(edges, roots[c], x) {
        let r1 = roots[c];
        let r2 = roots[d];
        assert(is_component_root(edges, r1));
        assert(is_component_root(edges, r2));
        lemma_reachable_symmetric(edges, r2, x);
        lemma_reachable_trans(edges, r1, x, r2);
        lemma_reachable_symmetric(edges, r1, r2);
        assert(roots.contains(r1));
        assert(node_range(n as int).contains(r1));
        assert(node_range(n as int).contains(r2));
        if c < d {
            assert(r1 < r2);
        } else {
            assert(r2 < r1);
        }
    }
}

/// Detects the communities of the network: its connected components with at
/// least `min_community_size` nodes, the `num_communities` largest of them
/// (ties broken by the smaller root), largest first.
pub fn detect_communities(
    graph: &NetworkGraph,
    num_communities: usize,
    min_community_size: usize,
) -> (communities: Vec<Community>)
    ensures
        exists|sel: Seq<int>|
            {
                &&& top_components(
                    graph_nodes(*graph).len(),
                    graph_edges(*graph),
                    min_community_size as int,
                    num_communities as int,
                    sel,
                )
                &&& communities@.len() == sel.len()
                &&& forall|k: int|
                    0 <= k < sel.len() ==> describes_component(#[trigger] communities@[k], *graph, sel[k], k)
            },
{
    let ghost edges = graph_edges(*graph);
    let ghost weights = graph_nodes(*graph);
    let n = graph_node_count(graph);
    let (labels, roots) = label_components(graph);
    let ghost rts = as_ints(roots@);
    let ghost nn = n as nat;
    proof {
        lemma_node_range_increasing(n as int);
        lemma_filter_increasing(node_range(n as int), |r: int| is_component_root(edges, r));
    }
    // The members of each component, in node order.
    let mut buckets: Vec<Vec<usize>> = Vec::new();
    for c in 0..roots.len()
        invariant
            buckets@.len() == c,
            forall|d: int| 0 <= d < c ==> (#[trigger] buckets@[d])@.len() == 0,
    {
        buckets.push(Vec::new());
    }
    for i in 0..n
        invariant
            n == weights.len(),
            labels@.len() == n,
            buckets@.len() == roots@.len(),
            forall|x: int| 0 <= x < n ==> (#[trigger] labels@[x]) < roots@.len(),
            forall|d: int|
                0 <= d < roots@.len() ==> as_ints((#[trigger] buckets@[d])@) == node_range(i as int).filter(
                    |x: int| labels@[x] == d,
                ),
    {
        let c = labels[i];
        let ghost before = buckets@;
        buckets[c].push(i);
        proof {
            lemma_node_range_push(i as int);
            assert forall|d: int|
                0 <= d < roots@.len() implies as_ints((#[trigger] buckets@[d])@) == node_range(i + 1).filter(
                    |x: int| labels@[x] == d,
                ) by {
                node_range(i as int).lemma_filter_push(i as int, |x: int| labels@[x] == d);
                if d == c {
                    assert(as_ints(buckets@[d]@) =~= as_ints(before[d]@).push(i as int));
                } else {
                    assert(buckets@[d] == before[d]);
                }
            }
        }
    }
    proof {
        assert forall|d: int| 0 <= d < roots@.len() implies as_ints((#[trigger] buckets@[d])@)
            == component_members(nn, edges, rts[d]) by {
            assert forall|k: int| 0 <= k < node_range(n as int).len() implies (labels@[#[trigger] node_range(n as int)[k]] == d)
                == reachable(edges, rts[d], node_range(n as int)[k]) by {
                lemma_label_is_component(edges, nn, labels@, rts, d, k);
            }
            lemma_filter_agree(node_range(n as int), |x: int| labels@[x] == d, |x: int| reachable(edges, rts[d], x));
        }
    }
    // The components that are large enough, with their sizes.
    let mut cand: Vec<usize> = Vec::new();
    let mut sizes: Vec<usize> = Vec::new();
    let ghost large_pred = |r: int| component_members(nn, edges, r).len() >= min_community_size;
    for c in 0..roots.len()
        invariant
            rts == as_ints(roots@),
            rts == component_roots(nn, edges),
            buckets@.len() == roots@.len(),
            forall|d: int| 0 <= d < roots@.len() ==> as_ints((#[trigger] buckets@[d])@)
                == component_members(nn, edges, rts[d]),
            cand@.len() == sizes@.len(),
            forall|q: int| 0 <= q < cand@.len() ==> (#[trigger] cand@[q]) < roots@.len(),
            forall|q: int| 0 <= q < cand@.len() ==> #[trigger] sizes@[q] == buckets@[cand@[q] as int]@.len(),
            cand@.map_values(|d: usize| rts[d as int]) == rts.take(c as int).filter(large_pred),
            large_pred == (|r: int| component_members(nn, edges, r).len() >= min_community_size),
    {
        let ghost before = cand@;
        let sz = buckets[c].len();
        proof {
            assert(rts.take(c + 1) =~= rts.take(c as int).push(rts[c as int]));
            rts.take(c as int).lemma_filter_push(rts[c as int], large_pred);
            assert(sz == component_members(nn, edges, rts[c as int]).len());
        }
        if sz >= min_community_size {
            cand.push(c);
            sizes.push(sz);
            proof {
                assert(cand@.map_values(|d: usize| rts[d as int]) =~= before.map_values(|d: usize| rts[d as int]).push(rts[c as int]));
            }
        }
    }
    let ghost large = large_roots(nn, edges, min_community_size as int);
    proof {
        assert(rts.take(roots@.len() as int) =~= rts);
        assert(large == rts.filter(large_pred));
    }
    let order = stable_order_desc(&sizes);
    let count = if num_communities < cand.len() { num_communities } else { cand.len() };
    let ghost cr = cand@.map_values(|d: usize| rts[d as int]);
    proof {
        lemma_filter_increasing(rts, large_pred);
        assert(cr == large);
    }
    let mut communities: Vec<Community> = Vec::new();
    for k in 0..count
        invariant
            n == weights.len(),
            weights == graph_nodes(*graph),
            edges == graph_edges(*graph),
            nn == n as nat,
            rts == as_ints(roots@),
            rts == component_roots(nn, edges),
            buckets@.len() == roots@.len(),
            forall|d: int| 0 <= d < roots@.len() ==> as_ints((#[trigger] buckets@[d])@)
                == component_members(nn, edges, rts[d]),
            cand@.len() == sizes@.len(),
            forall|q: int| 0 <= q < cand@.len() ==> (#[trigger] cand@[q]) < roots@.len(),
            cr == cand@.map_values(|d: usize| rts[d as int]),
            is_rank_order(sizes@, order@),
            count <= cand@.len(),
            communities@.len() == k,
            forall|j: int|
                0 <= j < k ==> describes_component(#[trigger] communities@[j], *graph, cr[order@[j] as int], j),
    {
        let q = order[k];
        let c = cand[q];
        let members = &buckets[c];
        let ghost ms = component_members(nn, edges, rts[c as int]);
        proof {
            assert(cr[q as int] == rts[c as int]);
            lemma_filter_increasing(node_range(n as int), |x: int| reachable(edges, rts[c as int], x));
            lemma_increasing_no_dup(ms);
            assert forall|t: int| 0 <= t < members@.len() implies #[trigger] members@[t] < weights.len() by {
                assert(as_ints(members@)[t] == ms[t]);
                assert(node_range(n as int).contains(ms[t]));
            }
        }
        let mut names: Vec<String> = Vec::new();
        for t in 0..members.len()
            invariant
                weights == graph_nodes(*graph),
                forall|u: int| 0 <= u < members@.len() ==> #[trigger] members@[u] < weights.len(),
                names@.len() == t,
                names.deep_view() == as_ints(members@).take(t as int).map_values(|x: int| weights[x]),
        {
            let found = graph_node_weight(graph, members[t]);
            let w = match found {
                Some(w) => w.clone(),
                None => String::new(),
            };
            proof {
                assert(w@ == weights[members@[t as int] as int]);
                assert(as_ints(members@)[t as int] == members@[t as int]);
            }
            let ghost before = names@;
            names.push(w);
            proof {
                let target = as_ints(members@).take(t + 1).map_values(|x: int| weights[x]);
                let prev = as_ints(members@).take(t as int).map_values(|x: int| weights[x]);
                assert forall|u: int| 0 <= u < t + 1 implies #[trigger] names.deep_view()[u] == target[u] by {
                    if u < t {
                        assert(names@[u] == before[u]);
                        assert(prev[u] == target[u]);
                    }
                }
                assert(names.deep_view() =~= target);
            }
        }
        proof {
            assert(as_ints(members@).take(members@.len() as int) =~= as_ints(members@));
        }
        let sub = extract_subgraph(graph, members);
        let internal = graph_edge_count(&sub);
        let ghost old_list = communities@;
        communities.push(Community {
            id: k,
            nodes: names,
            size: members.len(),
            internal_edges: internal,
            main_categories: Vec::new(),
        });
        proof {
            assert forall|j: int| 0 <= j < k + 1 implies describes_component(
                #[trigger] communities@[j],
                *graph,
                cr[order@[j] as int],
                j,
            ) by {
                if j < k {
                    assert(communities@[j] == old_list[j]);
                }
            }
        }
    }
    let ghost sel = Seq::new(count as nat, |k: int| cr[order@[k] as int]);
    proof {
        assert forall|k: int| 0 <= k < sel.len() implies large.contains(#[trigger] sel[k]) by {
            assert(order@[k] < cand@.len());
            assert(cr[order@[k] as int] == sel[k]);
        }
        assert forall|a: int, b: int| 0 <= a < b < sel.len() implies larger_component(
            nn,
            edges,
            #[trigger] sel[a],
            #[trigger] sel[b],
        ) by {
            let oa = order@[a] as int;
            let ob = order@[b] as int;
            assert(ranks_before(sizes@, oa, ob));
            if oa < ob {
                assert(cr[oa] < cr[ob]);
            }
        }
        assert forall|r: int, k: int|
            #![trigger large.contains(r), sel[k]]
            large.contains(r) && !sel.contains(r) && 0 <= k < sel.len() implies larger_component(
                nn,
                edges,
                sel[k],
                r,
            ) by {
            let q = choose|q: int| 0 <= q < cr.len() && cr[q] == r;
            assert(order@.contains(q as usize));
            let p = choose|p: int| 0 <= p < order@.len() && order@[p] == q as usize;
            if p < count {
                assert(sel[p] == r);
            }
            let ok = order@[k] as int;
            assert(ranks_before(sizes@, ok, q));
            if ok < q {
                assert(cr[ok] < cr[q]);
            }
        }
        assert(top_components(nn, edges, min_community_size as int, num_communities as int, sel));
        assert forall|k: int| 0 <= k < sel.len() implies describes_component(
            #[trigger] communities@[k],
            *graph,
            sel[k],
            k,
        ) by {}
    }
    communities
}

} // verus!

verus! {

/// The degree of node `i`: the number of its neighbours as `neighbors`
/// lists them (one per incident edge, a self-loop once).
pub open spec fn degree(edges: Seq<(int, int)>, i: int) -> nat {
    neighbors_of(edges, i).len()
}

/// The sum of the degrees of the nodes `0..k`.
pub open spec fn degree_sum(edges: Seq<(int, int)>, k: int) -> nat
    decreases k,
{
    if k <= 0 {
        0
    } else {
        degree_sum(edges, k - 1) + degree(edges, k - 1)
    }
}

/// The largest degree of the nodes `0..k` (0 when there are none).
pub open spec fn max_degree(edges: Seq<(int, int)>, k: int) -> nat
    decreases k,
{
    if k <= 0 {
        0
    } else {
        let m = max_degree(edges, k - 1);
        if degree(edges, k - 1) > m {
            degree(edges, k - 1)
        } else {
            m
        }
    }
}

/// The number of nodes among `0..k` whose degree is `d`.
pub open spec fn degree_count(edges: Seq<(int, int)>, k: int, d: int) -> nat
    decreases k,
{
    if k <= 0 {
        0
    } else {
        degree_count(edges, k - 1, d) + if degree(edges, k - 1) == d {
            1nat
        } else {
            0nat
        }
    }
}

proof fn lemma_neighbors_of_push(edges: Seq<(int, int)>, e: (int, int), i: int)
    ensures
        degree(edges.push(e), i) == degree(edges, i) + if e.0 == i || e.1 == i {
            1nat
        } else {
            0nat
        },
{
    assert(edges.push(e).drop_last() =~= edges);
}

proof fn lemma_degree_sum_push(edges: Seq<(int, int)>, e: (int, int), k: int)
    requires
        0 <= k,
    ensures
        degree_sum(edges.push(e), k) == degree_sum(edges, k) + (if 0 <= e.0 < k {
            1nat
        } else {
            0nat
        }) + (if 0 <= e.1 < k && e.1 != e.0 {
            1nat
        } else {
            0nat
        }),
    decreases k,
{
    if k > 0 {
        lemma_degree_sum_push(edges, e, k - 1);
        lemma_neighbors_of_push(edges, e, k - 1);
    }
}

/// Each edge adds at most two to the sum of the degrees.
pub proof fn lemma_degree_sum_bound(edges: Seq<(int, int)>, n: int)
    requires
        0 <= n,
    ensures
        degree_sum(edges, n) <= 2 * edges.len(),
    decreases edges.len(),
{
    if edges.len() > 0 {
        let rest = edges.drop_last();
        lemma_degree_sum_bound(rest, n);
        assert(rest.push(edges.last()) =~= edges);
        lemma_degree_sum_push(rest, edges.last(), n);
    } else {
        lemma_degree_sum_no_edges(edges, n);
    }
}

proof fn lemma_degree_sum_no_edges(edges: Seq<(int, int)>, k: int)
    requires
        edges.len() == 0,
    ensures
        degree_sum(edges, k) == 0,
    decreases k,
{
    if k > 0 {
        lemma_degree_sum_no_edges(edges, k - 1);
    }
}

proof fn lemma_degree_count_bound(edges: Seq<(int, int)>, k: int, d: int)
    requires
        0 <= k,
    ensures
        degree_count(edges, k, d) <= k,
    decreases k,
{
    if k > 0 {
        lemma_degree_count_bound(edges, k - 1, d);
    }
}

/// The degree of node `i` of `g`, counting its neighbours.
pub fn node_degree(g: &NetworkGraph, i: usize) -> (d: usize)
    requires
        i < graph_nodes(*g).len(),
    ensures
        d == degree(graph_edges(*g), i as int),
{
    let ns = graph_neighbors(g, i);
    proof {
        broadcast use vstd::seq_lib::group_to_multiset_ensures;

        assert(as_ints(ns@).len() == as_ints(ns@).to_multiset().len());
        assert(neighbors_of(graph_edges(*g), i as int).len() == neighbors_of(
            graph_edges(*g),
            i as int,
        ).to_multiset().len());
    }
    ns.len()
}

/// Basic counts of the network. The ratios that the analysis reports
/// (density, average degree) are quotients of these counts.
#[derive(Debug, Clone)]
pub struct NetworkMetrics {
    pub node_count: usize,
    pub edge_count: usize,
    pub connected_components: usize,
    /// Sum of the degrees of all nodes (the average degree is this sum over
    /// the node count).
    pub degree_sum: u64,
    pub max_degree: usize,
    /// Not computed (path metrics are too costly): always absent.
    pub diameter: Option<usize>,
}

/// Computes the basic network metrics.
pub fn compute_network_metrics(graph: &NetworkGraph) -> (m: NetworkMetrics)
    ensures
        m.node_count == graph_nodes(*graph).len(),
        m.edge_count == graph_edges(*graph).len(),
        m.connected_components == component_roots(graph_nodes(*graph).len(), graph_edges(*graph)).len(),
        m.degree_sum == degree_sum(graph_edges(*graph), graph_nodes(*graph).len() as int),
        m.max_degree == max_degree(graph_edges(*graph), graph_nodes(*graph).len() as int),
        m.diameter is None,
{
    let ghost edges = graph_edges(*graph);
    let node_count = graph_node_count(graph);
    let edge_count = graph_edge_count(graph);
    let components = graph_connected_components(graph);
    let mut sum: u64 = 0;
    let mut max_deg: usize = 0;
    for i in 0..node_count
        invariant
            edges == graph_edges(*graph),
            node_count == graph_nodes(*graph).len(),
            edge_count == edges.len(),
            edge_count <= u32::MAX,
            sum == degree_sum(edges, i as int),
            max_deg == max_degree(edges, i as int),
    {
        let d = node_degree(graph, i);
        proof {
            lemma_degree_sum_bound(edges, i + 1);
        }
        sum = sum + d as u64;
        if d > max_deg {
            max_deg = d;
        }
    }
    NetworkMetrics {
        node_count,
        edge_count,
        connected_components: components,
        degree_sum: sum,
        max_degree: max_deg,
        diameter: None,
    }
}

/// `usize` keys follow the order model that `BTreeMap`'s specification
/// needs.
proof fn lemma_usize_keys_ordered()
    ensures
        vstd::laws_cmp::obeys_cmp::<usize>(),
{
    broadcast use vstd::laws_cmp::group_laws_cmp;

}

/// The degree distribution: for each degree that occurs, the number of
/// nodes with that degree.
pub fn compute_degree_distribution(graph: &NetworkGraph) -> (dist: std::collections::BTreeMap<
    usize,
    usize,
>)
    ensures
        forall|d: usize|
            #![trigger dist@.contains_key(d)]
            (dist@.contains_key(d) <==> degree_count(
                graph_edges(*graph),
                graph_nodes(*graph).len() as int,
                d as int,
            ) > 0) && (dist@.contains_key(d) ==> dist@[d] == degree_count(
                graph_edges(*graph),
                graph_nodes(*graph).len() as int,
                d as int,
            )),
{
    proof {
        lemma_usize_keys_ordered();
    }
    let ghost edges = graph_edges(*graph);
    let n = graph_node_count(graph);
    let mut dist: std::collections::BTreeMap<usize, usize> = std::collections::BTreeMap::new();
    for i in 0..n
        invariant
            edges == graph_edges(*graph),
            n == graph_nodes(*graph).len(),
            forall|d: usize|
                #![trigger dist@.contains_key(d)]
                (dist@.contains_key(d) <==> degree_count(edges, i as int, d as int) > 0) && (
                dist@.contains_key(d) ==> dist@[d] == degree_count(edges, i as int, d as int)),
    {
        let d = node_degree(graph, i);
        let current = match dist.get(&d) {
            Some(c) => *c,
            None => 0,
        };
        proof {
            lemma_degree_count_bound(edges, i as int, d as int);
            assert(current == degree_count(edges, i as int, d as int));
        }
        dist.insert(d, current + 1);
        proof {
            assert forall|e: usize|
                #![trigger dist@.contains_key(e)]
                (dist@.contains_key(e) <==> degree_count(edges, i + 1, e as int) > 0) && (
                dist@.contains_key(e) ==> dist@[e] == degree_count(edges, i + 1, e as int)) by {
                if e != d {
                    assert(degree_count(edges, i + 1, e as int) == degree_count(edges, i as int, e as int));
                }
            }
        }
    }
    dist
}

} // verus!

verus! {

/// The number of self-loops among `edges`.
pub open spec fn self_loops(edges: Seq<(int, int)>) -> nat
    decreases edges.len(),
{
    if edges.len() == 0 {
        0
    } else {
        self_loops(edges.drop_last()) + if edges.last().0 == edges.last().1 {
            1nat
        } else {
            0nat
        }
    }
}

/// The degrees of a network's nodes sum to twice its number of edges, less
/// one for each self-loop (which `neighbors` lists once); so the average
/// degree of a network without self-loops is twice its edges over its nodes.
pub proof fn lemma_degree_sum_counts_edges(edges: Seq<(int, int)>, n: nat)
    requires
        forall|k: int| 0 <= k < edges.len() ==> 0 <= #[trigger] edges[k].0 < n && 0 <= edges[k].1 < n,
    ensures
        degree_sum(edges, n as int) + self_loops(edges) == 2 * edges.len(),
    decreases edges.len(),
{
    if edges.len() > 0 {
        let rest = edges.drop_last();
        assert forall|k: int| 0 <= k < rest.len() implies 0 <= #[trigger] rest[k].0 < n && 0 <= rest[k].1 < n by {
            assert(rest[k] == edges[k]);
        }
        lemma_degree_sum_counts_edges(rest, n);
        assert(rest.push(edges.last()) =~= edges);
        assert(edges.last() == edges[edges.len() - 1]);
        lemma_degree_sum_push(rest, edges.last(), n as int);
    } else {
        lemma_degree_sum_no_edges(edges, n as int);
    }
}

/// The component of a node holds at least that node.
proof fn lemma_component_nonempty(n: nat, edges: Seq<(int, int)>, r: int)
    requires
        0 <= r < n,
    ensures
        component_members(n, edges, r).len() >= 1,
{
    broadcast use vstd::seq_lib::group_filter_ensures;

    lemma_reachable_refl(edges, r);
    assert(node_range(n as int)[r] == r);
    assert(component_members(n, edges, r).contains(r));
}

/// With no lower bound on their size and room for all of them, the
/// communities are the connected components, one each: as many as the
/// network metrics count.
pub proof fn lemma_all_components_are_communities(
    n: nat,
    edges: Seq<(int, int)>,
    min_size: int,
    num: int,
    sel: Seq<int>,
)
    requires
        top_components(n, edges, min_size, num, sel),
        min_size <= 1,
        num >= component_roots(n, edges).len(),
    ensures
        sel.len() == component_roots(n, edges).len(),
{
    broadcast use vstd::seq_lib::group_filter_ensures;

    let roots = component_roots(n, edges);
    let test = |r: int| component_members(n, edges, r).len() >= min_size;
    lemma_node_range_increasing(n as int);
    lemma_filter_increasing(node_range(n as int), |r: int| is_component_root(edges, r));
    assert(roots == node_range(n as int).filter(|r: int| is_component_root(edges, r)));
    assert forall|k: int| 0 <= k < roots.len() implies test(#[trigger] roots[k]) == (|r: int| true)(roots[k]) by {
        assert(node_range(n as int).contains(roots[k]));
        lemma_component_nonempty(n, edges, roots[k]);
    }
    lemma_filter_agree(roots, test, |r: int| true);
    lemma_filter_all(roots);
}

/// Keeping every entry keeps the sequence.
proof fn lemma_filter_all(s: Seq<int>)
    ensures
        s.filter(|r: int| true) == s,
    decreases s.len(),
{
    if s.len() > 0 {
        let rest = s.drop_last();
        lemma_filter_all(rest);
        assert(s =~= rest.push(s.last()));
        rest.lemma_filter_push(s.last(), |r: int| true);
    } else {
        reveal(Seq::filter);
        assert(s.filter(|r: int| true) =~= s);
    }
}

} // verus!

verus! {

/// The sum of the degree counts of the nodes `0..k` over the degrees below
/// `top`.
pub open spec fn distribution_total(edges: Seq<(int, int)>, k: int, top: int) -> nat
    decreases top,
{
    if top <= 0 {
        0
    } else {
        distribution_total(edges, k, top - 1) + degree_count(edges, k, top - 1)
    }
}

/// The number of nodes among `0..k` whose degree is below `top`.
pub open spec fn nodes_below(edges: Seq<(int, int)>, k: int, top: int) -> nat
    decreases k,
{
    if k <= 0 {
        0
    } else {
        nodes_below(edges, k - 1, top) + if degree(edges, k - 1) < top {
            1nat
        } else {
            0nat
        }
    }
}

proof fn lemma_total_step(edges: Seq<(int, int)>, k: int, top: int)
    requires
        k > 0,
    ensures
        distribution_total(edges, k, top) == distribution_total(edges, k - 1, top) + if degree(edges, k - 1)
            < top {
            1nat
        } else {
            0nat
        },
    decreases top,
{
    if top > 0 {
        lemma_total_step(edges, k, top - 1);
    }
}

proof fn lemma_total_is_below(edges: Seq<(int, int)>, k: int, top: int)
    requires
        0 <= k,
    ensures
        distribution_total(edges, k, top) == nodes_below(edges, k, top),
    decreases k,
{
    if k > 0 {
        lemma_total_is_below(edges, k - 1, top);
        lemma_total_step(edges, k, top);
    } else {
        lemma_total_empty(edges, k, top);
    }
}

proof fn lemma_total_empty(edges: Seq<(int, int)>, k: int, top: int)
    requires
        k <= 0,
    ensures
        distribution_total(edges, k, top) == 0,
    decreases top,
{
    if top > 0 {
        lemma_total_empty(edges, k, top - 1);
    }
}

proof fn lemma_max_degree_bound(edges: Seq<(int, int)>, k: int, i: int)
    requires
        0 <= i < k,
    ensures
        degree(edges, i) <= max_degree(edges, k),
    decreases k,
{
    if i < k - 1 {
        lemma_max_degree_bound(edges, k - 1, i);
    }
}

proof fn lemma_all_below(edges: Seq<(int, int)>, k: int, top: int)
    requires
        0 <= k,
        forall|i: int| 0 <= i < k ==> #[trigger] degree(edges, i) < top,
    ensures
        nodes_below(edges, k, top) == k,
    decreases k,
{
    if k > 0 {
        lemma_all_below(edges, k - 1, top);
    }
}

/// The degree distribution accounts for every node once: its counts, over
/// all degrees up to the largest, add up to the number of nodes.
pub proof fn lemma_distribution_counts_nodes(edges: Seq<(int, int)>, n: nat)
    ensures
        distribution_total(edges, n as int, (max_degree(edges, n as int) + 1) as int) == n,
{
    let top = (max_degree(edges, n as int) + 1) as int;
    lemma_total_is_below(edges, n as int, top);
    assert forall|i: int| 0 <= i < n implies #[trigger] degree(edges, i) < top by {
        lemma_max_degree_bound(edges, n as int, i);
    }
    lemma_all_below(edges, n as int, top);
}

} // verus!

verus! {

/// The test for being reached from `r`.
pub open spec fn reached_from(edges: Seq<(int, int)>, r: int) -> spec_fn(int) -> bool {
    |x: int| reachable(edges, r, x)
}

/// The sum of the sizes of the components of the roots `sel`.
pub open spec fn sizes_total(n: nat, edges: Seq<(int, int)>, sel: Seq<int>) -> nat
    decreases sel.len(),
{
    if sel.len() == 0 {
        0
    } else {
        sizes_total(n, edges, sel.drop_last()) + component_members(n, edges, sel.last()).len()
    }
}

/// The sum, over the roots `sel`, of the entries of `s` that each reaches.
pub open spec fn reach_total(s: Seq<int>, edges: Seq<(int, int)>, sel: Seq<int>) -> nat
    decreases sel.len(),
{
    if sel.len() == 0 {
        0
    } else {
        reach_total(s, edges, sel.drop_last()) + s.filter(reached_from(edges, sel.last())).len()
    }
}

/// The number of entries of `sel` that reach `x`.
pub open spec fn hits(edges: Seq<(int, int)>, sel: Seq<int>, x: int) -> nat
    decreases sel.len(),
{
    if sel.len() == 0 {
        0
    } else {
        hits(edges, sel.drop_last(), x) + if reachable(edges, sel.last(), x) {
            1nat
        } else {
            0nat
        }
    }
}

proof fn lemma_reach_total_push(s: Seq<int>, edges: Seq<(int, int)>, sel: Seq<int>, x: int)
    ensures
        reach_total(s.push(x), edges, sel) == reach_total(s, edges, sel) + hits(edges, sel, x),
    decreases sel.len(),
{
    if sel.len() > 0 {
        lemma_reach_total_push(s, edges, sel.drop_last(), x);
        s.lemma_filter_push(x, reached_from(edges, sel.last()));
    }
}

proof fn lemma_reach_total_empty(s: Seq<int>, edges: Seq<(int, int)>, sel: Seq<int>)
    requires
        s.len() == 0,
    ensures
        reach_total(s, edges, sel) == 0,
    decreases sel.len(),
{
    if sel.len() > 0 {
        lemma_reach_total_empty(s, edges, sel.drop_last());
        reveal(Seq::filter);
    }
}

proof fn lemma_sizes_are_reach_total(n: nat, edges: Seq<(int, int)>, sel: Seq<int>)
    ensures
        sizes_total(n, edges, sel) == reach_total(node_range(n as int), edges, sel),
    decreases sel.len(),
{
    if sel.len() > 0 {
        lemma_sizes_are_reach_total(n, edges, sel.drop_last());
        let r = sel.last();
        assert((|x: int| reachable(edges, r, x)) =~= reached_from(edges, r));
    }
}

proof fn lemma_no_hits(edges: Seq<(int, int)>, sel: Seq<int>, x: int)
    requires
        forall|k: int| 0 <= k < sel.len() ==> !reachable(edges, #[trigger] sel[k], x),
    ensures
        hits(edges, sel, x) == 0,
    decreases sel.len(),
{
    if sel.len() > 0 {
        let rest = sel.drop_last();
        assert forall|k: int| 0 <= k < rest.len() implies !reachable(edges, #[trigger] rest[k], x) by {
            assert(rest[k] == sel[k]);
        }
        lemma_no_hits(edges, rest, x);
        assert(sel[sel.len() - 1] == sel.last());
    }
}

proof fn lemma_one_hit(edges: Seq<(int, int)>, sel: Seq<int>, x: int, r0: int)
    requires
        sel.no_duplicates(),
        sel.contains(r0),
        reachable(edges, r0, x),
        forall|k: int| 0 <= k < sel.len() && reachable(edges, #[trigger] sel[k], x) ==> sel[k] == r0,
    ensures
        hits(edges, sel, x) == 1,
    decreases sel.len(),
{
    let rest = sel.drop_last();
    assert(sel[sel.len() - 1] == sel.last());
    assert forall|k: int| 0 <= k < rest.len() && reachable(edges, #[trigger] rest[k], x) implies rest[k] == r0 by {
        assert(rest[k] == sel[k]);
    }
    if sel.last() == r0 {
        assert forall|k: int| 0 <= k < rest.len() implies !reachable(edges, #[trigger] rest[k], x) by {
            assert(rest[k] == sel[k]);
            assert(sel[k] != sel[sel.len() - 1]);
        }
        lemma_no_hits(edges, rest, x);
    } else {
        let w = choose|w: int| 0 <= w < sel.len() && sel[w] == r0;
        assert(rest[w] == r0);
        assert(rest.no_duplicates()) by {
            assert forall|a: int, b: int| 0 <= a < rest.len() && 0 <= b < rest.len() && a != b implies rest[a] != rest[b] by {
                assert(rest[a] == sel[a] && rest[b] == sel[b]);
            }
        }
        assert(!reachable(edges, sel[sel.len() - 1], x));
        lemma_one_hit(edges, rest, x, r0);
    }
}

/// The smallest node that `x` reaches, searching from `lo`.
proof fn lemma_smallest_reached(edges: Seq<(int, int)>, x: int, lo: int) -> (j: int)
    requires
        0 <= lo <= x,
        forall|t: int| 0 <= t < lo ==> !reachable(edges, x, t),
    ensures
        lo <= j <= x,
        reachable(edges, x, j),
        forall|t: int| 0 <= t < j ==> !reachable(edges, x, t),
    decreases x - lo,
{
    if reachable(edges, x, lo) {
        lo
    } else if lo == x {
        lemma_reachable_refl(edges, x);
        lo
    } else {
        lemma_smallest_reached(edges, x, lo + 1)
    }
}

/// Every node lies in the component of exactly one root.
proof fn lemma_root_of(n: nat, edges: Seq<(int, int)>, x: int) -> (r: int)
    requires
        0 <= x < n,
    ensures
        component_roots(n, edges).contains(r),
        reachable(edges, r, x),
        forall|q: int| #[trigger] is_component_root(edges, q) && 0 <= q && reachable(edges, q, x) ==> q == r,
{
    broadcast use vstd::seq_lib::group_filter_ensures;

    let r = lemma_smallest_reached(edges, x, 0);
    assert forall|j: int| 0 <= j < r implies !#[trigger] reachable(edges, r, j) by {
        if reachable(edges, r, j) {
            lemma_reachable_trans(edges, x, r, j);
        }
    }
    assert(is_component_root(edges, r));
    assert(node_range(n as int)[r] == r);
    lemma_reachable_symmetric(edges, x, r);
    assert forall|q: int| #[trigger] is_component_root(edges, q) && 0 <= q && reachable(edges, q, x) implies q == r by {
        lemma_reachable_symmetric(edges, r, x);
        lemma_reachable_trans(edges, q, x, r);
        lemma_reachable_symmetric(edges, q, r);
        if q < r {
            assert(!reachable(edges, r, q));
        } else if r < q {
            assert(!reachable(edges, q, r));
        }
    }
    r
}

/// With no lower bound on their size and room for all of them, the
/// communities cover the network: every node lies in exactly one of them,
/// so their sizes add up to the number of nodes.
pub proof fn lemma_communities_cover_nodes(
    n: nat,
    edges: Seq<(int, int)>,
    min_size: int,
    num: int,
    sel: Seq<int>,
)
    requires
        top_components(n, edges, min_size, num, sel),
        min_size <= 1,
        num >= component_roots(n, edges).len(),
    ensures
        sizes_total(n, edges, sel) == n,
{
    broadcast use vstd::seq_lib::group_filter_ensures;

    let roots = component_roots(n, edges);
    lemma_all_components_are_communities(n, edges, min_size, num, sel);
    lemma_node_range_increasing(n as int);
    lemma_filter_increasing(node_range(n as int), |r: int| is_component_root(edges, r));
    assert(roots == node_range(n as int).filter(|r: int| is_component_root(edges, r)));
    lemma_increasing_no_dup(roots);
    let large = large_roots(n, edges, min_size);
    lemma_filter_increasing(roots, |r: int| component_members(n, edges, r).len() >= min_size);
    // The entries of `sel` are distinct roots.
    assert forall|k: int| 0 <= k < sel.len() implies roots.contains(#[trigger] sel[k]) by {
        assert(large.contains(sel[k]));
        let w = choose|w: int| 0 <= w < large.len() && large[w] == sel[k];
        assert(roots.contains(large[w]));
    }
    assert(sel.no_duplicates()) by {
        assert forall|a: int, b: int| 0 <= a < sel.len() && 0 <= b < sel.len() && a != b implies sel[a] != sel[b] by {
            if a < b {
                assert(larger_component(n, edges, sel[a], sel[b]));
            } else {
                assert(larger_component(n, edges, sel[b], sel[a]));
            }
        }
    }
    // `sel` holds every root: as many distinct roots as there are.
    sel.unique_seq_to_set();
    roots.unique_seq_to_set();
    assert forall|r: int| roots.contains(r) implies sel.contains(r) by {
        if !sel.contains(r) {
            assert forall|y: int| sel.to_set().contains(y) implies roots.to_set().remove(r).contains(y) by {
                let k = choose|k: int| 0 <= k < sel.len() && sel[k] == y;
                assert(roots.contains(sel[k]));
            }
            vstd::set_lib::lemma_len_subset(sel.to_set(), roots.to_set().remove(r));
            assert(roots.to_set().contains(r));
        }
    }
    // Each node is reached by exactly one entry of `sel`.
    assert forall|x: int| 0 <= x < n implies #[trigger] hits(edges, sel, x) == 1 by {
        let r0 = lemma_root_of(n, edges, x);
        assert forall|k: int| 0 <= k < sel.len() && reachable(edges, #[trigger] sel[k], x) implies sel[k] == r0 by {
            assert(roots.contains(sel[k]));
            let w = choose|w: int| 0 <= w < roots.len() && roots[w] == sel[k];
            assert(node_range(n as int).contains(roots[w]));
            assert(is_component_root(edges, sel[k]));
        }
        lemma_one_hit(edges, sel, x, r0);
    }
    lemma_sizes_are_reach_total(n, edges, sel);
    lemma_cover_count(n, edges, sel, n as int);
}

proof fn lemma_cover_count(n: nat, edges: Seq<(int, int)>, sel: Seq<int>, k: int)
    requires
        0 <= k <= n,
        forall|x: int| 0 <= x < n ==> #[trigger] hits(edges, sel, x) == 1,
    ensures
        reach_total(node_range(k), edges, sel) == k,
    decreases k,
{
    if k == 0 {
        lemma_reach_total_empty(node_range(0), edges, sel);
    } else {
        lemma_cover_count(n, edges, sel, k - 1);
        lemma_node_range_push(k - 1);
        lemma_reach_total_push(node_range(k - 1), edges, sel, k - 1);
        assert(hits(edges, sel, k - 1) == 1);
    }
}

} // verus!

verus! {

/// The sum, over the degrees below `top`, of each degree times the number
/// of nodes among `0..k` that have it.
pub open spec fn weighted_total(edges: Seq<(int, int)>, k: int, top: int) -> int
    decreases top,
{
    if top <= 0 {
        0
    } else {
        weighted_total(edges, k, top - 1) + (top - 1) * degree_count(edges, k, top - 1)
    }
}

proof fn lemma_weighted_step(edges: Seq<(int, int)>, k: int, top: int)
    requires
        k > 0,
    ensures
        weighted_total(edges, k, top) == weighted_total(edges, k - 1, top) + if degree(edges, k - 1) < top {
            degree(edges, k - 1) as int
        } else {
            0
        },
    decreases top,
{
    if top > 0 {
        lemma_weighted_step(edges, k, top - 1);
        let c = degree_count(edges, k - 1, top - 1);
        let hit: int = if degree(edges, k - 1) == top - 1 { 1 } else { 0 };
        assert((top - 1) * (c + hit) == (top - 1) * c + (top - 1) * hit) by (nonlinear_arith);
        assert((top - 1) * hit == if degree(edges, k - 1) == top - 1 { top - 1 } else { 0 });
    }
}

proof fn lemma_weighted_empty(edges: Seq<(int, int)>, k: int, top: int)
    requires
        k <= 0,
    ensures
        weighted_total(edges, k, top) == 0,
    decreases top,
{
    if top > 0 {
        lemma_weighted_empty(edges, k, top - 1);
        assert((top - 1) * 0 == 0);
    }
}

proof fn lemma_weighted_is_sum(edges: Seq<(int, int)>, k: int, top: int)
    requires
        0 <= k,
        forall|i: int| 0 <= i < k ==> #[trigger] degree(edges, i) < top,
    ensures
        weighted_total(edges, k, top) == degree_sum(edges, k),
    decreases k,
{
    if k > 0 {
        lemma_weighted_is_sum(edges, k - 1, top);
        lemma_weighted_step(edges, k, top);
        assert(degree(edges, k - 1) < top);
    } else {
        lemma_weighted_empty(edges, k, top);
    }
}

/// Some node among `0..k` has the largest degree.
proof fn lemma_max_degree_attained(edges: Seq<(int, int)>, k: int) -> (i: int)
    requires
        k > 0,
    ensures
        0 <= i < k,
        degree(edges, i) == max_degree(edges, k),
    decreases k,
{
    if k == 1 {
        assert(max_degree(edges, 0) == 0);
        0
    } else {
        let j = lemma_max_degree_attained(edges, k - 1);
        if degree(edges, k - 1) > max_degree(edges, k - 1) {
            k - 1
        } else {
            j
        }
    }
}

proof fn lemma_count_positive(edges: Seq<(int, int)>, k: int, i: int)
    requires
        0 <= i < k,
    ensures
        degree_count(edges, k, degree(edges, i) as int) > 0,
    decreases k,
{
    if i < k - 1 {
        lemma_count_positive(edges, k - 1, i);
    }
}

proof fn lemma_count_above_max(edges: Seq<(int, int)>, k: int, n: int, d: int)
    requires
        0 <= k <= n,
        d > max_degree(edges, n),
    ensures
        degree_count(edges, k, d) == 0,
    decreases k,
{
    if k > 0 {
        lemma_count_above_max(edges, k - 1, n, d);
        lemma_max_degree_bound(edges, n, k - 1);
    }
}

/// The degree distribution agrees with the network metrics: on a network
/// with a node, its largest degree is the largest degree of the metrics, no
/// larger degree occurs, and the degrees weighted by their counts add up to
/// the sum of the degrees (from which the average degree follows).
pub proof fn lemma_distribution_matches_metrics(edges: Seq<(int, int)>, n: nat)
    requires
        n > 0,
    ensures
        degree_count(edges, n as int, max_degree(edges, n as int) as int) > 0,
        forall|d: int| d > max_degree(edges, n as int) ==> #[trigger] degree_count(edges, n as int, d) == 0,
        weighted_total(edges, n as int, (max_degree(edges, n as int) + 1) as int) == degree_sum(edges, n as int),
{
    let i = lemma_max_degree_attained(edges, n as int);
    lemma_count_positive(edges, n as int, i);
    assert forall|d: int| d > max_degree(edges, n as int) implies #[trigger] degree_count(edges, n as int, d) == 0 by {
        lemma_count_above_max(edges, n as int, n as int, d);
    }
    let top = (max_degree(edges, n as int) + 1) as int;
    assert forall|j: int| 0 <= j < n implies #[trigger] degree(edges, j) < top by {
        lemma_max_degree_bound(edges, n as int, j);
    }
    lemma_weighted_is_sum(edges, n as int, top);
}

} // verus!
