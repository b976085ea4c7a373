//! A dense core of the network, found by greedy peeling.
//!
//! Starting from all nodes, the peeling removes one node of least degree
//! (among the remaining nodes, counting only edges to remaining nodes; the
//! smallest such node) at each step, until no node remains. Each state is
//! scored by the number of edges that it keeps over its number of nodes;
//! the first state of highest positive score is the result.
//!
//! The edges a state keeps are the edges between two different remaining
//! nodes, plus every self-loop of the network (the peeling never discounts
//! those).

use crate::graph::{
    NetworkGraph, as_ints, graph_edge_count, graph_edges, graph_neighbors, graph_node_count,
    graph_node_weight, graph_nodes, lemma_listed_neighbors, neighbors_of,
};
use vstd::multiset::Multiset;
use vstd::prelude::*;

verus! {

broadcast use vstd::seq_lib::group_to_multiset_ensures;

/// Node `u` remains in the state `alive`.
pub open spec fn remains(alive: Seq<bool>, u: int) -> bool {
    0 <= u < alive.len() && alive[u]
}

/// The degree of `v` within a state: its neighbours that remain.
pub open spec fn live_degree(edges: Seq<(int, int)>, alive: Seq<bool>, v: int) -> nat {
    neighbors_of(edges, v).filter(|u: int| remains(alive, u)).len()
}

/// The edges that a state keeps: those between two different remaining
/// nodes, and all self-loops.
pub open spec fn live_links(edges: Seq<(int, int)>, alive: Seq<bool>) -> nat
    decreases edges.len(),
{
    if edges.len() == 0 {
        0
    } else {
        let e = edges.last();
        live_links(edges.drop_last(), alive) + if e.0 == e.1 || (remains(alive, e.0) && remains(
            alive,
            e.1,
        )) {
            1nat
        } else {
            0nat
        }
    }
}

/// The number of remaining nodes among `0..k`.
pub open spec fn live_count(alive: Seq<bool>, k: int) -> nat
    decreases k,
{
    if k <= 0 {
        0
    } else {
        live_count(alive, k - 1) + if remains(alive, k - 1) {
            1nat
        } else {
            0nat
        }
    }
}

/// The smallest remaining node among `0..k` of least degree within the
/// state, or -1 when none remains.
pub open spec fn least_live(edges: Seq<(int, int)>, alive: Seq<bool>, k: int) -> int
    decreases k,
{
    if k <= 0 {
        -1
    } else {
        let r = least_live(edges, alive, k - 1);
        if remains(alive, k - 1) && (r < 0 || live_degree(edges, alive, k - 1) < live_degree(
            edges,
            alive,
            r,
        )) {
            k - 1
        } else {
            r
        }
    }
}

/// The state after `j` peeling steps on the nodes `0..n`.
pub open spec fn peel_state(edges: Seq<(int, int)>, n: nat, j: nat) -> Seq<bool>
    decreases j,
{
    if j == 0 {
        Seq::new(n, |i: int| true)
    } else {
        let prev = peel_state(edges, n, (j - 1) as nat);
        let m = least_live(edges, prev, n as int);
        if m >= 0 {
            prev.update(m, false)
        } else {
            prev
        }
    }
}

/// State `a` scores higher than state `b` (scores are kept edges over
/// remaining nodes; a state with no node scores 0).
pub open spec fn denser(edges: Seq<(int, int)>, n: nat, a: Seq<bool>, b: Seq<bool>) -> bool {
    let ea = live_links(edges, a);
    let na = live_count(a, n as int);
    let eb = live_links(edges, b);
    let nb = live_count(b, n as int);
    &&& na > 0
    &&& if nb == 0 {
        ea > 0
    } else {
        ea * nb > eb * na
    }
}

/// The best state among the first `j` peeling states that still hold a
/// node: the first one of highest score, if one scores above 0 (-1 if
/// none).
pub open spec fn best_state(edges: Seq<(int, int)>, n: nat, j: nat) -> int
    decreases j,
{
    if j == 0 {
        -1
    } else {
        let b = best_state(edges, n, (j - 1) as nat);
        let cur = peel_state(edges, n, (j - 1) as nat);
        let best = if b < 0 {
            Seq::new(n, |i: int| false)
        } else {
            peel_state(edges, n, b as nat)
        };
        if denser(edges, n, cur, best) {
            j - 1
        } else {
            b
        }
    }
}

/// The nodes of the dense core, in increasing order (none when no state
/// scores above 0).
pub open spec fn densest_nodes(edges: Seq<(int, int)>, n: nat) -> Seq<int> {
    let b = best_state(edges, n, n);
    if b < 0 {
        Seq::empty()
    } else {
        Seq::new(n, |i: int| i).filter(|i: int| peel_state(edges, n, b as nat)[i])
    }
}

} // verus!

verus! {

/// The number of entries of `s` equal to `x`.
pub open spec fn occ(s: Seq<int>, x: int) -> nat {
    s.filter(equal_to(x)).len()
}

/// The test for being `x`.
pub open spec fn equal_to(x: int) -> spec_fn(int) -> bool {
    |u: int| u == x
}

proof fn lemma_filter_to_multiset(s: Seq<int>, p: spec_fn(int) -> bool)
    ensures
        s.filter(p).to_multiset() =~= s.to_multiset().filter(p),
    decreases s.len(),
{
    broadcast use vstd::multiset::group_multiset_axioms;

    if s.len() == 0 {
        reveal(Seq::filter);
        assert(s.filter(p) =~= Seq::<int>::empty());
        assert(s.to_multiset() =~= Multiset::<int>::empty());
    } else {
        let rest = s.drop_last();
        lemma_filter_to_multiset(rest, p);
        assert(s =~= rest.push(s.last()));
        rest.lemma_filter_push(s.last(), p);
    }
}

/// Lists with the same entries have the same number of entries that
/// satisfy `p`.
proof fn lemma_same_multiset_filter_len(s1: Seq<int>, s2: Seq<int>, p: spec_fn(int) -> bool)
    requires
        s1.to_multiset() == s2.to_multiset(),
    ensures
        s1.filter(p).len() == s2.filter(p).len(),
{
    lemma_filter_to_multiset(s1, p);
    lemma_filter_to_multiset(s2, p);
    assert(s1.filter(p).len() == s1.filter(p).to_multiset().len());
    assert(s2.filter(p).len() == s2.filter(p).to_multiset().len());
}

/// When `p_old` holds exactly where `p_new` holds or at `m`, and `p_new`
/// fails at `m`, the entries satisfying `p_old` are those satisfying `p_new`
/// and those equal to `m`.
proof fn lemma_filter_split(s: Seq<int>, p_old: spec_fn(int) -> bool, p_new: spec_fn(int) -> bool, m: int)
    requires
        forall|u: int| #[trigger] p_old(u) == (p_new(u) || u == m),
        !p_new(m),
    ensures
        s.filter(p_old).len() == s.filter(p_new).len() + occ(s, m),
    decreases s.len(),
{
    if s.len() > 0 {
        let rest = s.drop_last();
        lemma_filter_split(rest, p_old, p_new, m);
        assert(s =~= rest.push(s.last()));
        rest.lemma_filter_push(s.last(), p_old);
        rest.lemma_filter_push(s.last(), p_new);
        rest.lemma_filter_push(s.last(), equal_to(m));
    } else {
        reveal(Seq::filter);
    }
}

/// The edges between two different nodes count alike from either end.
proof fn lemma_occ_symmetric(edges: Seq<(int, int)>, v: int, m: int)
    requires
        v != m,
    ensures
        occ(neighbors_of(edges, v), m) == occ(neighbors_of(edges, m), v),
    decreases edges.len(),
{
    if edges.len() > 0 {
        let rest = edges.drop_last();
        lemma_occ_symmetric(rest, v, m);
        neighbors_of(rest, v).lemma_filter_push(edges.last().0, equal_to(m));
        neighbors_of(rest, v).lemma_filter_push(edges.last().1, equal_to(m));
        neighbors_of(rest, m).lemma_filter_push(edges.last().0, equal_to(v));
        neighbors_of(rest, m).lemma_filter_push(edges.last().1, equal_to(v));
    } else {
        reveal(Seq::filter);
    }
}

/// Removing `m` loses the kept edges between `m` and the other remaining
/// nodes.
proof fn lemma_links_remove(edges: Seq<(int, int)>, alive: Seq<bool>, m: int)
    requires
        remains(alive, m),
    ensures
        live_links(edges, alive) == live_links(edges, alive.update(m, false)) + live_degree(
            edges,
            alive.update(m, false),
            m,
        ),
    decreases edges.len(),
{
    let new = alive.update(m, false);
    let p = |u: int| remains(new, u);
    if edges.len() > 0 {
        let rest = edges.drop_last();
        let e = edges.last();
        lemma_links_remove(rest, alive, m);
        neighbors_of(rest, m).lemma_filter_push(e.0, p);
        neighbors_of(rest, m).lemma_filter_push(e.1, p);
        assert(remains(alive, e.0) == (remains(new, e.0) || e.0 == m));
        assert(remains(alive, e.1) == (remains(new, e.1) || e.1 == m));
    } else {
        reveal(Seq::filter);
    }
}

/// A state with one node less.
proof fn lemma_degree_remove(edges: Seq<(int, int)>, alive: Seq<bool>, m: int, v: int)
    requires
        remains(alive, m),
        v != m,
    ensures
        live_degree(edges, alive, v) == live_degree(edges, alive.update(m, false), v) + occ(
            neighbors_of(edges, m),
            v,
        ),
{
    let new = alive.update(m, false);
    assert forall|u: int| remains(alive, u) == (remains(new, u) || u == m) by {}
    lemma_filter_split(neighbors_of(edges, v), |u: int| remains(alive, u), |u: int| remains(new, u), m);
    lemma_occ_symmetric(edges, v, m);
}

proof fn lemma_live_count_remove(alive: Seq<bool>, m: int, k: int)
    requires
        remains(alive, m),
        0 <= k,
    ensures
        live_count(alive, k) == live_count(alive.update(m, false), k) + if m < k {
            1nat
        } else {
            0nat
        },
    decreases k,
{
    if k > 0 {
        lemma_live_count_remove(alive, m, k - 1);
    }
}

proof fn lemma_least_live(edges: Seq<(int, int)>, alive: Seq<bool>, k: int)
    requires
        0 <= k,
    ensures
        least_live(edges, alive, k) < k,
        least_live(edges, alive, k) >= 0 ==> remains(alive, least_live(edges, alive, k)),
        (least_live(edges, alive, k) < 0) == (live_count(alive, k) == 0),
        least_live(edges, alive, k) >= -1,
    decreases k,
{
    if k > 0 {
        lemma_least_live(edges, alive, k - 1);
    }
}

proof fn lemma_live_links_bound(edges: Seq<(int, int)>, alive: Seq<bool>)
    ensures
        live_links(edges, alive) <= edges.len(),
    decreases edges.len(),
{
    if edges.len() > 0 {
        lemma_live_links_bound(edges.drop_last(), alive);
    }
}

proof fn lemma_live_count_bound(alive: Seq<bool>, k: int)
    requires
        0 <= k,
    ensures
        live_count(alive, k) <= k,
    decreases k,
{
    if k > 0 {
        lemma_live_count_bound(alive, k - 1);
    }
}

/// The peeling states keep `n` entries, and after `j <= n` steps `n - j`
/// nodes remain.
proof fn lemma_peel_state(edges: Seq<(int, int)>, n: nat, j: nat)
    requires
        j <= n,
    ensures
        peel_state(edges, n, j).len() == n,
        live_count(peel_state(edges, n, j), n as int) == n - j,
    decreases j,
{
    if j == 0 {
        lemma_all_live(n, n as int);
    } else {
        lemma_peel_state(edges, n, (j - 1) as nat);
        let prev = peel_state(edges, n, (j - 1) as nat);
        lemma_least_live(edges, prev, n as int);
        let m = least_live(edges, prev, n as int);
        lemma_live_count_remove(prev, m, n as int);
    }
}

proof fn lemma_all_live(n: nat, k: int)
    requires
        0 <= k <= n,
    ensures
        live_count(Seq::new(n, |i: int| true), k) == k,
    decreases k,
{
    if k > 0 {
        lemma_all_live(n, k - 1);
    }
}

/// With every node remaining, a node's degree is its number of listed
/// neighbours.
proof fn lemma_full_degree(edges: Seq<(int, int)>, n: nat, v: int)
    requires
        forall|k: int| 0 <= k < edges.len() ==> 0 <= #[trigger] edges[k].0 < n && 0 <= edges[k].1 < n,
    ensures
        live_degree(edges, Seq::new(n, |i: int| true), v) == neighbors_of(edges, v).len(),
    decreases edges.len(),
{
    let all = Seq::new(n, |i: int| true);
    let p = |u: int| remains(all, u);
    if edges.len() > 0 {
        let rest = edges.drop_last();
        assert forall|k: int| 0 <= k < rest.len() implies 0 <= #[trigger] rest[k].0 < n && 0 <= rest[k].1 < n by {
            assert(rest[k] == edges[k]);
        }
        lemma_full_degree(rest, n, v);
        let e = edges.last();
        assert(e == edges[edges.len() - 1]);
        neighbors_of(rest, v).lemma_filter_push(e.0, p);
        neighbors_of(rest, v).lemma_filter_push(e.1, p);
    } else {
        reveal(Seq::filter);
    }
}

/// With every node remaining, every edge is kept.
proof fn lemma_full_links(edges: Seq<(int, int)>, n: nat)
    requires
        forall|k: int| 0 <= k < edges.len() ==> 0 <= #[trigger] edges[k].0 < n && 0 <= edges[k].1 < n,
    ensures
        live_links(edges, Seq::new(n, |i: int| true)) == edges.len(),
    decreases edges.len(),
{
    if edges.len() > 0 {
        let rest = edges.drop_last();
        assert forall|k: int| 0 <= k < rest.len() implies 0 <= #[trigger] rest[k].0 < n && 0 <= rest[k].1 < n by {
            assert(rest[k] == edges[k]);
        }
        lemma_full_links(rest, n);
        assert(edges.last() == edges[edges.len() - 1]);
    }
}

/// With no node remaining, none is counted.
proof fn lemma_none_live(n: nat, k: int)
    ensures
        live_count(Seq::new(n, |i: int| false), k) == 0,
    decreases k,
{
    if k > 0 {
        lemma_none_live(n, k - 1);
    }
}

/// Every listed neighbour of a node is a node.
proof fn lemma_listed_in_range(edges: Seq<(int, int)>, n: int, a: int, listed: Seq<usize>)
    requires
        forall|k: int| 0 <= k < edges.len() ==> 0 <= #[trigger] edges[k].0 < n && 0 <= edges[k].1 < n,
        as_ints(listed).to_multiset() == neighbors_of(edges, a).to_multiset(),
    ensures
        forall|i: int| 0 <= i < listed.len() ==> #[trigger] listed[i] < n,
{
    assert forall|i: int| 0 <= i < listed.len() implies #[trigger] listed[i] < n by {
        let v = listed[i] as int;
        assert(as_ints(listed)[i] == v);
        lemma_listed_neighbors(edges, a, listed, v);
        let k = choose|k: int|
            0 <= k < edges.len() && ((#[trigger] edges[k].0 == a && edges[k].1 == v) || (edges[k].0
                == v && edges[k].1 == a));
    }
}

/// The smallest remaining node of least degree (there is one).
fn least_remaining(graph: &NetworkGraph, alive: &Vec<bool>, deg: &Vec<usize>) -> (m: usize)
    requires
        alive@.len() == graph_nodes(*graph).len(),
        deg@.len() == alive@.len(),
        forall|v: int|
            0 <= v < alive@.len() && alive@[v] ==> #[trigger] deg@[v] == live_degree(
                graph_edges(*graph),
                alive@,
                v,
            ),
        live_count(alive@, alive@.len() as int) > 0,
    ensures
        m as int == least_live(graph_edges(*graph), alive@, alive@.len() as int),
        m < alive@.len(),
{
    let ghost edges = graph_edges(*graph);
    let n = alive.len();
    let mut found = false;
    let mut best: usize = 0;
    let mut k: usize = 0;
    while k < n
        invariant
            n == alive@.len(),
            deg@.len() == n,
            k <= n,
            forall|v: int|
                0 <= v < n && alive@[v] ==> #[trigger] deg@[v] == live_degree(edges, alive@, v),
            found ==> best as int == least_live(edges, alive@, k as int),
            !found ==> least_live(edges, alive@, k as int) == -1,
            best < n || !found,
        decreases n - k,
    {
        proof {
            lemma_least_live(edges, alive@, k as int);
        }
        if alive[k] && (!found || deg[k] < deg[best]) {
            best = k;
            found = true;
        }
        k += 1;
    }
    proof {
        lemma_least_live(edges, alive@, n as int);
    }
    best
}

/// Removes node `m` from the state, keeping the degrees of the remaining
/// nodes and the number of kept edges up to date.
fn remove_node(
    graph: &NetworkGraph,
    alive: &mut Vec<bool>,
    deg: &mut Vec<usize>,
    links: &mut usize,
    m: usize,
)
    requires
        old(alive)@.len() == graph_nodes(*graph).len(),
        old(deg)@.len() == old(alive)@.len(),
        forall|k: int|
            0 <= k < graph_edges(*graph).len() ==> 0 <= #[trigger] graph_edges(*graph)[k].0
                < old(alive)@.len() && 0 <= graph_edges(*graph)[k].1 < old(alive)@.len(),
        m < old(alive)@.len(),
        old(alive)@[m as int],
        forall|v: int|
            0 <= v < old(alive)@.len() && old(alive)@[v] ==> #[trigger] old(deg)@[v]
                == live_degree(graph_edges(*graph), old(alive)@, v),
        *old(links) == live_links(graph_edges(*graph), old(alive)@),
    ensures
        final(alive)@ == old(alive)@.update(m as int, false),
        final(deg)@.len() == old(deg)@.len(),
        forall|v: int|
            0 <= v < final(alive)@.len() && final(alive)@[v] ==> #[trigger] final(deg)@[v]
                == live_degree(graph_edges(*graph), final(alive)@, v),
        *final(links) == live_links(graph_edges(*graph), final(alive)@),
{
    let ghost edges = graph_edges(*graph);
    let ghost before = alive@;
    let n = alive.len();
    alive.set(m, false);
    let ghost after = alive@;
    let list = graph_neighbors(graph, m);
    let ghost ls = as_ints(list@);
    let ghost p = |u: int| remains(after, u);
    proof {
        lemma_listed_in_range(edges, n as int, m as int, list@);
        lemma_links_remove(edges, before, m as int);
        lemma_same_multiset_filter_len(ls, neighbors_of(edges, m as int), p);
        assert(ls.take(ls.len() as int) =~= ls);
        assert forall|v: int| 0 <= v < n && after[v] implies #[trigger] deg@[v] == live_degree(
            edges,
            after,
            v,
        ) + occ(ls.take(ls.len() as int), v) by {
            lemma_degree_remove(edges, before, m as int, v);
            lemma_same_multiset_filter_len(ls, neighbors_of(edges, m as int), equal_to(v));
        }
    }
    let mut i = list.len();
    while i > 0
        invariant
            n == after.len(),
            alive@ == after,
            deg@.len() == n,
            ls == as_ints(list@),
            p == (|u: int| remains(after, u)),
            i <= list@.len(),
            forall|j: int| 0 <= j < list@.len() ==> #[trigger] list@[j] < n,
            forall|v: int|
                0 <= v < n && after[v] ==> #[trigger] deg@[v] == live_degree(edges, after, v) + occ(
                    ls.take(i as int),
                    v,
                ),
            *links == live_links(edges, after) + ls.take(i as int).filter(p).len(),
        decreases i,
    {
        i -= 1;
        let u = list[i];
        proof {
            let pre = ls.take(i as int);
            assert(ls[i as int] == u as int);
            assert(ls.take(i as int + 1) =~= pre.push(u as int));
            assert(list@[i as int] < n);
            assert(p(u as int) == after[u as int]);
            pre.lemma_filter_push(u as int, p);
            assert forall|v: int| 0 <= v < n implies occ(pre.push(u as int), v) == occ(pre, v) + if v
                == u {
                1nat
            } else {
                0nat
            } by {
                pre.lemma_filter_push(u as int, equal_to(v));
            }
        }
        if alive[u] {
            deg.set(u, deg[u] - 1);
            *links = *links - 1;
        }
    }
    proof {
        assert(ls.take(0) =~= Seq::<int>::empty());
        reveal(Seq::filter);
    }
}

/// The nodes of a dense core of the network, found by greedy peeling, as
/// their ASINs in node order: of the states that the peeling passes through,
/// the first with the highest number of kept edges per remaining node (none
/// when no state keeps an edge).
pub fn find_densest_subgraph(graph: &NetworkGraph) -> (result: Vec<String>)
    ensures
        result@.len() == densest_nodes(graph_edges(*graph), graph_nodes(*graph).len()).len(),
        forall|i: int|
            0 <= i < result@.len() ==> #[trigger] result@[i]@ == graph_nodes(*graph)[densest_nodes(
                graph_edges(*graph),
                graph_nodes(*graph).len(),
            )[i]],
{
    let ghost edges = graph_edges(*graph);
    let n = graph_node_count(graph);
    let ghost nn = n as nat;
    let mut alive: Vec<bool> = vec![true; n];
    let mut deg: Vec<usize> = Vec::new();
    proof {
        assert(alive@ =~= Seq::new(nn, |i: int| true));
    }
    for v in 0..n
        invariant
            n == graph_nodes(*graph).len(),
            nn == n,
            edges == graph_edges(*graph),
            alive@ == Seq::new(nn, |i: int| true),
            deg@.len() == v,
            forall|k: int| 0 <= k < edges.len() ==> 0 <= #[trigger] edges[k].0 < n && 0 <= edges[k].1 < n,
            forall|w: int| 0 <= w < v ==> #[trigger] deg@[w] == live_degree(edges, alive@, w),
    {
        let list = graph_neighbors(graph, v);
        proof {
            lemma_full_degree(edges, nn, v as int);
            assert(list@.len() == as_ints(list@).len());
            assert(as_ints(list@).len() == as_ints(list@).to_multiset().len());
            assert(neighbors_of(edges, v as int).len() == neighbors_of(edges, v as int).to_multiset().len());
        }
        deg.push(list.len());
    }
    let mut links: usize = graph_edge_count(graph);
    proof {
        lemma_full_links(edges, nn);
        lemma_none_live(nn, nn as int);
    }
    let mut remaining: usize = n;
    let mut best: Vec<bool> = vec![false; n];
    proof {
        assert(best@ =~= Seq::new(nn, |i: int| false));
    }
    let mut best_links: usize = 0;
    let mut best_count: usize = 0;
    let ghost mut best_j: int = -1;
    let mut j: usize = 0;
    while j < n
        invariant
            n == graph_nodes(*graph).len(),
            nn == n,
            edges == graph_edges(*graph),
            forall|k: int| 0 <= k < edges.len() ==> 0 <= #[trigger] edges[k].0 < n && 0 <= edges[k].1 < n,
            links <= u32::MAX,
            best_links <= u32::MAX,
            alive@.len() == n,
            best@.len() == n,
            edges.len() <= u32::MAX,
            n <= u32::MAX,
            j <= n,
            alive@ == peel_state(edges, nn, j as nat),
            deg@.len() == n,
            forall|v: int|
                0 <= v < n && alive@[v] ==> #[trigger] deg@[v] == live_degree(edges, alive@, v),
            links == live_links(edges, alive@),
            remaining == n - j,
            best_j == best_state(edges, nn, j as nat),
            -1 <= best_j < j,
            best_j < 0 ==> best@ == Seq::new(nn, |i: int| false),
            best_j >= 0 ==> best@ == peel_state(edges, nn, best_j as nat),
            best_count == live_count(best@, n as int),
            best_count > 0 ==> best_links == live_links(edges, best@),
            best_count <= n,
        decreases n - j,
    {
        proof {
            lemma_peel_state(edges, nn, j as nat);
            lemma_live_links_bound(edges, alive@);
            if best_j >= 0 {
                lemma_peel_state(edges, nn, best_j as nat);
            }
        }
        proof {
            assert((links as int) * (best_count as int) <= 0xffff_ffff * 0xffff_ffff)
                by (nonlinear_arith)
                requires
                    links <= 0xffff_ffff,
                    best_count <= 0xffff_ffff,
            ;
            assert((best_links as int) * (remaining as int) <= 0xffff_ffff * 0xffff_ffff)
                by (nonlinear_arith)
                requires
                    best_links <= 0xffff_ffff,
                    remaining <= 0xffff_ffff,
            ;
        }
        let better = if best_count == 0 {
            links > 0
        } else {
            (links as u128) * (best_count as u128) > (best_links as u128) * (remaining as u128)
        };
        if better {
            best = alive.clone();
            proof {
                assert(best@ =~= alive@);
            }
            best_links = links;
            best_count = remaining;
            proof {
                best_j = j as int;
            }
        }
        let m = least_remaining(graph, &alive, &deg);
        proof {
            lemma_least_live(edges, alive@, n as int);
        }
        remove_node(graph, &mut alive, &mut deg, &mut links, m);
        proof {
            lemma_live_links_bound(edges, alive@);
        }
        remaining -= 1;
        j += 1;
    }
    let mut result: Vec<String> = Vec::new();
    let ghost mut picked: Seq<int> = Seq::empty();
    for v in 0..n
        invariant
            n == graph_nodes(*graph).len(),
            best@.len() == n,
            picked == Seq::new(v as nat, |i: int| i).filter(|i: int| best@[i]),
            result@.len() == picked.len(),
            forall|k: int| 0 <= k < result@.len() ==> #[trigger] result@[k]@ == graph_nodes(*graph)[picked[k]],
    {
        proof {
            assert(Seq::new(v as nat + 1, |i: int| i) =~= Seq::new(v as nat, |i: int| i).push(v as int));
            Seq::new(v as nat, |i: int| i).lemma_filter_push(v as int, |i: int| best@[i]);
        }
        if best[v] {
            let w = match graph_node_weight(graph, v) {
                Some(w) => w.clone(),
                None => String::new(),
            };
            result.push(w);
            proof {
                picked = picked.push(v as int);
            }
        }
    }
    proof {
        let all = Seq::new(nn, |i: int| i);
        if best_j < 0 {
            assert forall|k: int| 0 <= k < all.len() implies !best@[all[k]] by {}
            lemma_filter_none(all, |i: int| best@[i]);
        } else {
            assert((|i: int| best@[i]) =~= (|i: int| peel_state(edges, nn, best_j as nat)[i]));
        }
    }
    result
}

/// No entry passes the test, so none is kept.
proof fn lemma_filter_none(s: Seq<int>, p: spec_fn(int) -> bool)
    requires
        forall|k: int| 0 <= k < s.len() ==> !p(#[trigger] s[k]),
    ensures
        s.filter(p).len() == 0,
    decreases s.len(),
{
    if s.len() > 0 {
        let rest = s.drop_last();
        assert forall|k: int| 0 <= k < rest.len() implies !p(#[trigger] rest[k]) by {
            assert(rest[k] == s[k]);
        }
        lemma_filter_none(rest, p);
        assert(s =~= rest.push(s.last()));
        rest.lemma_filter_push(s.last(), p);
    } else {
        reveal(Seq::filter);
    }
}

} // verus!

verus! {

/// The edges with both ends in the node set `s` (self-loops included).
pub open spec fn inside_links(edges: Seq<(int, int)>, s: Seq<bool>) -> nat
    decreases edges.len(),
{
    if edges.len() == 0 {
        0
    } else {
        let e = edges.last();
        inside_links(edges.drop_last(), s) + if remains(s, e.0) && remains(s, e.1) {
            1nat
        } else {
            0nat
        }
    }
}

/// Every node of `s` is a node of `t`.
pub open spec fn within(s: Seq<bool>, t: Seq<bool>) -> bool {
    &&& s.len() == t.len()
    &&& forall|v: int| 0 <= v < s.len() && #[trigger] s[v] ==> t[v]
}

/// The sum of the degrees within `s` of the nodes of `s` among `0..k`.
pub open spec fn degree_total(edges: Seq<(int, int)>, s: Seq<bool>, k: int) -> nat
    decreases k,
{
    if k <= 0 {
        0
    } else {
        degree_total(edges, s, k - 1) + if remains(s, k - 1) {
            live_degree(edges, s, k - 1)
        } else {
            0nat
        }
    }
}

proof fn lemma_degree_push(edges: Seq<(int, int)>, e: (int, int), s: Seq<bool>, v: int)
    ensures
        live_degree(edges.push(e), s, v) == live_degree(edges, s, v) + (if e.0 == v && remains(
            s,
            e.1,
        ) {
            1nat
        } else {
            0nat
        }) + (if e.0 != v && e.1 == v && remains(s, e.0) {
            1nat
        } else {
            0nat
        }),
{
    let p = |u: int| remains(s, u);
    assert(edges.push(e).drop_last() =~= edges);
    neighbors_of(edges, v).lemma_filter_push(e.0, p);
    neighbors_of(edges, v).lemma_filter_push(e.1, p);
}

proof fn lemma_total_push(edges: Seq<(int, int)>, e: (int, int), s: Seq<bool>, k: int)
    requires
        0 <= k <= s.len(),
    ensures
        degree_total(edges.push(e), s, k) == degree_total(edges, s, k) + (if e.0 < k && remains(
            s,
            e.0,
        ) && remains(s, e.1) {
            1nat
        } else {
            0nat
        }) + (if e.1 < k && e.0 != e.1 && remains(s, e.1) && remains(s, e.0) {
            1nat
        } else {
            0nat
        }),
    decreases k,
{
    if k > 0 {
        lemma_total_push(edges, e, s, k - 1);
        lemma_degree_push(edges, e, s, k - 1);
    }
}

/// Each edge inside `s` adds at most two to the degrees within `s`.
proof fn lemma_handshake(edges: Seq<(int, int)>, s: Seq<bool>)
    ensures
        degree_total(edges, s, s.len() as int) <= 2 * inside_links(edges, s),
    decreases edges.len(),
{
    if edges.len() == 0 {
        lemma_total_empty(edges, s, s.len() as int);
    } else {
        let rest = edges.drop_last();
        let e = edges.last();
        lemma_handshake(rest, s);
        assert(edges =~= rest.push(e));
        lemma_total_push(rest, e, s, s.len() as int);
    }
}

proof fn lemma_total_empty(edges: Seq<(int, int)>, s: Seq<bool>, k: int)
    requires
        edges.len() == 0,
    ensures
        degree_total(edges, s, k) == 0,
    decreases k,
{
    if k > 0 {
        lemma_total_empty(edges, s, k - 1);
        reveal(Seq::filter);
    }
}

proof fn lemma_inside_le_live(edges: Seq<(int, int)>, s: Seq<bool>)
    ensures
        inside_links(edges, s) <= live_links(edges, s),
    decreases edges.len(),
{
    if edges.len() > 0 {
        lemma_inside_le_live(edges.drop_last(), s);
    }
}

/// Taking `v` out of `s` loses the edges inside `s` that touch `v`.
proof fn lemma_inside_remove(edges: Seq<(int, int)>, s: Seq<bool>, v: int)
    requires
        remains(s, v),
    ensures
        inside_links(edges, s) == inside_links(edges, s.update(v, false)) + live_degree(edges, s, v),
    decreases edges.len(),
{
    let p = |u: int| remains(s, u);
    if edges.len() > 0 {
        let rest = edges.drop_last();
        let e = edges.last();
        lemma_inside_remove(rest, s, v);
        neighbors_of(rest, v).lemma_filter_push(e.0, p);
        neighbors_of(rest, v).lemma_filter_push(e.1, p);
        let t = s.update(v, false);
        assert(remains(t, e.0) == (remains(s, e.0) && e.0 != v));
        assert(remains(t, e.1) == (remains(s, e.1) && e.1 != v));
    } else {
        reveal(Seq::filter);
    }
}

proof fn lemma_count_mono(s: Seq<bool>, t: Seq<bool>, k: int)
    requires
        within(s, t),
    ensures
        live_count(s, k) <= live_count(t, k),
    decreases k,
{
    if k > 0 {
        lemma_count_mono(s, t, k - 1);
        if remains(s, k - 1) {
            assert(t[k - 1]);
        }
    }
}

proof fn lemma_filter_mono(x: Seq<int>, p: spec_fn(int) -> bool, q: spec_fn(int) -> bool)
    requires
        forall|u: int| #[trigger] p(u) ==> q(u),
    ensures
        x.filter(p).len() <= x.filter(q).len(),
    decreases x.len(),
{
    if x.len() > 0 {
        let rest = x.drop_last();
        lemma_filter_mono(rest, p, q);
        assert(x =~= rest.push(x.last()));
        rest.lemma_filter_push(x.last(), p);
        rest.lemma_filter_push(x.last(), q);
    } else {
        reveal(Seq::filter);
    }
}

proof fn lemma_degree_mono(edges: Seq<(int, int)>, s: Seq<bool>, t: Seq<bool>, v: int)
    requires
        within(s, t),
    ensures
        live_degree(edges, s, v) <= live_degree(edges, t, v),
{
    let p = |u: int| remains(s, u);
    let q = |u: int| remains(t, u);
    assert forall|u: int| #[trigger] p(u) implies q(u) by {
        assert(s[u]);
    }
    lemma_filter_mono(neighbors_of(edges, v), p, q);
}

/// The node that the peeling takes has the least degree of the state.
proof fn lemma_least_is_least(edges: Seq<(int, int)>, t: Seq<bool>, k: int, u: int)
    requires
        0 <= u < k,
        remains(t, u),
    ensures
        least_live(edges, t, k) >= 0,
        live_degree(edges, t, least_live(edges, t, k)) <= live_degree(edges, t, u),
    decreases k,
{
    lemma_least_live(edges, t, k);
    if u < k - 1 {
        lemma_least_is_least(edges, t, k - 1, u);
    } else if k > 1 {
        lemma_least_live(edges, t, k - 1);
    }
}

proof fn lemma_total_lower(edges: Seq<(int, int)>, t: Seq<bool>, k: int, d: nat)
    requires
        0 <= k,
        forall|u: int| 0 <= u < k && remains(t, u) ==> #[trigger] live_degree(edges, t, u) >= d,
    ensures
        degree_total(edges, t, k) >= live_count(t, k) * d,
    decreases k,
{
    if k > 0 {
        lemma_total_lower(edges, t, k - 1, d);
        let c = live_count(t, k - 1);
        assert((c + 1) * d == c * d + d) by (nonlinear_arith);
        if remains(t, k - 1) {
            assert(live_degree(edges, t, k - 1) >= d);
            assert(live_count(t, k) == c + 1);
            assert(degree_total(edges, t, k) == degree_total(edges, t, k - 1) + live_degree(edges, t, k - 1));
        } else {
            assert(live_count(t, k) == c);
        }
    } else {
        assert(live_count(t, k) * d == 0) by (nonlinear_arith)
            requires
                live_count(t, k) == 0,
        ;
    }
}

proof fn lemma_count_zero(s: Seq<bool>, k: int, v: int)
    requires
        live_count(s, k) == 0,
        0 <= v < k,
    ensures
        !remains(s, v),
    decreases k,
{
    if v < k - 1 {
        lemma_count_zero(s, k - 1, v);
    }
}

proof fn lemma_inside_empty(edges: Seq<(int, int)>, s: Seq<bool>)
    requires
        live_count(s, s.len() as int) == 0,
    ensures
        inside_links(edges, s) == 0,
    decreases edges.len(),
{
    if edges.len() > 0 {
        lemma_inside_empty(edges.drop_last(), s);
        let e = edges.last();
        if remains(s, e.0) {
            lemma_count_zero(s, s.len() as int, e.0);
        }
    }
}

/// Within any node set with a node there is one with a node whose every node
/// has, within it, a degree at least the density of the first set.
proof fn lemma_trim(edges: Seq<(int, int)>, s: Seq<bool>) -> (t: Seq<bool>)
    requires
        live_count(s, s.len() as int) > 0,
    ensures
        within(t, s),
        live_count(t, s.len() as int) > 0,
        forall|u: int|
            #[trigger] remains(t, u) ==> live_degree(edges, t, u) * live_count(s, s.len() as int)
                >= inside_links(edges, s),
    decreases live_count(s, s.len() as int),
{
    let n = s.len() as int;
    let big = live_count(s, n);
    let ins = inside_links(edges, s);
    if exists|v: int| #[trigger] remains(s, v) && live_degree(edges, s, v) * big < ins {
        let v = choose|v: int| #[trigger] remains(s, v) && live_degree(edges, s, v) * big < ins;
        let s1 = s.update(v, false);
        let dv = live_degree(edges, s, v);
        lemma_live_count_remove(s, v, n);
        lemma_inside_remove(edges, s, v);
        let small = live_count(s1, n);
        let ins1 = inside_links(edges, s1);
        if small == 0 {
            lemma_inside_empty(edges, s1);
            assert(dv * 1 == dv);
        }
        assert(ins1 * big > ins * small) by (nonlinear_arith)
            requires
                ins1 == ins - dv,
                dv * big < ins,
                small == big - 1,
        ;
        let t = lemma_trim(edges, s1);
        assert forall|u: int| #[trigger] remains(t, u) implies live_degree(edges, t, u) * big
            >= ins by {
            let a = live_degree(edges, t, u);
            assert(a * small >= ins1);
            assert(a * big >= ins) by (nonlinear_arith)
                requires
                    a * small >= ins1,
                    ins1 * big > ins * small,
                    small > 0,
                    big > 0,
            ;
        }
        assert forall|u: int| 0 <= u < t.len() && #[trigger] t[u] implies s[u] by {
            assert(s1[u]);
        }
        t
    } else {
        assert forall|v: int| 0 <= v < s.len() && #[trigger] s[v] implies s[v] by {}
        s
    }
}

/// The peeling takes a node of any node set that it has kept so far, at
/// some step.
proof fn lemma_first_cut(edges: Seq<(int, int)>, n: nat, s: Seq<bool>, j: nat) -> (k: nat)
    requires
        j <= n,
        within(s, peel_state(edges, n, j)),
        live_count(s, n as int) > 0,
    ensures
        j <= k < n,
        within(s, peel_state(edges, n, k)),
        remains(s, least_live(edges, peel_state(edges, n, k), n as int)),
    decreases n - j,
{
    lemma_peel_state(edges, n, j);
    let t = peel_state(edges, n, j);
    lemma_count_mono(s, t, n as int);
    if j == n {
        assert(false);
        j
    } else {
        lemma_least_live(edges, t, n as int);
        let m = least_live(edges, t, n as int);
        if remains(s, m) {
            j
        } else {
            let t1 = peel_state(edges, n, j + 1);
            assert(t1 == t.update(m, false));
            assert forall|v: int| 0 <= v < s.len() && #[trigger] s[v] implies t1[v] by {
                assert(t[v]);
            }
            lemma_first_cut(edges, n, s, j + 1)
        }
    }
}

/// The best state scores at least as high as every state before it, and
/// when there is none, no earlier state keeps an edge.
proof fn lemma_best_dominates(edges: Seq<(int, int)>, n: nat, j: nat)
    requires
        j <= n,
    ensures
        -1 <= best_state(edges, n, j) < j,
        best_state(edges, n, j) < 0 ==> forall|i: nat|
            i < j ==> #[trigger] live_links(edges, peel_state(edges, n, i)) == 0,
        best_state(edges, n, j) >= 0 ==> forall|i: nat|
            i < j ==> live_links(edges, peel_state(edges, n, best_state(edges, n, j) as nat)) * (n
                - i) >= #[trigger] live_links(edges, peel_state(edges, n, i)) * (n - best_state(
                edges,
                n,
                j,
            )),
    decreases j,
{
    if j > 0 {
        let jp = (j - 1) as nat;
        lemma_best_dominates(edges, n, jp);
        let pb = best_state(edges, n, jp);
        let cur = peel_state(edges, n, jp);
        lemma_peel_state(edges, n, jp);
        let ec = live_links(edges, cur);
        let nc = (n - jp) as int;
        if pb < 0 {
            lemma_none_live(n, n as int);
        } else {
            lemma_peel_state(edges, n, pb as nat);
            let eb = live_links(edges, peel_state(edges, n, pb as nat));
            let nb = (n - pb) as int;
            if ec * nb > eb * nc {
                assert forall|i: nat| i < j implies ec * (n - i) >= #[trigger] live_links(
                    edges,
                    peel_state(edges, n, i),
                ) * nc by {
                    if i < jp {
                        let ei = live_links(edges, peel_state(edges, n, i));
                        let ni = n - i;
                        assert(eb * ni >= ei * nb);
                        assert(ec * ni >= ei * nc) by (nonlinear_arith)
                            requires
                                eb * ni >= ei * nb,
                                ec * nb > eb * nc,
                                nb > 0,
                                ni >= 0,
                                nc >= 0,
                                ei >= 0,
                        ;
                    }
                }
            }
        }
    }
}

/// Greedy peeling finds a core within a factor two of the densest node set:
/// for every set `s` of the nodes `0..n`, the best peeling state keeps at
/// least half as many edges per remaining node as `s` holds edges per node;
/// and when no state keeps an edge, no set holds one.
pub proof fn lemma_peeling_half_density(edges: Seq<(int, int)>, n: nat, s: Seq<bool>)
    requires
        s.len() == n,
    ensures
        best_state(edges, n, n) < 0 ==> inside_links(edges, s) == 0,
        best_state(edges, n, n) >= 0 ==> inside_links(edges, s) * live_count(
            peel_state(edges, n, best_state(edges, n, n) as nat),
            n as int,
        ) <= 2 * live_links(edges, peel_state(edges, n, best_state(edges, n, n) as nat))
            * live_count(s, n as int),
{
    let ins = inside_links(edges, s);
    let size = live_count(s, n as int);
    lemma_best_dominates(edges, n, n);
    let b = best_state(edges, n, n);
    if ins == 0 && b >= 0 {
        let cb = live_count(peel_state(edges, n, b as nat), n as int);
        assert(ins * cb == 0) by (nonlinear_arith)
            requires
                ins == 0,
        ;
    }
    if ins > 0 {
        if size == 0 {
            lemma_inside_empty(edges, s);
        }
        let t = lemma_trim(edges, s);
        lemma_peel_state(edges, n, 0);
        assert forall|v: int| 0 <= v < t.len() && #[trigger] t[v] implies peel_state(edges, n, 0)[v] by {}
        let k = lemma_first_cut(edges, n, t, 0);
        let tk = peel_state(edges, n, k);
        lemma_peel_state(edges, n, k);
        let m = least_live(edges, tk, n as int);
        let dm = live_degree(edges, tk, m);
        lemma_degree_mono(edges, t, tk, m);
        assert(live_degree(edges, t, m) * size >= ins);
        assert forall|u: int| 0 <= u < n && remains(tk, u) implies #[trigger] live_degree(edges, tk, u) >= dm by {
            lemma_least_is_least(edges, tk, n as int, u);
        }
        lemma_total_lower(edges, tk, n as int, dm);
        lemma_handshake(edges, tk);
        lemma_inside_le_live(edges, tk);
        let ek = live_links(edges, tk);
        let nk = (n - k) as int;
        assert(dm * size >= ins) by (nonlinear_arith)
            requires
                dm >= live_degree(edges, t, m),
                live_degree(edges, t, m) * size >= ins,
                size >= 0,
        ;
        assert(2 * ek * size >= nk * ins) by (nonlinear_arith)
            requires
                2 * ek >= nk * dm,
                dm * size >= ins,
                nk >= 0,
                size >= 0,
        ;
        if b < 0 {
            assert(live_links(edges, peel_state(edges, n, k)) == 0);
            assert(2 * ek * size == 0) by (nonlinear_arith)
                requires
                    ek == 0,
            ;
            assert(nk * ins > 0) by (nonlinear_arith)
                requires
                    nk > 0,
                    ins > 0,
            ;
        } else {
            lemma_peel_state(edges, n, b as nat);
            let eb = live_links(edges, peel_state(edges, n, b as nat));
            let nb = (n - b) as int;
            assert(eb * nk >= ek * nb);
            assert(ins * nb <= 2 * eb * size) by (nonlinear_arith)
                requires
                    eb * nk >= ek * nb,
                    2 * ek * size >= nk * ins,
                    nk > 0,
                    nb > 0,
                    size >= 0,
                    ins >= 0,
                    ek >= 0,
            ;
        }
    }
}

} // verus!
