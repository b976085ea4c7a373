//! Centrality of each node: its degree, and the number of nodes it reaches
//! with the sum of their shortest distances (the closeness of a node is the
//! number of other nodes it reaches divided by that sum).

use crate::analysis::degree;
use crate::graph::{
    NetworkGraph, graph_edges, graph_node_count, graph_node_weight, graph_nodes,
    graph_unit_distances, is_shortest_distance, is_walk, reachable,
};
use crate::product::last_positions;
use vstd::hash_map::StringHashMap;
use vstd::prelude::*;

verus! {

/// The number of steps of a shortest walk from `s` to `v`.
pub open spec fn shortest(edges: Seq<(int, int)>, s: int, v: int) -> int {
    choose|d: int| is_shortest_distance(edges, s, v, d)
}

/// The number of nodes among `0..k` that `s` reaches.
pub open spec fn reach_count(edges: Seq<(int, int)>, s: int, k: int) -> nat
    decreases k,
{
    if k <= 0 {
        0
    } else {
        reach_count(edges, s, k - 1) + if reachable(edges, s, k - 1) {
            1nat
        } else {
            0nat
        }
    }
}

/// The sum of the shortest distances from `s` to the nodes among `0..k`
/// that it reaches.
pub open spec fn distance_sum(edges: Seq<(int, int)>, s: int, k: int) -> int
    decreases k,
{
    if k <= 0 {
        0
    } else {
        distance_sum(edges, s, k - 1) + if reachable(edges, s, k - 1) {
            shortest(edges, s, k - 1)
        } else {
            0
        }
    }
}

/// A shortest distance is unique.
proof fn lemma_shortest_unique(edges: Seq<(int, int)>, s: int, v: int, d: int)
    requires
        is_shortest_distance(edges, s, v, d),
    ensures
        shortest(edges, s, v) == d,
{
    let d2 = shortest(edges, s, v);
    assert(is_shortest_distance(edges, s, v, d2));
    let p = choose|p: Seq<int>| #[trigger] is_walk(edges, p) && p[0] == s && p.last() == v && p.len() == d + 1;
    let q = choose|q: Seq<int>| #[trigger] is_walk(edges, q) && q[0] == s && q.last() == v && q.len() == d2 + 1;
}

proof fn lemma_distance_sum_bound(edges: Seq<(int, int)>, s: int, k: int, bound: int)
    requires
        0 <= k,
        0 <= bound,
        forall|v: int| 0 <= v < k && reachable(edges, s, v) ==> 0 <= #[trigger] shortest(edges, s, v) <= bound,
    ensures
        0 <= distance_sum(edges, s, k) <= k * bound,
        reach_count(edges, s, k) <= k,
    decreases k,
{
    if k > 0 {
        lemma_distance_sum_bound(edges, s, k - 1, bound);
        assert((k - 1) * bound + bound == k * bound) by (nonlinear_arith);
    }
}

/// The centrality of one node.
#[derive(Debug, Clone)]
pub struct NodeCentrality {
    pub asin: String,
    /// Degree centrality: the number of neighbours.
    pub degree: usize,
    /// The number of nodes that the node reaches, itself included.
    pub reachable: usize,
    /// The sum of the shortest distances to those nodes.
    pub distance_sum: u128,
}

/// The centrality of node `i`.
fn node_centrality(graph: &NetworkGraph, i: usize) -> (c: NodeCentrality)
    requires
        i < graph_nodes(*graph).len(),
    ensures
        c.asin@ == graph_nodes(*graph)[i as int],
        c.degree == degree(graph_edges(*graph), i as int),
        c.reachable == reach_count(graph_edges(*graph), i as int, graph_nodes(*graph).len() as int),
        c.distance_sum == distance_sum(graph_edges(*graph), i as int, graph_nodes(*graph).len() as int),
{
    let ghost edges = graph_edges(*graph);
    let n = graph_node_count(graph);
    let asin = match graph_node_weight(graph, i) {
        Some(w) => w.clone(),
        None => String::new(),
    };
    let degree = crate::analysis::node_degree(graph, i);
    let found = graph_unit_distances(graph, i);
    // The distance to each node, by node.
    let mut dist: Vec<Option<usize>> = Vec::new();
    for v in 0..n
        invariant
            dist@.len() == v,
            forall|u: int| 0 <= u < v ==> (#[trigger] dist@[u]) is None,
    {
        dist.push(None);
    }
    for k in 0..found.len()
        invariant
            n == graph_nodes(*graph).len(),
            edges == graph_edges(*graph),
            dist@.len() == n,
            forall|a: int, b: int| 0 <= a < b < found@.len() ==> (#[trigger] found@[a]).0 != (#[trigger] found@[b]).0,
            forall|a: int| 0 <= a < found@.len() ==> (#[trigger] found@[a]).0 < n
                && is_shortest_distance(edges, i as int, found@[a].0 as int, found@[a].1 as int),
            forall|u: int| 0 <= u < n ==> match #[trigger] dist@[u] {
                Some(d) => exists|a: int| 0 <= a < k && (#[trigger] found@[a]).0 == u && found@[a].1 == d,
                None => forall|a: int| 0 <= a < k ==> (#[trigger] found@[a]).0 != u,
            },
    {
        let (v, d) = found[k];
        dist.set(v, Some(d));
    }
    let mut reach: usize = 0;
    let mut sum: u128 = 0;
    for v in 0..n
        invariant
            n == graph_nodes(*graph).len(),
            edges == graph_edges(*graph),
            i < n,
            dist@.len() == n,
            forall|a: int| 0 <= a < found@.len() ==> (#[trigger] found@[a]).0 < n
                && is_shortest_distance(edges, i as int, found@[a].0 as int, found@[a].1 as int),
            forall|u: int|
                0 <= u < n && #[trigger] reachable(edges, i as int, u) ==> exists|a: int|
                    0 <= a < found@.len() && (#[trigger] found@[a]).0 == u,
            forall|u: int| 0 <= u < n ==> match #[trigger] dist@[u] {
                Some(d) => exists|a: int| 0 <= a < found@.len() && (#[trigger] found@[a]).0 == u && found@[a].1 == d,
                None => forall|a: int| 0 <= a < found@.len() ==> (#[trigger] found@[a]).0 != u,
            },
            reach == reach_count(edges, i as int, v as int),
            sum == distance_sum(edges, i as int, v as int),
            n <= u32::MAX,
            reach <= v,
            0 <= sum <= v * 0xFFFF_FFFF_FFFF_FFFF,
    {
        let ghost before = sum;
        match dist[v] {
            Some(d) => {
                proof {
                    let a = choose|a: int| 0 <= a < found@.len() && (#[trigger] found@[a]).0 == v && found@[a].1 == d;
                    assert(is_shortest_distance(edges, i as int, v as int, d as int));
                    lemma_shortest_unique(edges, i as int, v as int, d as int);
                    let p = choose|p: Seq<int>| #[trigger] is_walk(edges, p) && p[0] == i && p.last() == v && p.len() == d + 1;
                    assert(reachable(edges, i as int, v as int));
                    assert(d <= 0xFFFF_FFFF_FFFF_FFFFu64);
                    assert(sum + d <= (v + 1) * 0xFFFF_FFFF_FFFF_FFFF) by (nonlinear_arith)
                        requires
                            0 <= sum <= v * 0xFFFF_FFFF_FFFF_FFFF,
                            0 <= d <= 0xFFFF_FFFF_FFFF_FFFF;
                    assert((v + 1) * 0xFFFF_FFFF_FFFF_FFFF <= 0x1_0000_0000 * 0xFFFF_FFFF_FFFF_FFFF) by (nonlinear_arith)
                        requires v + 1 <= 0x1_0000_0000;
                }
                reach = reach + 1;
                sum = sum + d as u128;
            },
            None => {
                proof {
                    if reachable(edges, i as int, v as int) {
                        let a = choose|a: int| 0 <= a < found@.len() && (#[trigger] found@[a]).0 == v;
                    }
                    assert(v * 0xFFFF_FFFF_FFFF_FFFF <= (v + 1) * 0xFFFF_FFFF_FFFF_FFFF) by (nonlinear_arith);
                }
            },
        }
    }
    NodeCentrality { asin, degree, reachable: reach, distance_sum: sum }
}

/// The nodes whose ASIN no later node carries (a map keyed by ASIN keeps
/// exactly these), in node order.
pub open spec fn last_of_asin(weights: Seq<Seq<char>>) -> Seq<int> {
    Seq::new(weights.len(), |i: int| i).filter(|i: int| last_positions(weights)[weights[i]] == i)
}

/// Calculates the centrality measures: one entry per ASIN of the network,
/// for the last node that carries it, in node order.
pub fn calculate_centrality_measures(graph: &NetworkGraph) -> (cs: Vec<NodeCentrality>)
    ensures
        cs@.len() == last_of_asin(graph_nodes(*graph)).len(),
        forall|k: int|
            0 <= k < cs@.len() ==> {
                let i = last_of_asin(graph_nodes(*graph))[k];
                let c = #[trigger] cs@[k];
                &&& c.asin@ == graph_nodes(*graph)[i]
                &&& c.degree == degree(graph_edges(*graph), i)
                &&& c.reachable == reach_count(graph_edges(*graph), i, graph_nodes(*graph).len() as int)
                &&& c.distance_sum == distance_sum(graph_edges(*graph), i, graph_nodes(*graph).len() as int)
            },
{
    let ghost weights = graph_nodes(*graph);
    let ghost edges = graph_edges(*graph);
    let n = graph_node_count(graph);
    let mut last: StringHashMap<usize> = StringHashMap::new();
    for i in 0..n
        invariant
            n == weights.len(),
            weights == graph_nodes(*graph),
            last@.dom() == last_positions(weights.take(i as int)).dom(),
            forall|s: Seq<char>| #[trigger] last@.contains_key(s) ==> last@[s] as int == last_positions(weights.take(i as int))[s],
    {
        let w = match graph_node_weight(graph, i) {
            Some(w) => w.clone(),
            None => String::new(),
        };
        proof {
            assert(weights.take(i + 1).drop_last() =~= weights.take(i as int));
            assert(weights.take(i + 1).last() == weights[i as int]);
        }
        last.insert(w, i);
    }
    proof {
        assert(weights.take(n as int) =~= weights);
    }
    let ghost keep = |i: int| last_positions(weights)[weights[i]] == i;
    let mut cs: Vec<NodeCentrality> = Vec::new();
    let ghost mut kept: Seq<int> = Seq::empty();
    for i in 0..n
        invariant
            n == weights.len(),
            weights == graph_nodes(*graph),
            edges == graph_edges(*graph),
            last@.dom() == last_positions(weights).dom(),
            forall|s: Seq<char>| #[trigger] last@.contains_key(s) ==> last@[s] as int == last_positions(weights)[s],
            keep == (|i: int| last_positions(weights)[weights[i]] == i),
            kept == Seq::new(i as nat, |j: int| j).filter(keep),
            cs@.len() == kept.len(),
            forall|k: int|
                0 <= k < cs@.len() ==> {
                    let j = kept[k];
                    let c = #[trigger] cs@[k];
                    &&& c.asin@ == weights[j]
                    &&& c.degree == degree(edges, j)
                    &&& c.reachable == reach_count(edges, j, n as int)
                    &&& c.distance_sum == distance_sum(edges, j, n as int)
                },
    {
        let w = match graph_node_weight(graph, i) {
            Some(w) => w,
            None => {
                return Vec::new();
            },
        };
        let is_last = match last.get(w.as_str()) {
            Some(p) => *p == i,
            None => false,
        };
        proof {
            assert(Seq::new((i + 1) as nat, |j: int| j) =~= Seq::new(i as nat, |j: int| j).push(i as int));
            Seq::new(i as nat, |j: int| j).lemma_filter_push(i as int, keep);
            crate::product::lemma_last_positions(weights);
            assert(last_positions(weights).contains_key(weights[i as int]));
        }
        if is_last {
            let ghost before = cs@;
            cs.push(node_centrality(graph, i));
            proof {
                kept = kept.push(i as int);
                assert forall|k: int| 0 <= k < cs@.len() implies {
                    let j = kept[k];
                    let c = #[trigger] cs@[k];
                    &&& c.asin@ == weights[j]
                    &&& c.degree == degree(edges, j)
                    &&& c.reachable == reach_count(edges, j, n as int)
                    &&& c.distance_sum == distance_sum(edges, j, n as int)
                } by {
                    if k < before.len() {
                        assert(cs@[k] == before[k]);
                    }
                }
            }
        }
    }
    proof {
        assert(Seq::new(n as nat, |j: int| j) =~= Seq::new(weights.len(), |i: int| i));
    }
    cs
}

} // verus!
