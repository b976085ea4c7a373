# copurchase_network

Analysis of the Amazon product co-purchasing network, written in Verus:
the library's functions carry `requires`/`ensures` contracts that Verus
proves. The calls into `petgraph`, `rand` and std's `String::push` go
through small wrappers marked `#[verifier::external_body]`, whose contracts
are trusted rather than proved; each says in its documentation what it
claims of the function it calls.

## Layout

- `src/` — the verified library.
  - `product.rs`: products, their mathematical views, lookups by ASIN.
  - `meta.rs`: reading the product metadata text.
  - `graph.rs`: the network in a `petgraph` graph (the graph's nodes and
    edges are named by `graph_nodes` and `graph_edges`), its construction
    and subgraphs.
  - `analysis.rs`: metrics, degree distribution, communities.
  - `categories.rs`: links between product categories.
  - `centrality.rs`: degree, reach and distance sums of each node.
  - `densest.rs`: the dense core found by greedy peeling, and the proof that
    it is within a factor two of the densest node set.
  - `order.rs`: the stable ordering by decreasing key that the reports use.
  - `sample.rs`: connected samples of the data set.
  - `synthetic.rs`: synthetic data sets.
  - `report.rs`: the tables that the analysis writes out.
- `tests/` — tests on concrete values.
- `app/` — the command-line program: file reading and writing, JSON and CSV
  output, and the decimal figures (densities, averages, closeness) computed
  in floating point from the library's counts.
