//! Analysis of a product co-purchasing network: parsing of the product
//! metadata, construction of the network, and the network statistics
//! (degrees, components, communities, category links, centrality and a
//! dense core), each with its contract.

pub mod graph;
pub mod product;
pub mod meta;
pub mod order;
pub mod analysis;
pub mod categories;
pub mod centrality;
pub mod densest;
pub mod sample;
pub mod synthetic;
pub mod report;
