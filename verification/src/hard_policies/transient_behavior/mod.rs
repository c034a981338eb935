//! # Transient behavior
//!
//! The graph of BGP sessions through which routes may spread during convergence.
pub mod analysis;
pub mod forwarding_supergraph;
pub mod route_reachability_graph;

pub use route_reachability_graph::{BgpEdge, BgpGraphNeighborIterator};
