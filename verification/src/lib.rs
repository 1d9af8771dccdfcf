//! Analysis of simple undirected graphs: an adjacency-list graph store with
//! breadth-first traversal, connected components and distance statistics,
//! degree-preserving randomized rewiring, clustering and centrality counts,
//! link-prediction scores with ROC evaluation, and the counting layer of a
//! degree-corrected stochastic block model fit.

pub mod node;
pub mod records;
pub mod network;
pub mod sampling;
pub mod statistic;
pub mod partition;

pub use crate::network::SimpleNetwork;
pub use crate::network::NetError;
