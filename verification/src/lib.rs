//! A small in-memory graph engine: an adjacency-list store with breadth-first
//! traversal and a generator of random graphs, together with a few sequence
//! utilities.

pub mod generator;
pub mod graph;
pub mod levels;
pub mod model;
pub mod order;
pub mod random;
pub mod search;
pub mod sequence;
pub mod traversal;

pub use generator::{random_sparse_graph, sparse_graph_from};
pub use graph::{AdjacencyList, Graph, GraphError};
pub use random::random_vec;
pub use sequence::{insertion_sort, shift, sorted};
