//! Graph storage structures and traversal.
//!
//! - adjacency matrix ([`AdjacencyMatrix`])
//! - adjacency list ([`AdjacencyList`])
//! - compressed symmetric matrix ([`SymmetricMatrix`])
//! - orthogonal list ([`OrthogonalList`]), for directed graphs
//! - adjacency multilist ([`AdjacencyMultilist`]), for undirected graphs
//! - neighbour enumeration, visitors and breadth-first search ([`traversal`])
//!
//! The two linked structures share the theory of chains in [`chain`].

pub mod adjacency_list;
pub mod adjacency_matrix;
pub mod adjacency_multilist;
pub mod chain;
pub mod orthogonal_list;
pub mod symmetric_matrix;
pub mod traversal;

pub use adjacency_list::AdjacencyList;
pub use adjacency_matrix::AdjacencyMatrix;
pub use adjacency_multilist::{AMLEdge, AMLVertex, AdjacencyMultilist};
pub use orthogonal_list::{OLArc, OLVertex, OrthogonalList};
pub use symmetric_matrix::SymmetricMatrix;
pub use traversal::{breadth_first_search, CollectVisitor, GraphNeighbor, VertexVisitor};
