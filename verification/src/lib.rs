//! A static compiler for dense-tensor computation graphs: symbolic shapes,
//! the graph and its rewrite passes.

pub mod adjust;
pub mod arrays;
pub mod capacity;
pub mod graph;
pub mod graph_laws;
pub mod hashing;
pub mod index_laws;
pub mod indexing;
pub mod kernels;
pub mod matmul;
pub mod operators;
pub mod renaming_laws;
pub mod search;
pub mod selector;
pub mod serialization;
pub mod shape_laws;
pub mod simplify;
pub mod stable_graph;
pub mod symbolic;
pub mod tracker;
