//! An in-memory B-tree of order 5 over `usize` keys: lookup, insertion with node splitting,
//! deletion with borrowing and merging, and a nested-bracket rendering of the tree's shape.

pub mod node;
pub mod ordered;
pub mod delete;
pub mod insert;
pub mod laws;
pub mod model;
pub mod render;
pub mod search;
pub mod shape;

pub use node::Node;
