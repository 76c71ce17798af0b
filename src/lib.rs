//! An unbalanced binary search tree over `i32` keys.
//!
//! Nodes live in an arena (`Vec<BstNode>`) and refer to each other by index:
//! child links own, parent links point back. A ghost `Shape` describes the
//! tree that the arena holds; every operation is proved against it.
pub mod node;
pub mod shape;
pub mod bst;
pub mod laws;
