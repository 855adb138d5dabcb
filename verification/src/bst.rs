//! A binary search tree without balancing.

pub mod node;
pub mod tree;
pub mod tree_node;
