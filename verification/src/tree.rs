//! Balanced search trees that only grow.

pub mod avl_tree;
pub mod red_black_tree;
