//! The left-leaning red-black tree under its short name.

pub mod node;
pub mod tree;
