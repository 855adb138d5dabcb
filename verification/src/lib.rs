//! Classic data structures and algorithms with machine-checked contracts.
//!
//! The centre of the crate is a left-leaning red-black search tree
//! ([`red_black_bst`]): an ordered map with logarithmic height, order
//! statistics and deletion. Beside it stand a search tree without balancing
//! ([`bst`]), an AVL tree ([`tree`]), graphs with their searches, components
//! and spanning trees ([`graph`], [`graph_`]), indexed priority queues
//! ([`queue`]), sorts ([`sort`]) and a trie ([`string`]).

pub mod bst;
pub mod entries;
pub mod graph;
pub mod graph_;
pub mod order;
pub mod queue;
pub mod rbt;
pub mod red_black_bst;
pub mod sort;
pub mod string;
pub mod tree;
