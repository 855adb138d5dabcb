//! The search tree under the name of its root link.

pub use crate::bst::node::{Node, ST};

use crate::bst::node::Link;
use vstd::prelude::*;

verus! {

/// A possibly empty search tree: the link to its root.
pub type TreeNode<K, V> = Link<K, V>;

} // verus!
