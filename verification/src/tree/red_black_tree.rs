//! An ordered map kept as a left-leaning red-black tree, with insertion
//! only.

pub use crate::red_black_bst::Node;

use crate::entries::{entries_map, increasing};
use crate::order::strict_total_order;
use crate::red_black_bst::{
    balanced, inorder, left_leaning, no_red_red, red, sized, with_value, Link, RedBlackBST,
};
use vstd::prelude::*;

verus! {

/// An ordered map from `K` to `V` that can only grow.
#[derive(Debug)]
pub struct RedBlackTree<K, V> {
    tree: RedBlackBST<K, V>,
}

impl<K, V> View for RedBlackTree<K, V> {
    type V = Seq<(K, V)>;

    /// The entries from the least key to the greatest.
    closed spec fn view(&self) -> Seq<(K, V)> {
        self.tree@
    }
}

impl<K: PartialOrd, V> RedBlackTree<K, V> {
    /// The entries as a map.
    pub open spec fn map(&self) -> Map<K, V> {
        entries_map(self@)
    }

    /// The tree is a left-leaning red-black search tree with a black root.
    pub closed spec fn wf(&self) -> bool {
        self.tree.wf()
    }

    /// The link to the root of the tree.
    pub closed spec fn root(&self) -> Link<K, V> {
        self.tree.root()
    }

    /// No red node has a red child.
    pub open spec fn red_red_free(&self) -> bool {
        no_red_red(self.root())
    }

    /// Every path from the root to an empty link passes the same number of
    /// black nodes.
    pub open spec fn black_balanced(&self) -> bool {
        balanced(self.root())
    }

    /// No node has a red right child.
    pub open spec fn leans_left(&self) -> bool {
        left_leaning(self.root())
    }

    /// The root is black.
    pub open spec fn root_black(&self) -> bool {
        !red(self.root())
    }

    /// Every node stores the number of nodes of its subtree.
    pub open spec fn sizes_stored(&self) -> bool {
        sized(self.root())
    }

    /// Every well-formed tree is free of red nodes with red children, has
    /// the same number of black nodes on all paths from the root to an empty
    /// link, leans left, has a black root, and lists its keys in strictly
    /// increasing order, as they stand in the tree from left to right.
    pub proof fn lemma_invariants(&self)
        requires
            self.wf(),
        ensures
            self.red_red_free(),
            self.black_balanced(),
            self.leans_left(),
            self.root_black(),
            self.sizes_stored(),
            increasing(self@),
            self@ == inorder(self.root()),
    {
        self.tree.lemma_invariants();
    }

    /// An empty map.
    pub fn new() -> (t: Self)
        ensures
            t.wf(),
            t@ == Seq::<(K, V)>::empty(),
    {
        RedBlackTree { tree: RedBlackBST::new() }
    }

    /// Stores `val` under `key`, in place of the value that was there if
    /// there was one. Where the key was there, nothing but that value
    /// changes: no node moves and none changes its colour.
    pub fn put(&mut self, key: K, val: V)
        requires
            strict_total_order::<K>(),
            old(self).wf(),
            old(self)@.len() < usize::MAX,
        ensures
            final(self).wf(),
            final(self).map() == old(self).map().insert(key, val),
            final(self)@.len() == old(self)@.len() + if old(self).map().contains_key(key) {
                0int
            } else {
                1int
            },
            old(self).map().contains_key(key) ==> final(self).root() == with_value(
                old(self).root(),
                key,
                val,
            ),
    {
        self.tree.put(key, val);
    }
}

} // verus!
