//! An ordered map kept as a binary search tree without balancing.

use crate::bst::node::{is_bst, lemma_empty, top, Link, ST};
use crate::entries::{entries_map, greatest_up_to, least_from, rank_of};
use crate::order::{lt, strict_total_order};
use vstd::prelude::*;

verus! {

/// An ordered map from `K` to `V`.
pub struct BST<K, V> {
    root: Link<K, V>,
}

impl<K: PartialOrd, V> View for BST<K, V> {
    type V = Seq<(K, V)>;

    /// The entries from the least key to the greatest.
    closed spec fn view(&self) -> Seq<(K, V)> {
        self.root.entries()
    }
}

impl<K: PartialOrd, V> BST<K, V> {
    /// The entries as a map.
    pub open spec fn map(&self) -> Map<K, V> {
        entries_map(self@)
    }

    /// The tree is a search tree.
    pub closed spec fn wf(&self) -> bool {
        self.root.wf()
    }

    /// An empty map.
    pub fn new() -> (t: Self)
        ensures
            t.wf(),
            t@.len() == 0,
    {
        proof {
            lemma_empty::<K, V>(None);
        }
        BST { root: None }
    }

    /// The number of entries.
    pub fn size(&self) -> (n: usize)
        requires
            self.wf(),
        ensures
            n == self@.len(),
    {
        self.root.size()
    }

    /// Stores `val` under `key`, in place of the value that was there if
    /// there was one.
    pub fn put(&mut self, key: K, val: V)
        requires
            strict_total_order::<K>(),
            old(self).wf(),
            old(self)@.len() < usize::MAX,
        ensures
            final(self).wf(),
            final(self).map() == old(self).map().insert(key, val),
            final(self)@.len() == old(self)@.len() + if old(self).map().contains_key(key) {
                0int
            } else {
                1int
            },
    {
        self.root.put(key, val)
    }

    /// The subtree whose root has the key `key`; an empty link where no
    /// node has it.
    pub fn get(&self, key: K) -> (r: &Link<K, V>)
        requires
            strict_total_order::<K>(),
            self.wf(),
        ensures
            is_bst(*r),
            top(*r) == if self.map().contains_key(key) {
                Some((key, self.map()[key]))
            } else {
                None
            },
    {
        self.root.get(key)
    }

    /// The subtree whose root has the least key.
    pub fn min(&self) -> (r: &Link<K, V>)
        requires
            self.wf(),
        ensures
            top(*r) == if self@.len() == 0 {
                None
            } else {
                Some(self@.first())
            },
    {
        self.root.min()
    }

    /// The subtree whose root has the greatest key.
    pub fn max(&self) -> (r: &Link<K, V>)
        requires
            self.wf(),
        ensures
            top(*r) == if self@.len() == 0 {
                None
            } else {
                Some(self@.last())
            },
    {
        self.root.max()
    }

    /// The subtree whose root has the greatest key that is not above `key`;
    /// an empty link where every key is above `key`.
    pub fn floor(&self, key: K) -> (r: &Link<K, V>)
        requires
            strict_total_order::<K>(),
            self.wf(),
        ensures
            match top(*r) {
                Some((k, v)) => greatest_up_to(self.map(), key, k) && self.map()[k] == v,
                None => forall|x: K| #[trigger] self.map().contains_key(x) ==> lt(key, x),
            },
    {
        self.root.floor(key)
    }

    /// The subtree whose root has the least key that is not below `key`; an
    /// empty link where every key is below `key`.
    pub fn ceiling(&self, key: K) -> (r: &Link<K, V>)
        requires
            strict_total_order::<K>(),
            self.wf(),
        ensures
            match top(*r) {
                Some((k, v)) => least_from(self.map(), key, k) && self.map()[k] == v,
                None => forall|x: K| #[trigger] self.map().contains_key(x) ==> lt(x, key),
            },
    {
        self.root.ceiling(key)
    }

    /// The subtree whose root is at position `k` in key order, counted from
    /// zero; an empty link where `k` is not below the number of entries.
    pub fn select(&self, k: usize) -> (r: &Link<K, V>)
        requires
            self.wf(),
        ensures
            top(*r) == if k < self@.len() {
                Some(self@[k as int])
            } else {
                None
            },
    {
        self.root.select(k)
    }

    /// The number of keys below `key`.
    pub fn rank(&self, key: K) -> (r: usize)
        requires
            strict_total_order::<K>(),
            self.wf(),
        ensures
            r == rank_of(self@, key),
    {
        self.root.rank(key)
    }

    /// Removes the entry with the least key; nothing where there is none.
    pub fn delete_min(&mut self)
        requires
            old(self).wf(),
        ensures
            final(self).wf(),
            final(self)@ == if old(self)@.len() == 0 {
                old(self)@
            } else {
                old(self)@.drop_first()
            },
    {
        self.root.delete_min()
    }

    /// Removes the entry with the greatest key; nothing where there is none.
    pub fn delete_max(&mut self)
        requires
            old(self).wf(),
        ensures
            final(self).wf(),
            final(self)@ == if old(self)@.len() == 0 {
                old(self)@
            } else {
                old(self)@.drop_last()
            },
    {
        self.root.delete_max()
    }

    /// Removes the entry of `key`; nothing where there is none.
    pub fn delete(&mut self, key: K)
        requires
            strict_total_order::<K>(),
            old(self).wf(),
        ensures
            final(self).wf(),
            final(self).map() == old(self).map().remove(key),
            final(self)@.len() == old(self)@.len() - if old(self).map().contains_key(key) {
                1int
            } else {
                0int
            },
    {
        self.root.delete(key)
    }
}

} // verus!
