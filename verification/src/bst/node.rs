//! Nodes of the search tree and the operations on the subtree below a link.

use crate::entries::{
    entries_map, greatest_up_to, increasing, least_from, lemma_join, lemma_parts_increasing,
    lemma_rank_all, lemma_rank_bound, lemma_rank_node, lemma_rank_none, lemma_remove_at,
    lemma_split, rank_of,
};
use crate::order::{greater, less, lt, strict_total_order};
use vstd::prelude::*;

verus! {

/// A possibly empty subtree.
pub type Link<K, V> = Option<Box<Node<K, V>>>;

/// A node with the subtrees below it and the number of nodes among them.
#[derive(Debug)]
pub struct Node<K, V> {
    pub key: K,
    pub val: V,
    left: Link<K, V>,
    right: Link<K, V>,
    n: usize,
}

/// The entries below `t` from left to right.
pub closed spec fn inorder<K, V>(t: Link<K, V>) -> Seq<(K, V)>
    decreases t,
{
    match t {
        Some(node) => inorder(node.left).push((node.key, node.val)) + inorder(node.right),
        None => Seq::empty(),
    }
}

/// Every node below `t` stores the number of nodes of its subtree.
pub closed spec fn sized<K, V>(t: Link<K, V>) -> bool
    decreases t,
{
    match t {
        Some(node) => sized(node.left) && sized(node.right) && node.n == inorder(t).len(),
        None => true,
    }
}

/// The entry at the root of `t`.
pub closed spec fn top<K, V>(t: Link<K, V>) -> Option<(K, V)> {
    match t {
        Some(node) => Some((node.key, node.val)),
        None => None,
    }
}

/// `t` is a search tree: its keys increase from left to right, and its
/// nodes store the sizes of their subtrees.
pub open spec fn is_bst<K: PartialOrd, V>(t: Link<K, V>) -> bool {
    sized(t) && increasing(inorder(t))
}

/// The empty link holds nothing, and a link that holds nothing is empty.
pub proof fn lemma_empty<K, V>(t: Link<K, V>)
    ensures
        t is None <==> inorder(t).len() == 0,
        t is None <==> top(t) is None,
        t is None ==> sized(t),
{
}

/// What the root of a search tree parts: the entries on its left are
/// below it and make a search tree, those on its right are above it and
/// make one, and the map of the whole is the two maps and the root.
proof fn lemma_node<K: PartialOrd, V>(node: Node<K, V>)
    requires
        strict_total_order::<K>(),
        increasing(inorder(Some(Box::new(node)))),
    ensures
        increasing(inorder(node.left)),
        increasing(inorder(node.right)),
        forall|k: K| #[trigger] entries_map(inorder(node.left)).contains_key(k) ==> lt(k, node.key),
        forall|k: K| #[trigger] entries_map(inorder(node.right)).contains_key(k) ==> lt(node.key, k),
        entries_map(inorder(Some(Box::new(node)))) == entries_map(
            inorder(node.left),
        ).union_prefer_right(entries_map(inorder(node.right))).insert(node.key, node.val),
        !entries_map(inorder(node.left)).contains_key(node.key),
        !entries_map(inorder(node.right)).contains_key(node.key),
{
    lemma_split(inorder(node.left), (node.key, node.val), inorder(node.right));
}

/// The operations of an ordered map on the subtree below a link.
pub trait ST<K: PartialOrd, V>: Sized {
    /// The entries in key order.
    spec fn entries(&self) -> Seq<(K, V)>;

    /// The subtree is a search tree.
    spec fn wf(&self) -> bool;

    /// A tree with one entry.
    fn new(key: K, val: V) -> (t: Link<K, V>)
        ensures
            is_bst(t),
            inorder(t) == seq![(key, val)],
            top(t) == Some((key, val)),
    ;

    /// The number of entries.
    fn size(&self) -> (n: usize)
        requires
            self.wf(),
        ensures
            n == self.entries().len(),
    ;

    /// The subtree whose root has the key `key`; an empty link where no
    /// node has it.
    fn get(&self, key: K) -> (r: &Link<K, V>)
        requires
            strict_total_order::<K>(),
            self.wf(),
        ensures
            is_bst(*r),
            top(*r) == if entries_map(self.entries()).contains_key(key) {
                Some((key, entries_map(self.entries())[key]))
            } else {
                None
            },
    ;

    /// Stores `val` under `key`, in place of the value that was there if
    /// there was one.
    fn put(&mut self, key: K, val: V)
        requires
            strict_total_order::<K>(),
            old(self).wf(),
            old(self).entries().len() < usize::MAX,
        ensures
            final(self).wf(),
            entries_map(final(self).entries()) == entries_map(old(self).entries()).insert(key, val),
            final(self).entries().len() == old(self).entries().len() + if entries_map(
                old(self).entries(),
            ).contains_key(key) {
                0int
            } else {
                1int
            },
    ;

    /// The subtree whose root has the least key.
    fn min(&self) -> (r: &Link<K, V>)
        requires
            self.wf(),
        ensures
            top(*r) == if self.entries().len() == 0 {
                None
            } else {
                Some(self.entries().first())
            },
    ;

    /// The subtree whose root has the greatest key.
    fn max(&self) -> (r: &Link<K, V>)
        requires
            self.wf(),
        ensures
            top(*r) == if self.entries().len() == 0 {
                None
            } else {
                Some(self.entries().last())
            },
    ;

    /// The subtree whose root has the least key that is not below `key`; an
    /// empty link where every key is below `key`.
    fn ceiling(&self, key: K) -> (r: &Link<K, V>)
        requires
            strict_total_order::<K>(),
            self.wf(),
        ensures
            match top(*r) {
                Some((k, v)) => least_from(entries_map(self.entries()), key, k) && entries_map(
                    self.entries(),
                )[k] == v,
                None => forall|x: K| #[trigger]
                    entries_map(self.entries()).contains_key(x) ==> lt(x, key),
            },
    ;

    /// The subtree whose root has the greatest key that is not above `key`;
    /// an empty link where every key is above `key`.
    fn floor(&self, key: K) -> (r: &Link<K, V>)
        requires
            strict_total_order::<K>(),
            self.wf(),
        ensures
            match top(*r) {
                Some((k, v)) => greatest_up_to(entries_map(self.entries()), key, k) && entries_map(
                    self.entries(),
                )[k] == v,
                None => forall|x: K| #[trigger]
                    entries_map(self.entries()).contains_key(x) ==> lt(key, x),
            },
    ;

    /// The subtree whose root is at position `k` in key order, counted from
    /// zero; an empty link where `k` is not below the number of entries.
    fn select(&self, k: usize) -> (r: &Link<K, V>)
        requires
            self.wf(),
        ensures
            top(*r) == if k < self.entries().len() {
                Some(self.entries()[k as int])
            } else {
                None
            },
    ;

    /// The number of keys below `key`.
    fn rank(&self, key: K) -> (r: usize)
        requires
            strict_total_order::<K>(),
            self.wf(),
        ensures
            r == rank_of(self.entries(), key),
    ;

    /// Removes the entry with the least key; nothing where there is none.
    fn delete_min(&mut self)
        requires
            old(self).wf(),
        ensures
            final(self).wf(),
            final(self).entries() == if old(self).entries().len() == 0 {
                old(self).entries()
            } else {
                old(self).entries().drop_first()
            },
    ;

    /// Removes the entry with the greatest key; nothing where there is none.
    fn delete_max(&mut self)
        requires
            old(self).wf(),
        ensures
            final(self).wf(),
            final(self).entries() == if old(self).entries().len() == 0 {
                old(self).entries()
            } else {
                old(self).entries().drop_last()
            },
    ;

    /// Removes the entry of `key`; nothing where there is none.
    fn delete(&mut self, key: K)
        requires
            strict_total_order::<K>(),
            old(self).wf(),
        ensures
            final(self).wf(),
            entries_map(final(self).entries()) == entries_map(old(self).entries()).remove(key),
            final(self).entries().len() == old(self).entries().len() - if entries_map(
                old(self).entries(),
            ).contains_key(key) {
                1int
            } else {
                0int
            },
    ;

    /// Removes the entry at the root: the root's only subtree takes its
    /// place, or the entry with the least key on its right does.
    fn delete_self(&mut self)
        requires
            strict_total_order::<K>(),
            old(self).wf(),
        ensures
            final(self).wf(),
            old(self).entries().len() == 0 ==> final(self).entries() == old(self).entries(),
            old(self).entries().len() > 0 ==> final(self).entries().len() + 1 == old(self).entries().len(),
    ;
}

/// Takes the entry with the least key out of the tree below `node`.
fn remove_min<K, V>(node: Box<Node<K, V>>) -> (r: (Link<K, V>, K, V))
    requires
        sized(Some(node)),
    ensures
        sized(r.0),
        inorder(r.0) == inorder(Some(node)).drop_first(),
        (r.1, r.2) == inorder(Some(node)).first(),
    decreases node,
{
    let ghost t0 = Some(node);
    let mut node = node;
    match node.left.take() {
        None => {
            let x = *node;
            proof {
                reveal_with_fuel(inorder, 2);
                assert(inorder(t0).drop_first() =~= inorder(x.right));
            }
            (x.right, x.key, x.val)
        },
        Some(left) => {
            let (rest, k, v) = remove_min(left);
            node.left = rest;
            node.n = size_of(&node.left) + size_of(&node.right) + 1;
            proof {
                assert(inorder(Some(node)) =~= inorder(t0).drop_first());
            }
            (Some(node), k, v)
        },
    }
}

/// The number of nodes below `t`.
fn size_of<K, V>(t: &Link<K, V>) -> (n: usize)
    requires
        sized(*t),
    ensures
        n == inorder(*t).len(),
{
    match t {
        Some(node) => node.n,
        None => 0,
    }
}

/// Removes the root of the tree below `node`.
fn remove_root<K: PartialOrd, V>(node: Box<Node<K, V>>) -> (r: Link<K, V>)
    requires
        strict_total_order::<K>(),
        is_bst(Some(node)),
    ensures
        is_bst(r),
        inorder(r) == inorder(Some(node)).remove(inorder(node.left).len() as int),
        entries_map(inorder(r)) == entries_map(inorder(Some(node))).remove(node.key),
        entries_map(inorder(Some(node))).contains_key(node.key),
{
    let ghost t0 = Some(node);
    let ghost a = inorder(node.left);
    let ghost b = inorder(node.right);
    proof {
        lemma_empty(node.left);
        lemma_empty(node.right);
        assert(inorder(t0)[a.len() as int] == (node.key, node.val));
        lemma_remove_at(inorder(t0), a.len() as int);
    }
    let mut boxed_node = node;
    match (boxed_node.left.take(), boxed_node.right.take()) {
        (None, None) => {
            proof {
                assert(inorder::<K, V>(None) =~= inorder(t0).remove(0));
            }
            None
        },
        (Some(leaf), None) => {
            proof {
                assert(inorder(t0).remove(a.len() as int) =~= a);
            }
            Some(leaf)
        },
        (None, Some(leaf)) => {
            proof {
                assert(inorder(t0).remove(0) =~= b);
            }
            Some(leaf)
        },
        (Some(left), Some(right)) => {
            let (rest, k, v) = remove_min(right);
            boxed_node.left = Some(left);
            boxed_node.right = rest;
            boxed_node.key = k;
            boxed_node.val = v;
            boxed_node.n = size_of(&boxed_node.left) + size_of(&boxed_node.right) + 1;
            proof {
                assert(inorder(Some(boxed_node)) =~= inorder(t0).remove(a.len() as int));
            }
            Some(boxed_node)
        },
    }
}

impl<K: PartialOrd, V> ST<K, V> for Link<K, V> {
    open spec fn entries(&self) -> Seq<(K, V)> {
        inorder(*self)
    }

    open spec fn wf(&self) -> bool {
        is_bst(*self)
    }

    fn new(key: K, val: V) -> (t: Link<K, V>) {
        let t = Some(Box::new(Node { key, val, left: None, right: None, n: 1 }));
        proof {
            reveal_with_fuel(inorder, 2);
            reveal_with_fuel(sized, 2);
            assert(inorder(t) =~= seq![(key, val)]);
        }
        t
    }

    fn size(&self) -> (n: usize) {
        size_of(self)
    }

    fn get(&self, key: K) -> (r: &Link<K, V>)
        decreases *self,
    {
        proof {
            lemma_empty(*self);
            assert(entries_map(Seq::<(K, V)>::empty()) =~= Map::<K, V>::empty());
        }
        match self {
            Some(node) => {
                proof {
                    lemma_node(**node);
                }
                if less(&key, &node.key) {
                    node.left.get(key)
                } else if greater(&key, &node.key) {
                    node.right.get(key)
                } else {
                    self
                }
            },
            None => self,
        }
    }

    fn put(&mut self, key: K, val: V)
        decreases *old(self),
    {
        proof {
            lemma_empty(*self);
        }
        match self.take() {
            Some(node) => {
                let mut node = node;
                let ghost a = inorder(node.left);
                let ghost b = inorder(node.right);
                let ghost m0 = entries_map(inorder(*old(self)));
                proof {
                    lemma_node(*node);
                }
                if less(&key, &node.key) {
                    node.left.put(key, val);
                    proof {
                        lemma_join(inorder(node.left), (node.key, node.val), b);
                        lemma_split(inorder(node.left), (node.key, node.val), b);
                    }
                } else if greater(&key, &node.key) {
                    node.right.put(key, val);
                    proof {
                        lemma_join(a, (node.key, node.val), inorder(node.right));
                        lemma_split(a, (node.key, node.val), inorder(node.right));
                    }
                } else {
                    node.val = val;
                    proof {
                        lemma_join(a, (node.key, node.val), b);
                        lemma_split(a, (node.key, node.val), b);
                    }
                }
                node.n = size_of(&node.left) + size_of(&node.right) + 1;
                proof {
                    assert(entries_map(inorder(Some(node))) =~= m0.insert(key, val));
                }
                *self = Some(node);
            },
            None => {
                proof {
                    reveal_with_fuel(entries_map, 2);
                    assert(seq![(key, val)].drop_last() =~= Seq::<(K, V)>::empty());
                    assert(entries_map(seq![(key, val)]) =~= Map::<K, V>::empty().insert(key, val));
                    assert(entries_map(Seq::<(K, V)>::empty()) =~= Map::<K, V>::empty());
                }
                let node = Box::new(Node { key, val, left: None, right: None, n: 1 });
                *self = Some(node);
                proof {
                    reveal_with_fuel(inorder, 2);
                    reveal_with_fuel(sized, 2);
                    assert(inorder(*self) =~= seq![(key, val)]);
                }
            },
        }
    }

    fn min(&self) -> (r: &Link<K, V>)
        decreases *self,
    {
        proof {
            lemma_empty(*self);
        }
        match self {
            Some(node) => {
                proof {
                    lemma_empty(node.left);
                    lemma_parts_increasing(
                        inorder(node.left),
                        (node.key, node.val),
                        inorder(node.right),
                    );
                }
                if node.left.is_some() {
                    node.left.min()
                } else {
                    self
                }
            },
            None => self,
        }
    }

    fn max(&self) -> (r: &Link<K, V>)
        decreases *self,
    {
        proof {
            lemma_empty(*self);
        }
        match self {
            Some(node) => {
                proof {
                    lemma_empty(node.right);
                    lemma_parts_increasing(
                        inorder(node.left),
                        (node.key, node.val),
                        inorder(node.right),
                    );
                }
                if node.right.is_some() {
                    node.right.max()
                } else {
                    self
                }
            },
            None => self,
        }
    }

    fn ceiling(&self, key: K) -> (r: &Link<K, V>)
        decreases *self,
    {
        proof {
            lemma_empty(*self);
            assert(entries_map(Seq::<(K, V)>::empty()) =~= Map::<K, V>::empty());
        }
        match self {
            Some(node) => {
                proof {
                    lemma_node(**node);
                }
                let ghost m = entries_map(inorder(*self));
                let ghost ml = entries_map(inorder(node.left));
                let ghost mr = entries_map(inorder(node.right));
                if less(&key, &node.key) {
                    let tree_node = node.left.ceiling(key);
                    proof {
                        lemma_empty(*tree_node);
                        assert forall|x: K| #[trigger] m.contains_key(x) implies ml.contains_key(x)
                            || x == node.key || mr.contains_key(x) by {}
                        if top(*tree_node) is Some {
                            let k = top(*tree_node).unwrap().0;
                            assert(ml.contains_key(k));
                            assert(!mr.contains_key(k));
                            assert(m[k] == ml[k]);
                            assert forall|x: K| #[trigger] m.contains_key(x) && !lt(
                                x,
                                key,
                            ) implies !lt(x, k) by {
                                if !ml.contains_key(x) {
                                    assert(lt(k, node.key));
                                    if mr.contains_key(x) {
                                        assert(lt(node.key, x));
                                    }
                                    assert(lt(k, x));
                                }
                            }
                            assert(least_from(m, key, k));
                        } else {
                            assert(top(*tree_node) is None);
                            assert(forall|x: K| #[trigger]
                                entries_map(node.left.entries()).contains_key(x) ==> lt(x, key));
                            assert(node.left.entries() == inorder(node.left));
                            assert forall|x: K| #[trigger] m.contains_key(x) && !lt(
                                x,
                                key,
                            ) implies !lt(x, node.key) by {
                                if ml.contains_key(x) {
                                    assert(lt(x, key));
                                } else if mr.contains_key(x) {
                                    assert(lt(node.key, x));
                                }
                            }
                            assert(least_from(m, key, node.key));
                        }
                    }
                    if tree_node.is_none() {
                        self
                    } else {
                        tree_node
                    }
                } else if greater(&key, &node.key) {
                    let tree_node = node.right.ceiling(key);
                    proof {
                        assert forall|x: K| #[trigger] m.contains_key(x) implies ml.contains_key(x)
                            || x == node.key || mr.contains_key(x) by {}
                        if top(*tree_node) is Some {
                            let k = top(*tree_node).unwrap().0;
                            assert(mr.contains_key(k));
                            assert(m[k] == mr[k]);
                            assert forall|x: K| #[trigger] m.contains_key(x) && !lt(
                                x,
                                key,
                            ) implies !lt(x, k) by {
                                if ml.contains_key(x) {
                                    assert(lt(x, node.key));
                                    assert(lt(x, key));
                                }
                            }
                            assert(least_from(m, key, k));
                        } else {
                            assert(forall|x: K| #[trigger]
                                entries_map(node.right.entries()).contains_key(x) ==> lt(x, key));
                            assert(node.right.entries() == inorder(node.right));
                            assert forall|x: K| #[trigger] m.contains_key(x) implies lt(x, key) by {
                                if ml.contains_key(x) {
                                    assert(lt(x, node.key));
                                } else if mr.contains_key(x) {
                                    assert(lt(x, key));
                                }
                            }
                        }
                    }
                    tree_node
                } else {
                    proof {
                        assert(key == node.key);
                        assert(least_from(m, key, node.key));
                    }
                    self
                }
            },
            None => self,
        }
    }

    fn floor(&self, key: K) -> (r: &Link<K, V>)
        decreases *self,
    {
        proof {
            lemma_empty(*self);
            assert(entries_map(Seq::<(K, V)>::empty()) =~= Map::<K, V>::empty());
        }
        match self {
            Some(node) => {
                proof {
                    lemma_node(**node);
                }
                let ghost m = entries_map(inorder(*self));
                let ghost ml = entries_map(inorder(node.left));
                let ghost mr = entries_map(inorder(node.right));
                if less(&key, &node.key) {
                    let tree_node = node.left.floor(key);
                    proof {
                        assert forall|x: K| #[trigger] m.contains_key(x) implies ml.contains_key(x)
                            || x == node.key || mr.contains_key(x) by {}
                        if top(*tree_node) is Some {
                            let k = top(*tree_node).unwrap().0;
                            assert(ml.contains_key(k));
                            assert(!mr.contains_key(k));
                            assert(m[k] == ml[k]);
                            assert forall|x: K| #[trigger] m.contains_key(x) && !lt(
                                key,
                                x,
                            ) implies !lt(k, x) by {
                                if mr.contains_key(x) {
                                    assert(lt(node.key, x));
                                    assert(lt(key, x));
                                }
                            }
                            assert(greatest_up_to(m, key, k));
                        } else {
                            assert(forall|x: K| #[trigger]
                                entries_map(node.left.entries()).contains_key(x) ==> lt(key, x));
                            assert(node.left.entries() == inorder(node.left));
                            assert forall|x: K| #[trigger] m.contains_key(x) implies lt(key, x) by {
                                if mr.contains_key(x) {
                                    assert(lt(node.key, x));
                                } else if ml.contains_key(x) {
                                    assert(lt(key, x));
                                }
                            }
                        }
                    }
                    tree_node
                } else if greater(&key, &node.key) {
                    let tree_node = node.right.floor(key);
                    proof {
                        lemma_empty(*tree_node);
                        assert forall|x: K| #[trigger] m.contains_key(x) implies ml.contains_key(x)
                            || x == node.key || mr.contains_key(x) by {}
                        if top(*tree_node) is Some {
                            let k = top(*tree_node).unwrap().0;
                            assert(mr.contains_key(k));
                            assert(m[k] == mr[k]);
                            assert forall|x: K| #[trigger] m.contains_key(x) && !lt(
                                key,
                                x,
                            ) implies !lt(k, x) by {
                                if !mr.contains_key(x) {
                                    assert(lt(node.key, k));
                                    if ml.contains_key(x) {
                                        assert(lt(x, node.key));
                                    }
                                    assert(lt(x, k));
                                }
                            }
                            assert(greatest_up_to(m, key, k));
                        } else {
                            assert(top(*tree_node) is None);
                            assert(forall|x: K| #[trigger]
                                entries_map(node.right.entries()).contains_key(x) ==> lt(key, x));
                            assert(node.right.entries() == inorder(node.right));
                            assert forall|x: K| #[trigger] m.contains_key(x) && !lt(
                                key,
                                x,
                            ) implies !lt(node.key, x) by {
                                if mr.contains_key(x) {
                                    assert(lt(key, x));
                                } else if ml.contains_key(x) {
                                    assert(lt(x, node.key));
                                }
                            }
                            assert(greatest_up_to(m, key, node.key));
                        }
                    }
                    if tree_node.is_none() {
                        self
                    } else {
                        tree_node
                    }
                } else {
                    proof {
                        assert(key == node.key);
                        assert(greatest_up_to(m, key, node.key));
                    }
                    self
                }
            },
            None => self,
        }
    }

    fn select(&self, k: usize) -> (r: &Link<K, V>)
        decreases *self,
    {
        proof {
            lemma_empty(*self);
        }
        match self {
            Some(node) => {
                proof {
                    lemma_parts_increasing(
                        inorder(node.left),
                        (node.key, node.val),
                        inorder(node.right),
                    );
                }
                let t = size_of(&node.left);
                if t < k {
                    node.right.select(k - t - 1)
                } else if t > k {
                    node.left.select(k)
                } else {
                    self
                }
            },
            None => self,
        }
    }

    fn rank(&self, key: K) -> (r: usize)
        decreases *self,
    {
        proof {
            lemma_empty(*self);
        }
        match self {
            Some(node) => {
                let ghost a = inorder(node.left);
                let ghost b = inorder(node.right);
                proof {
                    lemma_split(a, (node.key, node.val), b);
                    lemma_rank_node(a, (node.key, node.val), b, key);
                    lemma_rank_bound(b, key);
                }
                if less(&key, &node.key) {
                    proof {
                        lemma_rank_none(b, key);
                    }
                    node.left.rank(key)
                } else if greater(&key, &node.key) {
                    proof {
                        lemma_rank_all(a, key);
                    }
                    1 + size_of(&node.left) + node.right.rank(key)
                } else {
                    proof {
                        lemma_rank_all(a, key);
                        lemma_rank_none(b, key);
                    }
                    size_of(&node.left)
                }
            },
            None => 0,
        }
    }

    fn delete_min(&mut self) {
        proof {
            lemma_empty(*self);
        }
        match self.take() {
            Some(node) => {
                let (rest, _, _) = remove_min(node);
                *self = rest;
                proof {
                    let s = inorder(*old(self));
                    let t = s.drop_first();
                    assert forall|i: int, j: int| #![trigger t[i], t[j]] 0 <= i < j < t.len() implies lt(
                        t[i].0,
                        t[j].0,
                    ) by {
                        assert(t[i] == s[i + 1] && t[j] == s[j + 1]);
                    }
                }
            },
            None => {},
        }
    }

    fn delete_max(&mut self)
        decreases *old(self),
    {
        proof {
            lemma_empty(*self);
        }
        match self.take() {
            Some(node) => {
                let mut node = node;
                let ghost s = inorder(Some(node));
                proof {
                    lemma_empty(node.right);
                    lemma_empty(node.left);
                }
                if node.right.is_none() {
                    *self = node.left.take();
                    proof {
                        assert(inorder(*self) =~= s.drop_last());
                    }
                } else {
                    let ghost b = inorder(node.right);
                    proof {
                        let c = inorder(node.right);
                        assert forall|i: int, j: int|
                            #![trigger c[i], c[j]]
                            0 <= i < j < c.len() implies lt(c[i].0, c[j].0) by {
                            let off = inorder(node.left).len() + 1;
                            assert(c[i] == s[off + i] && c[j] == s[off + j]);
                        }
                    }
                    node.right.delete_max();
                    node.n = size_of(&node.left) + size_of(&node.right) + 1;
                    *self = Some(node);
                    proof {
                        assert(inorder(*self) =~= s.drop_last());
                    }
                }
                proof {
                    let t = s.drop_last();
                    assert forall|i: int, j: int| #![trigger t[i], t[j]] 0 <= i < j < t.len() implies lt(
                        t[i].0,
                        t[j].0,
                    ) by {
                        assert(t[i] == s[i] && t[j] == s[j]);
                    }
                }
            },
            None => {},
        }
    }

    fn delete(&mut self, key: K)
        decreases *old(self),
    {
        proof {
            lemma_empty(*self);
            assert(entries_map(Seq::<(K, V)>::empty()) =~= Map::<K, V>::empty());
        }
        match self.take() {
            Some(node) => {
                let mut node = node;
                let ghost a = inorder(node.left);
                let ghost b = inorder(node.right);
                let ghost m0 = entries_map(inorder(Some(node)));
                proof {
                    lemma_node(*node);
                }
                if less(&key, &node.key) {
                    node.left.delete(key);
                    node.n = size_of(&node.left) + size_of(&node.right) + 1;
                    proof {
                        lemma_join(inorder(node.left), (node.key, node.val), b);
                        lemma_split(inorder(node.left), (node.key, node.val), b);
                        assert(entries_map(inorder(Some(node))) =~= m0.remove(key));
                    }
                    *self = Some(node);
                } else if greater(&key, &node.key) {
                    node.right.delete(key);
                    node.n = size_of(&node.left) + size_of(&node.right) + 1;
                    proof {
                        lemma_join(a, (node.key, node.val), inorder(node.right));
                        lemma_split(a, (node.key, node.val), inorder(node.right));
                        assert(entries_map(inorder(Some(node))) =~= m0.remove(key));
                    }
                    *self = Some(node);
                } else {
                    *self = remove_root(node);
                }
            },
            None => {
                proof {
                    assert(Map::<K, V>::empty().remove(key) =~= Map::<K, V>::empty());
                }
            },
        }
    }

    fn delete_self(&mut self) {
        proof {
            lemma_empty(*self);
        }
        match self.take() {
            Some(node) => {
                *self = remove_root(node);
            },
            None => {},
        }
    }
}

} // verus!
