//! An ordered map kept as an AVL tree, with insertion only.

use crate::entries::{entries_map, increasing, lemma_join, lemma_split};
use crate::order::{greater, less, lt, strict_total_order};
use core::cmp::Ordering;
use vstd::prelude::*;

verus! {

type Link<K, V> = Option<Box<Node<K, V>>>;

#[derive(Debug)]
struct Node<K, V> {
    key: K,
    val: V,
    n: usize,
    h: isize,
    left: Link<K, V>,
    right: Link<K, V>,
}

/// The entries below `t` from left to right.
spec fn inorder<K, V>(t: Link<K, V>) -> Seq<(K, V)>
    decreases t,
{
    match t {
        Some(node) => inorder(node.left).push((node.key, node.val)) + inorder(node.right),
        None => Seq::empty(),
    }
}

/// The number of nodes on the longest way down from `t`.
spec fn ht<K, V>(t: Link<K, V>) -> int
    decreases t,
{
    match t {
        Some(node) => 1 + if ht(node.left) >= ht(node.right) {
            ht(node.left)
        } else {
            ht(node.right)
        },
        None => 0,
    }
}

spec fn left_of<K, V>(t: Link<K, V>) -> Link<K, V> {
    match t {
        Some(node) => node.left,
        None => None,
    }
}

spec fn right_of<K, V>(t: Link<K, V>) -> Link<K, V> {
    match t {
        Some(node) => node.right,
        None => None,
    }
}

/// Every node below `t` stores the size and the height of its subtree.
spec fn ok<K, V>(t: Link<K, V>) -> bool
    decreases t,
{
    match t {
        Some(node) => ok(node.left) && ok(node.right) && node.n == inorder(t).len() && node.h
            == ht(t),
        None => true,
    }
}

/// Below every node of `t` the heights of the two subtrees differ by one at
/// most.
spec fn bal<K, V>(t: Link<K, V>) -> bool
    decreases t,
{
    match t {
        Some(node) => bal(node.left) && bal(node.right) && -1 <= ht(node.left) - ht(node.right)
            <= 1,
        None => true,
    }
}

/// `t` is an AVL tree.
spec fn avl<K, V>(t: Link<K, V>) -> bool {
    ok(t) && bal(t)
}

/// The difference of the heights of the subtrees of `t`.
spec fn lean<K, V>(t: Link<K, V>) -> int {
    ht(left_of(t)) - ht(right_of(t))
}

/// A tree is no higher than it has nodes.
proof fn lemma_height<K, V>(t: Link<K, V>)
    ensures
        0 <= ht(t) <= inorder(t).len(),
    decreases t,
{
    match t {
        Some(node) => {
            lemma_height(node.left);
            lemma_height(node.right);
        },
        None => {},
    }
}

/// The empty link is a tree without entries and of height zero.
proof fn lemma_empty<K, V>()
    ensures
        inorder::<K, V>(None) == Seq::<(K, V)>::empty(),
        ht::<K, V>(None) == 0,
        ok::<K, V>(None),
        bal::<K, V>(None),
{
}

/// A leaf that holds `key` and `val`.
fn new_node<K, V>(key: K, val: V) -> (t: Link<K, V>)
    ensures
        t is Some,
        inorder(t) == seq![(key, val)],
        avl(t),
        ht(t) == 1,
{
    let t = Some(Box::new(Node { key, val, n: 1, h: 1, left: None, right: None }));
    proof {
        lemma_empty::<K, V>();
        assert(inorder(t) =~= seq![(key, val)]);
    }
    t
}

/// The number of nodes below `t`.
fn size<K, V>(t: &Link<K, V>) -> (n: usize)
    requires
        ok(*t),
    ensures
        n == inorder(*t).len(),
{
    match t {
        Some(boxed_node) => boxed_node.n,
        None => 0,
    }
}

/// The height of `t`.
fn height<K, V>(t: &Link<K, V>) -> (h: isize)
    requires
        ok(*t),
    ensures
        h == ht(*t),
{
    match t {
        Some(boxed_node) => boxed_node.h,
        None => 0,
    }
}

/// Sets the stored size of `h` from those of its subtrees.
fn update_size<K, V>(h: Box<Node<K, V>>) -> (x: Box<Node<K, V>>)
    requires
        ok(h.left),
        ok(h.right),
        inorder(Some(h)).len() < isize::MAX,
    ensures
        x.n == inorder(Some(h)).len(),
        x.h == h.h,
        x.key == h.key,
        x.val == h.val,
        x.left == h.left,
        x.right == h.right,
{
    let mut h = h;
    h.n = size(&h.left) + size(&h.right) + 1;
    h
}

/// Sets the stored height of `h` from those of its subtrees.
fn update_height<K, V>(h: Box<Node<K, V>>) -> (x: Box<Node<K, V>>)
    requires
        ok(h.left),
        ok(h.right),
        inorder(Some(h)).len() < isize::MAX,
    ensures
        x.h == ht(Some(h)),
        x.n == h.n,
        x.key == h.key,
        x.val == h.val,
        x.left == h.left,
        x.right == h.right,
{
    let mut h = h;
    proof {
        lemma_height(h.left);
        lemma_height(h.right);
    }
    let left_height = height(&h.left);
    let right_height = height(&h.right);
    h.h = if left_height >= right_height {
        left_height
    } else {
        right_height
    } + 1;
    h
}

/// How `key` stands to the key at the root of `link`; `None` for an empty
/// link.
fn compare_key<K: PartialOrd, V>(key: &K, link: &Link<K, V>) -> (r: Option<Ordering>)
    requires
        strict_total_order::<K>(),
    ensures
        match r {
            None => *link is None,
            Some(Ordering::Less) => *link is Some && lt(*key, link.unwrap().key),
            Some(Ordering::Greater) => *link is Some && lt(link.unwrap().key, *key),
            Some(Ordering::Equal) => *link is Some && *key == link.unwrap().key,
        },
{
    match link {
        Some(boxed_node) => {
            if less(key, &boxed_node.key) {
                Some(Ordering::Less)
            } else if greater(key, &boxed_node.key) {
                Some(Ordering::Greater)
            } else {
                Some(Ordering::Equal)
            }
        },
        None => None,
    }
}

/// Turns `h` to the left: the right child of `h` takes its place, and `h`
/// becomes its left child.
fn rotate_left<K, V>(h: Box<Node<K, V>>) -> (x: Box<Node<K, V>>)
    requires
        h.right is Some,
        ok(h.left),
        ok(left_of(h.right)),
        ok(right_of(h.right)),
        inorder(Some(h)).len() < isize::MAX,
    ensures
        inorder(Some(x)) == inorder(Some(h)),
        x.right == right_of(h.right),
        x.left is Some,
        ok(x.left),
        left_of(x.left) == h.left,
        right_of(x.left) == left_of(h.right),
{
    let ghost h0 = Some(h);
    let mut h = h;
    proof {
        reveal_with_fuel(inorder, 3);
        reveal_with_fuel(ok, 2);
        reveal_with_fuel(ht, 2);
    }
    let mut x = h.right.take().unwrap();
    x.n = h.n;
    x.h = h.h;
    h.right = x.left.take();
    proof {
        assert(inorder(Some(h)).len() < inorder(h0).len());
    }
    let h = update_size(h);
    let h = update_height(h);
    x.left = Some(h);
    proof {
        assert(inorder(Some(x)) =~= inorder(h0));
    }
    x
}

/// Turns `h` to the right: the mirror image of `rotate_left`.
fn rotate_right<K, V>(h: Box<Node<K, V>>) -> (x: Box<Node<K, V>>)
    requires
        h.left is Some,
        ok(h.right),
        ok(left_of(h.left)),
        ok(right_of(h.left)),
        inorder(Some(h)).len() < isize::MAX,
    ensures
        inorder(Some(x)) == inorder(Some(h)),
        x.left == left_of(h.left),
        x.right is Some,
        ok(x.right),
        right_of(x.right) == h.right,
        left_of(x.right) == right_of(h.left),
{
    let ghost h0 = Some(h);
    let mut h = h;
    proof {
        reveal_with_fuel(inorder, 3);
        reveal_with_fuel(ok, 2);
        reveal_with_fuel(ht, 2);
    }
    let mut x = h.left.take().unwrap();
    x.n = h.n;
    x.h = h.h;
    h.left = x.right.take();
    proof {
        assert(inorder(Some(h)).len() < inorder(h0).len());
    }
    let h = update_size(h);
    let h = update_height(h);
    x.right = Some(h);
    proof {
        assert(inorder(Some(x)) =~= inorder(h0));
    }
    x
}

/// Whether `t`, whose subtrees are AVL trees, has one that is two higher
/// than the other.
spec fn tilted<K, V>(t: Link<K, V>) -> int {
    if t is Some && !(-1 <= lean(t) <= 1) {
        1
    } else {
        0
    }
}

/// Makes an AVL tree of `t`, whose subtrees are AVL trees with heights that
/// differ by two at most: turns it where one subtree is two higher than the
/// other, and sets the stored size and height.
#[verifier::rlimit(60)]
#[verifier::spinoff_prover]
fn balance<K, V>(t: Link<K, V>) -> (r: Link<K, V>)
    requires
        avl(left_of(t)),
        avl(right_of(t)),
        -2 <= lean(t) <= 2,
        inorder(t).len() < isize::MAX,
    ensures
        r is Some == t is Some,
        avl(r),
        inorder(r) == inorder(t),
        ht(r) <= ht(t),
        ht(r) >= ht(t) - 1,
        -1 <= lean(t) <= 1 ==> ht(r) == ht(t),
    decreases tilted(t), inorder(t).len(),
{
    proof {
        lemma_empty::<K, V>();
        reveal_with_fuel(ok, 3);
        reveal_with_fuel(bal, 3);
        reveal_with_fuel(ht, 3);
    }
    match t {
        None => None,
        Some(node) => {
            let mut node = node;
            let ghost t0 = Some(node);
            proof {
                lemma_height(node.left);
                lemma_height(node.right);
            }
            let diff = height(&node.left) - height(&node.right);
            if diff < 2 && diff > -2 {
                let left = node.left.take();
                let ghost a = inorder(left);
                let left = balance(left);
                node.left = left;
                let right = node.right.take();
                let right = balance(right);
                node.right = right;
                proof {
                    assert(inorder(Some(node)) =~= inorder(t0));
                }
            } else if diff > 1 {
                let mut left = node.left.take().unwrap();
                proof {
                    lemma_height(left.left);
                    lemma_height(left.right);
                }
                if height(&left.left) - height(&left.right) == -1 {
                    left = rotate_left(left);
                }
                node.left = Some(left);
                proof {
                    assert(inorder(Some(node)) =~= inorder(t0));
                }
                let node = rotate_right(node);
                let ghost t1 = Some(node);
                proof {
                    assert(-1 <= lean(t1) <= 1);
                }
                return balance(Some(node));
            } else {
                let mut right = node.right.take().unwrap();
                proof {
                    lemma_height(right.left);
                    lemma_height(right.right);
                }
                if height(&right.left) - height(&right.right) == 1 {
                    right = rotate_right(right);
                }
                node.right = Some(right);
                proof {
                    assert(inorder(Some(node)) =~= inorder(t0));
                }
                let node = rotate_left(node);
                let ghost t1 = Some(node);
                proof {
                    assert(-1 <= lean(t1) <= 1);
                }
                return balance(Some(node));
            }
            let node = update_size(node);
            let node = update_height(node);
            Some(node)
        },
    }
}

/// Stores `val` under `key` below `t` and restores the balance on the way
/// back up.
fn put<K: PartialOrd, V>(t: Link<K, V>, key: K, val: V) -> (r: Link<K, V>)
    requires
        strict_total_order::<K>(),
        increasing(inorder(t)),
        avl(t),
        inorder(t).len() + 1 < isize::MAX,
    ensures
        r is Some,
        avl(r),
        increasing(inorder(r)),
        entries_map(inorder(r)) == entries_map(inorder(t)).insert(key, val),
        inorder(r).len() == inorder(t).len() + if entries_map(inorder(t)).contains_key(key) {
            0int
        } else {
            1int
        },
        ht(t) <= ht(r) <= ht(t) + 1,
    decreases t,
{
    let c = compare_key(&key, &t);
    match t {
        None => {
            proof {
                lemma_empty::<K, V>();
                reveal_with_fuel(entries_map, 2);
                assert(seq![(key, val)].drop_last() =~= Seq::<(K, V)>::empty());
                assert(entries_map(seq![(key, val)]) =~= Map::<K, V>::empty().insert(key, val));
            }
            new_node(key, val)
        },
        Some(node) => {
            let mut node = node;
            let ghost a = inorder(node.left);
            let ghost b = inorder(node.right);
            proof {
                reveal_with_fuel(ok, 2);
                reveal_with_fuel(bal, 2);
                reveal_with_fuel(ht, 2);
                lemma_empty::<K, V>();
                lemma_split(a, (node.key, node.val), b);
            }
            match c {
                Some(Ordering::Less) => {
                    let l = put(node.left.take(), key, val);
                    node.left = l;
                    proof {
                        lemma_join(inorder(node.left), (node.key, node.val), b);
                        lemma_split(inorder(node.left), (node.key, node.val), b);
                        assert(entries_map(inorder(Some(node))) =~= entries_map(
                            inorder(t),
                        ).insert(key, val));
                    }
                },
                Some(Ordering::Greater) => {
                    let r = put(node.right.take(), key, val);
                    node.right = r;
                    proof {
                        lemma_join(a, (node.key, node.val), inorder(node.right));
                        lemma_split(a, (node.key, node.val), inorder(node.right));
                        assert(entries_map(inorder(Some(node))) =~= entries_map(
                            inorder(t),
                        ).insert(key, val));
                    }
                },
                _ => {
                    node.val = val;
                    proof {
                        lemma_join(a, (node.key, node.val), b);
                        lemma_split(a, (node.key, node.val), b);
                        assert(entries_map(inorder(Some(node))) =~= entries_map(
                            inorder(t),
                        ).insert(key, val));
                    }
                },
            }
            balance(Some(node))
        },
    }
}

/// Whether the heights of the subtrees of the root of `t` differ by less
/// than two.
fn is_balance<K, V>(t: &Link<K, V>) -> (r: bool)
    requires
        *t is Some,
        ok(*t),
    ensures
        r == (-1 <= lean(*t) <= 1),
{
    match t {
        Some(node) => {
            proof {
                lemma_height(node.left);
                lemma_height(node.right);
                assert(ht(node.left) <= inorder(*t).len());
                assert(ht(node.right) <= inorder(*t).len());
            }
            let diff = height(&node.left) - height(&node.right);
            diff < 2 && diff > -2
        },
        None => true,
    }
}

/// An ordered map from `K` to `V` that can only grow.
#[derive(Debug)]
pub struct AvlTree<K, V> {
    root: Link<K, V>,
}

impl<K, V> View for AvlTree<K, V> {
    type V = Seq<(K, V)>;

    /// The entries from the least key to the greatest.
    closed spec fn view(&self) -> Seq<(K, V)> {
        inorder(self.root)
    }
}

impl<K: PartialOrd, V> AvlTree<K, V> {
    /// The entries as a map.
    pub open spec fn map(&self) -> Map<K, V> {
        entries_map(self@)
    }

    /// Below every node the heights of the two subtrees differ by one at
    /// most.
    pub closed spec fn balanced(&self) -> bool {
        bal(self.root)
    }

    /// Every node stores the size and the height of its subtree.
    pub closed spec fn stored(&self) -> bool {
        ok(self.root)
    }

    /// The heights of the two subtrees of the root differ by one at most.
    pub closed spec fn root_balanced(&self) -> bool {
        -1 <= lean(self.root) <= 1
    }

    /// The tree is an AVL search tree: its keys increase from left to
    /// right, it is balanced, and its nodes store the sizes and heights of
    /// their subtrees.
    pub closed spec fn wf(&self) -> bool {
        avl(self.root) && increasing(inorder(self.root))
    }

    /// A well-formed tree is balanced, at its root as below every other
    /// node, stores the sizes and heights of its subtrees, and lists its
    /// keys in increasing order.
    pub proof fn lemma_invariants(&self)
        requires
            self.wf(),
        ensures
            self.balanced(),
            self.root_balanced(),
            self.stored(),
            increasing(self@),
    {
        lemma_empty::<K, V>();
    }

    /// An empty map.
    pub fn new() -> (t: Self)
        ensures
            t.wf(),
            t@ == Seq::<(K, V)>::empty(),
    {
        proof {
            lemma_empty::<K, V>();
        }
        AvlTree { root: None }
    }

    /// Stores `val` under `key`, in place of the value that was there if
    /// there was one.
    pub fn put(&mut self, key: K, val: V)
        requires
            strict_total_order::<K>(),
            old(self).wf(),
            old(self)@.len() + 1 < isize::MAX,
        ensures
            final(self).wf(),
            final(self).map() == old(self).map().insert(key, val),
            final(self)@.len() == old(self)@.len() + if old(self).map().contains_key(key) {
                0int
            } else {
                1int
            },
    {
        let root = self.root.take();
        self.root = put(root, key, val);
    }

    /// Whether the heights of the two subtrees of the root, as the nodes
    /// store them, differ by less than two. In a well-formed tree they do.
    pub fn is_balance(&self) -> (r: bool)
        requires
            self.stored(),
            self@.len() > 0,
        ensures
            r == self.root_balanced(),
            self.wf() ==> r,
    {
        proof {
            lemma_empty::<K, V>();
        }
        is_balance(&self.root)
    }
}

} // verus!
