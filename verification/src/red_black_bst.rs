//! A left-leaning red-black search tree: an ordered map with logarithmic
//! height, order statistics and deletion.
//!
//! A tree is described by the sequence of its entries in key order
//! ([`RedBlackBST::view`]) and by the map with the same entries
//! ([`RedBlackBST::map`]).

use crate::entries::{
    distinct_keys, entries_map, greatest_up_to, has_key, increasing, insert_all, least_from,
    lemma_absent, lemma_insert_all_len, lemma_join, lemma_map_len, lemma_parts_increasing,
    lemma_rank_all, lemma_rank_bound, lemma_rank_node, lemma_rank_none, lemma_rank_of_entry,
    lemma_remove_all_keys, lemma_remove_all_len, lemma_remove_at, lemma_removed_left,
    lemma_removed_right, lemma_root_bounds, lemma_split, rank_of, remove_all,
};
use crate::order::{greater, less, lt, strict_total_order};
use core::cmp::Ordering;
use vstd::prelude::*;

verus! {

/// A possibly empty subtree.
pub type Link<K, V> = Option<Box<Node<K, V>>>;

/// The colour of the link from a node to its parent.
#[derive(Clone, Copy, Debug)]
pub enum Colors {
    RED,
    BLACK,
}

/// A node of the tree with the subtrees below it.
#[derive(Debug)]
pub struct Node<K, V> {
    pub key: K,
    pub val: V,
    pub n: usize,
    pub color: Colors,
    pub left: Link<K, V>,
    pub right: Link<K, V>,
}

// ----------------------------------------------------------------------
// What a subtree holds and how it is shaped
// ----------------------------------------------------------------------

/// The root of `t` is red; an empty link is black.
pub open spec fn red<K, V>(t: Link<K, V>) -> bool {
    match t {
        Some(node) => node.color == Colors::RED,
        None => false,
    }
}

pub open spec fn left_of<K, V>(t: Link<K, V>) -> Link<K, V> {
    match t {
        Some(node) => node.left,
        None => None,
    }
}

pub open spec fn right_of<K, V>(t: Link<K, V>) -> Link<K, V> {
    match t {
        Some(node) => node.right,
        None => None,
    }
}

/// The tree of one red node that holds `key` and `val`.
pub open spec fn leaf<K, V>(key: K, val: V) -> Link<K, V> {
    Some(Box::new(Node { key, val, n: 1, color: Colors::RED, left: None, right: None }))
}

/// `t` with `color` as the colour of its root.
pub open spec fn painted<K, V>(t: Link<K, V>, color: Colors) -> Link<K, V> {
    match t {
        Some(node) => Some(
            Box::new(
                Node {
                    key: node.key,
                    val: node.val,
                    n: node.n,
                    color,
                    left: node.left,
                    right: node.right,
                },
            ),
        ),
        None => None,
    }
}

/// The entries of `t` from left to right.
pub open spec fn inorder<K, V>(t: Link<K, V>) -> Seq<(K, V)>
    decreases t,
{
    match t {
        Some(node) => inorder(node.left).push((node.key, node.val)) + inorder(node.right),
        None => Seq::empty(),
    }
}

/// Every node of `t` stores the number of nodes of its subtree.
pub open spec fn sized<K, V>(t: Link<K, V>) -> bool
    decreases t,
{
    match t {
        Some(node) => sized(node.left) && sized(node.right) && node.n == inorder(t).len(),
        None => true,
    }
}

/// The number of black nodes on the leftmost path of `t`.
pub open spec fn bh<K, V>(t: Link<K, V>) -> nat
    decreases t,
{
    match t {
        Some(node) => bh(node.left) + if node.color == Colors::RED {
            0nat
        } else {
            1nat
        },
        None => 0,
    }
}

/// No red node of `t` has a red child.
pub open spec fn no_red_red<K, V>(t: Link<K, V>) -> bool
    decreases t,
{
    match t {
        Some(node) => no_red_red(node.left) && no_red_red(node.right) && (red(t) ==> !red(
            node.left,
        ) && !red(node.right)),
        None => true,
    }
}

/// Below every node of `t`, the paths to the empty links on the left and on
/// the right pass the same number of black nodes.
pub open spec fn balanced<K, V>(t: Link<K, V>) -> bool
    decreases t,
{
    match t {
        Some(node) => balanced(node.left) && balanced(node.right) && bh(node.left) == bh(
            node.right,
        ),
        None => true,
    }
}

/// No node of `t` has a red right child.
pub open spec fn left_leaning<K, V>(t: Link<K, V>) -> bool
    decreases t,
{
    match t {
        Some(node) => left_leaning(node.left) && left_leaning(node.right) && !red(node.right),
        None => true,
    }
}

/// `t` is a left-leaning red-black tree, whose root may be red.
pub open spec fn llrb<K, V>(t: Link<K, V>) -> bool
    decreases t,
{
    match t {
        Some(node) => {
            &&& llrb(node.left)
            &&& llrb(node.right)
            &&& bh(node.left) == bh(node.right)
            &&& !red(node.right)
            &&& (red(t) ==> !red(node.left))
        },
        None => true,
    }
}

/// The subtrees of `t` are left-leaning red-black trees of one black height.
pub open spec fn near<K, V>(t: Link<K, V>) -> bool {
    &&& t is Some
    &&& llrb(left_of(t))
    &&& llrb(right_of(t))
    &&& bh(left_of(t)) == bh(right_of(t))
}

/// As `llrb`, but a red root may have a red left child.
pub open spec fn llrb_rr<K, V>(t: Link<K, V>) -> bool {
    near(t) && !red(right_of(t))
}

/// A red root has black children.
pub open spec fn root_ok<K, V>(t: Link<K, V>) -> bool {
    red(t) ==> !red(left_of(t)) && !red(right_of(t))
}

/// The shape in which a deletion may go on into the left subtree.
pub open spec fn ready_left<K, V>(t: Link<K, V>) -> bool {
    &&& near(t)
    &&& root_ok(t)
    &&& (red(left_of(t)) || red(left_of(left_of(t))))
}

/// The shape in which a deletion may start at `t` when it can go right.
pub open spec fn ready_max<K, V>(t: Link<K, V>) -> bool {
    &&& near(t)
    &&& root_ok(t)
    &&& !(red(left_of(t)) && red(right_of(t)))
    &&& (red(t) || red(left_of(t)) || red(right_of(t)))
}

/// The shape in which a deletion may go on into the right subtree.
pub open spec fn ready_right<K, V>(t: Link<K, V>) -> bool {
    &&& t is Some
    &&& llrb(left_of(t))
    &&& ready_max(right_of(t))
    &&& bh(left_of(t)) == bh(right_of(t))
    &&& root_ok(t)
}

/// What `balance` accepts: one subtree may have just been changed by an
/// insertion or a deletion.
pub open spec fn balance_ready<K, V>(h: Node<K, V>) -> bool {
    &&& (h.left is None || llrb_rr(h.left))
    &&& llrb(h.right)
    &&& bh(h.left) == bh(h.right)
    &&& (h.color == Colors::RED ==> llrb(h.left) && !(red(h.left) && red(h.right)))
    &&& (!llrb(h.left) ==> !red(h.right))
}

pub open spec fn other(c: Colors) -> Colors {
    match c {
        Colors::RED => Colors::BLACK,
        Colors::BLACK => Colors::RED,
    }
}

/// `t` with the colour of its root changed to the other one.
pub open spec fn toggled<K, V>(t: Link<K, V>) -> Link<K, V> {
    match t {
        Some(node) => Some(
            Box::new(
                Node {
                    key: node.key,
                    val: node.val,
                    n: node.n,
                    color: other(node.color),
                    left: node.left,
                    right: node.right,
                },
            ),
        ),
        None => None,
    }
}

/// `x` is `h` turned to the left: the right child of `h` has taken its place
/// and its colour, and `h` has become its red left child.
pub open spec fn turned_left<K, V>(h: Node<K, V>, x: Node<K, V>) -> bool {
    &&& h.right is Some
    &&& x.left is Some
    &&& x.key == h.right.unwrap().key
    &&& x.val == h.right.unwrap().val
    &&& x.color == h.color
    &&& x.n == h.n
    &&& x.right == h.right.unwrap().right
    &&& x.left.unwrap().key == h.key
    &&& x.left.unwrap().val == h.val
    &&& x.left.unwrap().color == Colors::RED
    &&& x.left.unwrap().left == h.left
    &&& x.left.unwrap().right == h.right.unwrap().left
}

/// `x` is `h` turned to the right: the mirror image of `turned_left`.
pub open spec fn turned_right<K, V>(h: Node<K, V>, x: Node<K, V>) -> bool {
    &&& h.left is Some
    &&& x.right is Some
    &&& x.key == h.left.unwrap().key
    &&& x.val == h.left.unwrap().val
    &&& x.color == h.color
    &&& x.n == h.n
    &&& x.left == h.left.unwrap().left
    &&& x.right.unwrap().key == h.key
    &&& x.right.unwrap().val == h.val
    &&& x.right.unwrap().color == Colors::RED
    &&& x.right.unwrap().right == h.right
    &&& x.right.unwrap().left == h.left.unwrap().right
}

/// `x` is `h` with the colours of its root and of its two children changed
/// and nothing else.
pub open spec fn recoloured<K, V>(h: Node<K, V>, x: Node<K, V>) -> bool {
    &&& x.key == h.key
    &&& x.val == h.val
    &&& x.n == h.n
    &&& x.color == other(h.color)
    &&& x.left == toggled(h.left)
    &&& x.right == toggled(h.right)
}

/// `x` is `h` after a red link was carried over from its right subtree to
/// its left one: the left child of the right child of `h` has taken the
/// place and the colour of `h`; `h` is its left child and the right child of
/// `h` its right child, both with the colour that `h` had not; the left
/// child of `h` has changed its colour and stayed where it was.
pub open spec fn carried_left<K, V>(h: Node<K, V>, x: Node<K, V>) -> bool {
    &&& h.right is Some
    &&& h.right.unwrap().left is Some
    &&& x.left is Some
    &&& x.right is Some
    &&& x.key == h.right.unwrap().left.unwrap().key
    &&& x.val == h.right.unwrap().left.unwrap().val
    &&& x.color == h.color
    &&& x.n == h.n
    &&& x.left.unwrap().key == h.key
    &&& x.left.unwrap().val == h.val
    &&& x.left.unwrap().color == other(h.color)
    &&& x.left.unwrap().left == toggled(h.left)
    &&& x.left.unwrap().right == h.right.unwrap().left.unwrap().left
    &&& x.right.unwrap().key == h.right.unwrap().key
    &&& x.right.unwrap().val == h.right.unwrap().val
    &&& x.right.unwrap().color == h.right.unwrap().color
    &&& x.right.unwrap().left == h.right.unwrap().left.unwrap().right
    &&& x.right.unwrap().right == h.right.unwrap().right
}

/// `x` is `h` after a red link was carried over from its left subtree to
/// its right one: the left child of `h` has taken the place and the colour
/// of `h`, and `h` is its right child with the colour that it had not; the
/// right child of `h` and the left child of its left child have changed
/// their colours and stayed where they were.
pub open spec fn carried_right<K, V>(h: Node<K, V>, x: Node<K, V>) -> bool {
    &&& h.left is Some
    &&& x.right is Some
    &&& x.key == h.left.unwrap().key
    &&& x.val == h.left.unwrap().val
    &&& x.color == h.color
    &&& x.n == h.n
    &&& x.left == toggled(h.left.unwrap().left)
    &&& x.right.unwrap().key == h.key
    &&& x.right.unwrap().val == h.val
    &&& x.right.unwrap().color == other(h.color)
    &&& x.right.unwrap().left == h.left.unwrap().right
    &&& x.right.unwrap().right == toggled(h.right)
}

/// `t` with `val` as the value of the node that holds `key`, and nothing
/// else changed; `t` itself where no node on the way to `key` holds it.
pub open spec fn with_value<K: PartialOrd, V>(t: Link<K, V>, key: K, val: V) -> Link<K, V>
    decreases t,
{
    match t {
        None => None,
        Some(node) => if lt(key, node.key) {
            Some(
                Box::new(
                    Node {
                        key: node.key,
                        val: node.val,
                        n: node.n,
                        color: node.color,
                        left: with_value(node.left, key, val),
                        right: node.right,
                    },
                ),
            )
        } else if lt(node.key, key) {
            Some(
                Box::new(
                    Node {
                        key: node.key,
                        val: node.val,
                        n: node.n,
                        color: node.color,
                        left: node.left,
                        right: with_value(node.right, key, val),
                    },
                ),
            )
        } else {
            Some(
                Box::new(
                    Node {
                        key: node.key,
                        val,
                        n: node.n,
                        color: node.color,
                        left: node.left,
                        right: node.right,
                    },
                ),
            )
        },
    }
}

/// The subtree of `t` whose root holds `key`; an empty link where no node on
/// the way to `key` holds it.
pub open spec fn subtree_of<K: PartialOrd, V>(t: Link<K, V>, key: K) -> Link<K, V>
    decreases t,
{
    match t {
        None => None,
        Some(node) => if lt(key, node.key) {
            subtree_of(node.left, key)
        } else if lt(node.key, key) {
            subtree_of(node.right, key)
        } else {
            t
        },
    }
}

/// `t` with `l` as the left subtree of its root.
pub open spec fn with_left<K, V>(t: Link<K, V>, l: Link<K, V>) -> Link<K, V> {
    match t {
        Some(node) => Some(
            Box::new(
                Node {
                    key: node.key,
                    val: node.val,
                    n: node.n,
                    color: node.color,
                    left: l,
                    right: node.right,
                },
            ),
        ),
        None => None,
    }
}

/// `t` with `r` as the right subtree of its root.
pub open spec fn with_right<K, V>(t: Link<K, V>, r: Link<K, V>) -> Link<K, V> {
    match t {
        Some(node) => Some(
            Box::new(
                Node {
                    key: node.key,
                    val: node.val,
                    n: node.n,
                    color: node.color,
                    left: node.left,
                    right: r,
                },
            ),
        ),
        None => None,
    }
}

/// The subtree of `t` whose root holds the least key: the one that is
/// reached by going left as long as there is a left child; `t` itself where
/// it is empty.
pub open spec fn least_of<K, V>(t: Link<K, V>) -> Link<K, V>
    decreases t,
{
    match t {
        Some(node) => if node.left is Some {
            least_of(node.left)
        } else {
            t
        },
        None => None,
    }
}

/// `t` with `m` in the place of the subtree whose root holds the least key.
pub open spec fn with_least<K, V>(t: Link<K, V>, m: Link<K, V>) -> Link<K, V>
    decreases t,
{
    match t {
        Some(node) => if node.left is Some {
            with_left(t, with_least(node.left, m))
        } else {
            m
        },
        None => m,
    }
}

/// Nothing in `h` asks for a turn or a change of colours: its right child
/// is black, and its left child and that child's left child are not both
/// red.
pub open spec fn at_rest<K, V>(h: Node<K, V>) -> bool {
    !red(h.right) && !(red(h.left) && red(left_of(h.left)))
}

/// The number of nodes on the longest way down from `t`.
pub open spec fn height<K, V>(t: Link<K, V>) -> nat
    decreases t,
{
    match t {
        Some(node) => 1 + if height(node.left) >= height(node.right) {
            height(node.left)
        } else {
            height(node.right)
        },
        None => 0,
    }
}

/// A left-leaning red-black tree is at most twice as high as it has black
/// nodes on a way down, and one more where its root is red; and it has at
/// least as many nodes, and one, as two to the power of that number.
proof fn lemma_llrb_height<K, V>(t: Link<K, V>)
    requires
        llrb(t),
    ensures
        height(t) <= 2 * bh(t) + if red(t) {
            1int
        } else {
            0int
        },
        vstd::arithmetic::power2::pow2(bh(t)) <= inorder(t).len() + 1,
    decreases t,
{
    vstd::arithmetic::power2::lemma2_to64();
    match t {
        Some(node) => {
            lemma_llrb_height(node.left);
            lemma_llrb_height(node.right);
            if !red(t) {
                vstd::arithmetic::power2::lemma_pow2_unfold(bh(t));
            }
        },
        None => {},
    }
}

/// The empty link is a tree without entries.
proof fn lemma_empty<K, V>()
    ensures
        inorder::<K, V>(None) == Seq::<(K, V)>::empty(),
        sized::<K, V>(None),
        llrb::<K, V>(None),
        bh::<K, V>(None) == 0,
        !red::<K, V>(None),
{
}

/// What a change of the root's colour keeps and what it changes.
proof fn lemma_toggled<K, V>(t: Link<K, V>)
    ensures
        inorder(toggled(t)) == inorder(t),
        sized(toggled(t)) == sized(t),
        left_of(toggled(t)) == left_of(t),
        right_of(toggled(t)) == right_of(t),
        toggled(t) is Some == t is Some,
        t is Some ==> red(toggled(t)) != red(t),
        near(toggled(t)) == near(t),
        red(t) ==> bh(toggled(t)) == bh(t) + 1,
        t is Some && !red(t) ==> bh(toggled(t)) + 1 == bh(t),
        t is Some ==> toggled(t).unwrap().key == t.unwrap().key,
        red(t) && near(t) && !red(right_of(t)) ==> llrb(toggled(t)),
        llrb(t) && !red(left_of(t)) ==> llrb(toggled(t)),
{
}

/// The key at the root of a tree is one of its keys.
proof fn lemma_root_key<K, V>(t: Link<K, V>)
    requires
        t is Some,
    ensures
        has_key(inorder(t), t.unwrap().key),
{
    let node = t.unwrap();
    let i = inorder(node.left).len() as int;
    assert(inorder(t)[i] == (node.key, node.val));
}

// ----------------------------------------------------------------------
// Nodes
// ----------------------------------------------------------------------

/// A red leaf that holds `key` and `val`.
pub(crate) fn new_node<K, V>(key: K, val: V) -> (t: Link<K, V>)
    ensures
        t == leaf(key, val),
        inorder(t) == seq![(key, val)],
        sized(t),
        red(t),
        llrb(t),
        bh(t) == 0,
{
    let t = Some(Box::new(Node { key, val, n: 1, color: Colors::RED, left: None, right: None }));
    proof {
        lemma_empty::<K, V>();
        assert(inorder(t) =~= seq![(key, val)]);
    }
    t
}

/// The number of nodes of `t`.
pub(crate) fn size<K, V>(t: &Link<K, V>) -> (n: usize)
    requires
        sized(*t),
    ensures
        n == inorder(*t).len(),
{
    match t {
        Some(node) => node.n,
        None => 0,
    }
}

/// Whether the root of `t` is red.
pub(crate) fn is_red<K, V>(t: &Link<K, V>) -> (r: bool)
    ensures
        r == red(*t),
{
    match t {
        Some(node) => match node.color {
            Colors::RED => true,
            Colors::BLACK => false,
        },
        None => false,
    }
}

/// Whether the left child of the root of `t` is red.
fn is_left_red<K, V>(t: &Link<K, V>) -> (r: bool)
    ensures
        r == red(left_of(*t)),
{
    match t {
        Some(node) => is_red(&node.left),
        None => false,
    }
}

/// Sets the stored size of `h` from those of its subtrees.
pub(crate) fn update_size<K, V>(h: Box<Node<K, V>>) -> (x: Box<Node<K, V>>)
    requires
        sized(h.left),
        sized(h.right),
        inorder(Some(h)).len() <= usize::MAX,
    ensures
        sized(Some(x)),
        x.key == h.key,
        x.val == h.val,
        x.color == h.color,
        x.left == h.left,
        x.right == h.right,
{
    let mut h = h;
    h.n = size(&h.left) + size(&h.right) + 1;
    h
}

/// Turns `h` to the left.
pub(crate) fn rotate_left<K, V>(h: Box<Node<K, V>>) -> (x: Box<Node<K, V>>)
    requires
        h.right is Some,
        sized(h.left),
        sized(h.right),
        inorder(Some(h)).len() <= usize::MAX,
    ensures
        turned_left(*h, *x),
        inorder(Some(x)) == inorder(Some(h)),
        sized(x.left),
        sized(x.right),
{
    let mut h = h;
    let ghost h0 = *h;
    let mut x = h.right.take().unwrap();
    let ghost x0 = *x;
    h.right = x.left.take();
    x.color = h.color;
    h.color = Colors::RED;
    x.n = h.n;
    proof {
        assert(inorder(Some(Box::new(h0))) == inorder(h0.left).push((h0.key, h0.val)) + inorder(
            h0.right,
        ));
        assert(inorder(h0.right) == inorder(x0.left).push((x0.key, x0.val)) + inorder(x0.right));
    }
    h.n = size(&h.left) + size(&h.right) + 1;
    x.left = Some(h);
    proof {
        reveal_with_fuel(inorder, 3);
        assert(inorder(Some(x)) =~= inorder(Some(Box::new(h0))));
    }
    x
}

/// Turns `h` to the right.
pub(crate) fn rotate_right<K, V>(h: Box<Node<K, V>>) -> (x: Box<Node<K, V>>)
    requires
        h.left is Some,
        sized(h.left),
        sized(h.right),
        inorder(Some(h)).len() <= usize::MAX,
    ensures
        turned_right(*h, *x),
        inorder(Some(x)) == inorder(Some(h)),
        sized(x.left),
        sized(x.right),
{
    let mut h = h;
    let ghost h0 = *h;
    let mut x = h.left.take().unwrap();
    let ghost x0 = *x;
    h.left = x.right.take();
    x.color = h.color;
    h.color = Colors::RED;
    x.n = h.n;
    proof {
        assert(inorder(Some(Box::new(h0))) == inorder(h0.left).push((h0.key, h0.val)) + inorder(
            h0.right,
        ));
        assert(inorder(h0.left) == inorder(x0.left).push((x0.key, x0.val)) + inorder(x0.right));
    }
    h.n = size(&h.left) + size(&h.right) + 1;
    x.right = Some(h);
    proof {
        reveal_with_fuel(inorder, 3);
        assert(inorder(Some(x)) =~= inorder(Some(Box::new(h0))));
    }
    x
}

/// Changes the colour of the root of `t`, if there is one.
fn toggle<K, V>(t: Link<K, V>) -> (r: Link<K, V>)
    ensures
        r == toggled(t),
{
    match t {
        Some(node) => {
            let mut node = node;
            node.color =
            match node.color {
                Colors::RED => Colors::BLACK,
                Colors::BLACK => Colors::RED,
            };
            Some(node)
        },
        None => None,
    }
}

/// Changes the colours of `h` and of its two children.
pub(crate) fn flip_colors<K, V>(h: Box<Node<K, V>>) -> (x: Box<Node<K, V>>)
    ensures
        x.key == h.key,
        x.val == h.val,
        x.n == h.n,
        x.color == other(h.color),
        x.left == toggled(h.left),
        x.right == toggled(h.right),
{
    let mut h = h;
    h.color =
    match h.color {
        Colors::RED => Colors::BLACK,
        Colors::BLACK => Colors::RED,
    };
    h.left = toggle(h.left.take());
    h.right = toggle(h.right.take());
    h
}

/// Restores the shape of `h` after one of its subtrees has changed: turns a
/// red right link to the left, turns two red left links in a row to the
/// right, splits a node with two red children, and sets the stored size.
pub(crate) fn balance<K, V>(h: Box<Node<K, V>>) -> (x: Box<Node<K, V>>)
    requires
        balance_ready(*h),
        sized(h.left),
        sized(h.right),
        inorder(Some(h)).len() <= usize::MAX,
    ensures
        inorder(Some(x)) == inorder(Some(h)),
        sized(Some(x)),
        bh(Some(x)) == bh(Some(h)),
        llrb_rr(Some(x)),
        h.color == Colors::BLACK ==> llrb(Some(x)),
        h.color == Colors::BLACK && llrb(h.left) && !(red(h.left) && red(h.right)) ==> !red(
            Some(x),
        ),
        h.color == Colors::RED && !red(h.left) && !red(h.right) ==> llrb(Some(x)),
        at_rest(*h) ==> x.key == h.key && x.val == h.val && x.color == h.color && x.left == h.left
            && x.right == h.right,
{
    let mut h = h;
    proof {
        reveal_with_fuel(llrb, 3);
        reveal_with_fuel(bh, 3);
    }
    if !is_red(&h.left) && is_red(&h.right) {
        h = rotate_left(h);
    }
    if is_red(&h.left) && is_left_red(&h.left) {
        h = rotate_right(h);
    }
    if is_red(&h.left) && is_red(&h.right) {
        proof {
            lemma_toggled(h.left);
            lemma_toggled(h.right);
        }
        let ghost before = Some(h);
        h = flip_colors(h);
        proof {
            assert(inorder(Some(h)) =~= inorder(before));
        }
    }
    update_size(h)
}

/// Makes the left child of the red node `h`, or that child's left child,
/// red, so that a deletion can go on to the left.
pub(crate) fn move_red_left<K, V>(h: Box<Node<K, V>>) -> (x: Box<Node<K, V>>)
    requires
        sized(Some(h)),
        llrb(Some(h)),
        red(Some(h)),
        h.left is Some,
        !red(h.left),
        !red(left_of(h.left)),
    ensures
        sized(Some(x)),
        inorder(Some(x)) == inorder(Some(h)),
        bh(Some(x)) == bh(Some(h)),
        ready_left(Some(x)),
        x.key == h.key || has_key(inorder(x.left), h.key),
        if red(left_of(h.right)) {
            carried_left(*h, *x)
        } else {
            recoloured(*h, *x)
        },
{
    let ghost h0 = Some(h);
    proof {
        reveal_with_fuel(llrb, 4);
        reveal_with_fuel(bh, 4);
        reveal_with_fuel(sized, 2);
        lemma_toggled(h.left);
        lemma_toggled(h.right);
    }
    let mut h = flip_colors(h);
    proof {
        assert(inorder(Some(h)) =~= inorder(h0));
        assert(sized(Some(h)));
    }
    if is_left_red(&h.right) {
        let r = h.right.take().unwrap();
        let r = rotate_right(r);
        h.right = Some(r);
        let ghost h1 = Some(h);
        proof {
            assert(inorder(h1) =~= inorder(h0));
        }
        h = rotate_left(h);
        let ghost h2 = Some(h);
        proof {
            lemma_toggled(h.left);
            lemma_toggled(h.right);
            lemma_root_key(h.left);
        }
        h = flip_colors(h);
        proof {
            assert(inorder(Some(h)) =~= inorder(h2));
            lemma_root_key(h.left);
        }
    }
    h
}

/// Makes the right child of the red node `h`, or a child of it, red, so that
/// a deletion can go on to the right.
pub(crate) fn move_red_right<K, V>(h: Box<Node<K, V>>) -> (x: Box<Node<K, V>>)
    requires
        sized(Some(h)),
        llrb(Some(h)),
        red(Some(h)),
        h.right is Some,
        !red(left_of(h.right)),
    ensures
        sized(Some(x)),
        inorder(Some(x)) == inorder(Some(h)),
        bh(Some(x)) == bh(Some(h)),
        ready_right(Some(x)),
        x.right is Some,
        (x.key == h.key && llrb(x.right) && red(x.right)) || x.right.unwrap().key == h.key,
        if red(left_of(h.left)) {
            carried_right(*h, *x)
        } else {
            recoloured(*h, *x)
        },
{
    let ghost h0 = Some(h);
    proof {
        reveal_with_fuel(llrb, 4);
        reveal_with_fuel(bh, 4);
        reveal_with_fuel(sized, 2);
        lemma_toggled(h.left);
        lemma_toggled(h.right);
    }
    let mut h = flip_colors(h);
    proof {
        assert(inorder(Some(h)) =~= inorder(h0));
        assert(sized(Some(h)));
    }
    if is_left_red(&h.left) {
        h = rotate_right(h);
        let ghost h2 = Some(h);
        proof {
            lemma_toggled(h.left);
            lemma_toggled(h.right);
        }
        h = flip_colors(h);
        proof {
            assert(inorder(Some(h)) =~= inorder(h2));
        }
    }
    h
}

// ----------------------------------------------------------------------
// Search, insertion and deletion below a link
// ----------------------------------------------------------------------

/// How `key` stands to the key at the root of `t`; `None` for an empty link.
pub fn compare_key<K: PartialOrd, V>(key: &K, t: &Link<K, V>) -> (r: Option<Ordering>)
    requires
        strict_total_order::<K>(),
    ensures
        match r {
            None => *t is None,
            Some(Ordering::Less) => *t is Some && lt(*key, t.unwrap().key),
            Some(Ordering::Greater) => *t is Some && lt(t.unwrap().key, *key),
            Some(Ordering::Equal) => *t is Some && *key == t.unwrap().key,
        },
{
    match t {
        Some(node) => {
            if less(key, &node.key) {
                Some(Ordering::Less)
            } else if greater(key, &node.key) {
                Some(Ordering::Greater)
            } else {
                Some(Ordering::Equal)
            }
        },
        None => None,
    }
}

/// The value stored under `key` below `t`.
fn get<'a, K: PartialOrd, V>(t: &'a Link<K, V>, key: K) -> (r: Option<&'a V>)
    requires
        strict_total_order::<K>(),
        increasing(inorder(*t)),
    ensures
        match r {
            Some(v) => entries_map(inorder(*t)).contains_key(key) && entries_map(inorder(*t))[key]
                == *v,
            None => !entries_map(inorder(*t)).contains_key(key),
        },
    decreases *t,
{
    match t {
        None => {
            proof {
                lemma_empty::<K, V>();
            }
            None
        },
        Some(node) => {
            proof {
                lemma_split(inorder(node.left), (node.key, node.val), inorder(node.right));
            }
            match compare_key(&key, t) {
                Some(Ordering::Less) => get(&node.left, key),
                Some(Ordering::Greater) => get(&node.right, key),
                _ => Some(&node.val),
            }
        },
    }
}

/// Stores `val` under `key` below `t`: a new red leaf where the key was
/// missing, a new value where it was there, and the shape restored on the
/// way back up.
pub(crate) fn put<K: PartialOrd, V>(t: Link<K, V>, key: K, val: V) -> (r: Link<K, V>)
    requires
        strict_total_order::<K>(),
        increasing(inorder(t)),
        sized(t),
        llrb(t),
        inorder(t).len() < usize::MAX,
    ensures
        r is Some,
        sized(r),
        increasing(inorder(r)),
        entries_map(inorder(r)) == entries_map(inorder(t)).insert(key, val),
        inorder(r).len() == inorder(t).len() + if entries_map(inorder(t)).contains_key(key) {
            0int
        } else {
            1int
        },
        llrb_rr(r),
        bh(r) == bh(t),
        !red(t) ==> llrb(r),
        entries_map(inorder(t)).contains_key(key) ==> r == with_value(t, key, val),
    decreases t,
{
    let c = compare_key(&key, &t);
    match t {
        None => {
            proof {
                lemma_empty::<K, V>();
                reveal_with_fuel(entries_map, 2);
                assert(seq![(key, val)].drop_last() =~= Seq::<(K, V)>::empty());
                assert(entries_map(seq![(key, val)]) =~= Map::<K, V>::empty().insert(key, val));
            }
            new_node(key, val)
        },
        Some(node) => {
            let mut node = node;
            let ghost old_node = *node;
            let ghost a = inorder(node.left);
            let ghost b = inorder(node.right);
            proof {
                reveal_with_fuel(llrb, 3);
                reveal_with_fuel(bh, 3);
                lemma_empty::<K, V>();
                lemma_split(a, (node.key, node.val), b);
            }
            match c {
                Some(Ordering::Less) => {
                    let l = put(node.left.take(), key, val);
                    node.left = l;
                    proof {
                        lemma_join(inorder(node.left), (node.key, node.val), b);
                        lemma_split(inorder(node.left), (node.key, node.val), b);
                        assert(entries_map(inorder(Some(node))) =~= entries_map(
                            inorder(t),
                        ).insert(key, val));
                        if entries_map(inorder(t)).contains_key(key) {
                            assert(entries_map(a).contains_key(key));
                            reveal_with_fuel(with_value, 2);
                            assert(at_rest(*node));
                        }
                    }
                },
                Some(Ordering::Greater) => {
                    let r = put(node.right.take(), key, val);
                    node.right = r;
                    proof {
                        lemma_join(a, (node.key, node.val), inorder(node.right));
                        lemma_split(a, (node.key, node.val), inorder(node.right));
                        assert(entries_map(inorder(Some(node))) =~= entries_map(
                            inorder(t),
                        ).insert(key, val));
                        if entries_map(inorder(t)).contains_key(key) {
                            assert(entries_map(b).contains_key(key));
                            reveal_with_fuel(with_value, 2);
                            assert(at_rest(*node));
                        }
                    }
                },
                _ => {
                    node.val = val;
                    proof {
                        lemma_join(a, (node.key, node.val), b);
                        lemma_split(a, (node.key, node.val), b);
                        assert(entries_map(inorder(Some(node))) =~= entries_map(
                            inorder(t),
                        ).insert(key, val));
                        assert(at_rest(*node));
                    }
                },
            }
            let ghost fixed = *node;
            let x = balance(node);
            proof {
                if entries_map(inorder(t)).contains_key(key) {
                    assert(at_rest(fixed));
                    assert(x.n == old_node.n);
                    assert(Some(x) == with_value(t, key, val));
                }
            }
            Some(x)
        },
    }
}

/// The entry with the least key below `t`.
fn min<'a, K, V>(t: &'a Link<K, V>) -> (r: Option<(&'a K, &'a V)>)
    ensures
        match r {
            Some((k, v)) => inorder(*t).len() > 0 && (*k, *v) == inorder(*t).first(),
            None => inorder(*t).len() == 0,
        },
    decreases *t,
{
    proof {
        lemma_empty::<K, V>();
    }
    match t {
        None => None,
        Some(node) => {
            if node.left.is_some() {
                min(&node.left)
            } else {
                Some((&node.key, &node.val))
            }
        },
    }
}

/// The entry with the greatest key below `t`.
fn max<'a, K, V>(t: &'a Link<K, V>) -> (r: Option<(&'a K, &'a V)>)
    ensures
        match r {
            Some((k, v)) => inorder(*t).len() > 0 && (*k, *v) == inorder(*t).last(),
            None => inorder(*t).len() == 0,
        },
    decreases *t,
{
    proof {
        lemma_empty::<K, V>();
    }
    match t {
        None => None,
        Some(node) => {
            if node.right.is_some() {
                max(&node.right)
            } else {
                Some((&node.key, &node.val))
            }
        },
    }
}

/// Removes the entry with the least key below `h` and hands it out beside
/// what is left.
pub(crate) fn delete_min<K, V>(h: Box<Node<K, V>>) -> (r: (Link<K, V>, K, V))
    requires
        sized(Some(h)),
        llrb(Some(h)),
        red(Some(h)) || red(h.left),
    ensures
        sized(r.0),
        llrb(r.0),
        bh(r.0) == bh(Some(h)),
        !red(Some(h)) ==> !red(r.0),
        inorder(r.0) == inorder(Some(h)).drop_first(),
        (r.1, r.2) == inorder(Some(h)).first(),
    decreases inorder(Some(h)).len(),
{
    let ghost h0 = Some(h);
    let mut h = h;
    proof {
        reveal_with_fuel(llrb, 3);
        reveal_with_fuel(bh, 3);
        lemma_empty::<K, V>();
    }
    if h.left.is_none() {
        proof {
            assert(h.right is None);
            assert(inorder(h0).drop_first() =~= Seq::<(K, V)>::empty());
        }
        let node = *h;
        return (None, node.key, node.val);
    }
    if !is_red(&h.left) && !is_left_red(&h.left) {
        h = move_red_left(h);
    }
    let l = h.left.take().unwrap();
    let (rest, k, v) = delete_min(l);
    h.left = rest;
    proof {
        assert(inorder(Some(h)) =~= inorder(h0).drop_first());
    }
    (Some(balance(h)), k, v)
}

/// Removes the entry with the greatest key below `h`.
pub(crate) fn delete_max<K, V>(h: Box<Node<K, V>>) -> (r: Link<K, V>)
    requires
        sized(Some(h)),
        ready_max(Some(h)),
    ensures
        sized(r),
        llrb(r),
        bh(r) == bh(Some(h)),
        !red(Some(h)) ==> !red(r),
        inorder(r) == inorder(Some(h)).drop_last(),
    decreases inorder(Some(h)).len(),
{
    let ghost h0 = Some(h);
    let mut h = h;
    proof {
        reveal_with_fuel(llrb, 3);
        reveal_with_fuel(bh, 3);
        lemma_empty::<K, V>();
    }
    if is_red(&h.left) {
        h = rotate_right(h);
    }
    if h.right.is_none() {
        proof {
            assert(h.left is None);
            assert(inorder(h0).drop_last() =~= Seq::<(K, V)>::empty());
        }
        return None;
    }
    if !is_red(&h.right) && !is_left_red(&h.right) {
        h = move_red_right(h);
    }
    let r = h.right.take().unwrap();
    let rest = delete_max(r);
    h.right = rest;
    proof {
        assert(inorder(Some(h)) =~= inorder(h0).drop_last());
    }
    Some(balance(h))
}

/// Removes the entry of `key` below `h`, if there is one.
#[verifier::rlimit(80)]
pub(crate) fn delete<K: PartialOrd, V>(h: Box<Node<K, V>>, key: K) -> (r: Link<K, V>)
    requires
        strict_total_order::<K>(),
        increasing(inorder(Some(h))),
        sized(Some(h)),
        ready_max(Some(h)),
        red(h.right) ==> !lt(key, h.key),
    ensures
        sized(r),
        llrb(r),
        bh(r) == bh(Some(h)),
        !red(Some(h)) ==> !red(r),
        increasing(inorder(r)),
        entries_map(inorder(r)) == entries_map(inorder(Some(h))).remove(key),
        inorder(r).len() == inorder(Some(h)).len() - if entries_map(
            inorder(Some(h)),
        ).contains_key(key) {
            1int
        } else {
            0int
        },
    decreases inorder(Some(h)).len(),
{
    let ghost h0 = Some(h);
    let ghost s = inorder(h0);
    let ghost m0 = entries_map(s);
    let ghost key0 = h.key;
    let mut h = h;
    proof {
        reveal_with_fuel(llrb, 3);
        reveal_with_fuel(bh, 3);
        lemma_empty::<K, V>();
    }
    if less(&key, &h.key) {
        if h.left.is_none() {
            proof {
                lemma_absent(inorder(h.left), (h.key, h.val), inorder(h.right), key);
            }
            return Some(h);
        }
        if !is_red(&h.left) && !is_left_red(&h.left) {
            h = move_red_left(h);
        }
        let ghost a = inorder(h.left);
        let ghost b = inorder(h.right);
        proof {
            lemma_parts_increasing(a, (h.key, h.val), b);
            assert(lt(key, h.key)) by {
                if h.key != key0 {
                    lemma_root_bounds(a, (h.key, h.val), b, key0);
                }
            }
        }
        let l = h.left.take().unwrap();
        let rest = delete(l, key);
        h.left = rest;
        proof {
            lemma_removed_left(a, inorder(h.left), (h.key, h.val), b, key);
        }
    } else {
        if is_red(&h.left) {
            h = rotate_right(h);
        }
        proof {
            assert(h.key == key0 || lt(h.key, key)) by {
                if h.key != key0 {
                    lemma_root_key(h.right);
                    lemma_root_bounds(inorder(h.left), (h.key, h.val), inorder(h.right), key0);
                }
            }
        }
        if h.right.is_none() {
            if !greater(&key, &h.key) {
                proof {
                    assert(h.left is None);
                    assert(s =~= seq![(h.key, h.val)]);
                    lemma_remove_at(s, 0);
                    assert(s.remove(0) =~= Seq::<(K, V)>::empty());
                }
                return None;
            }
            proof {
                lemma_absent(inorder(h.left), (h.key, h.val), inorder(h.right), key);
            }
            return Some(h);
        }
        let ghost key1 = h.key;
        if !is_red(&h.right) && !is_left_red(&h.right) {
            h = move_red_right(h);
        }
        let ghost a = inorder(h.left);
        let ghost b = inorder(h.right);
        proof {
            lemma_parts_increasing(a, (h.key, h.val), b);
            assert(h.key == key1 || lt(h.key, key)) by {
                if h.key != key1 {
                    lemma_root_key(h.right);
                    lemma_root_bounds(a, (h.key, h.val), b, key1);
                }
            }
        }
        let r = h.right.take().unwrap();
        if !greater(&key, &h.key) {
            proof {
                assert(key == h.key);
                assert(s[a.len() as int] == (h.key, h.val));
                lemma_remove_at(s, a.len() as int);
                assert(r.key != h.key) by {
                    lemma_root_key(Some(r));
                    lemma_root_bounds(a, (h.key, h.val), b, r.key);
                }
            }
            let (rest, k, v) = delete_min(r);
            h.key = k;
            h.val = v;
            h.right = rest;
            proof {
                assert(inorder(Some(h)) =~= s.remove(a.len() as int));
            }
        } else {
            let rest = delete(r, key);
            h.right = rest;
            proof {
                lemma_removed_right(a, (h.key, h.val), b, inorder(h.right), key);
            }
        }
    }
    Some(balance(h))
}

/// The entry at position `k` of the entries below `t` in key order.
fn select<'a, K, V>(t: &'a Link<K, V>, k: usize) -> (r: Option<(&'a K, &'a V)>)
    requires
        sized(*t),
    ensures
        match r {
            Some((key, val)) => k < inorder(*t).len() && (*key, *val) == inorder(*t)[k as int],
            None => k >= inorder(*t).len(),
        },
    decreases *t,
{
    proof {
        lemma_empty::<K, V>();
    }
    match t {
        None => None,
        Some(node) => {
            let ls = size(&node.left);
            if k < ls {
                select(&node.left, k)
            } else if k > ls {
                select(&node.right, k - ls - 1)
            } else {
                Some((&node.key, &node.val))
            }
        },
    }
}

/// The number of keys below `t` that are less than `key`.
fn rank<K: PartialOrd, V>(t: &Link<K, V>, key: K) -> (r: usize)
    requires
        strict_total_order::<K>(),
        increasing(inorder(*t)),
        sized(*t),
    ensures
        r == rank_of(inorder(*t), key),
    decreases *t,
{
    proof {
        lemma_empty::<K, V>();
    }
    match t {
        None => 0,
        Some(node) => {
            let ghost a = inorder(node.left);
            let ghost b = inorder(node.right);
            proof {
                lemma_split(a, (node.key, node.val), b);
                lemma_rank_node(a, (node.key, node.val), b, key);
                lemma_rank_bound(b, key);
            }
            match compare_key(&key, t) {
                Some(Ordering::Less) => {
                    proof {
                        lemma_rank_none(b, key);
                    }
                    rank(&node.left, key)
                },
                Some(Ordering::Greater) => {
                    proof {
                        lemma_rank_all(a, key);
                    }
                    size(&node.left) + rank(&node.right, key) + 1
                },
                _ => {
                    proof {
                        lemma_rank_all(a, key);
                        lemma_rank_none(b, key);
                    }
                    size(&node.left)
                },
            }
        },
    }
}

/// The entry with the greatest key that is not above `key`.
fn floor<'a, K: PartialOrd, V>(t: &'a Link<K, V>, key: K) -> (r: Option<(&'a K, &'a V)>)
    requires
        strict_total_order::<K>(),
        increasing(inorder(*t)),
    ensures
        match r {
            Some((k, v)) => greatest_up_to(entries_map(inorder(*t)), key, *k) && entries_map(
                inorder(*t),
            )[*k] == *v,
            None => forall|x: K| #[trigger] entries_map(inorder(*t)).contains_key(x) ==> lt(key, x),
        },
    decreases *t,
{
    match t {
        None => {
            proof {
                lemma_empty::<K, V>();
                assert(entries_map(Seq::<(K, V)>::empty()) =~= Map::<K, V>::empty());
            }
            None
        },
        Some(node) => {
            let ghost m = entries_map(inorder(*t));
            let ghost ml = entries_map(inorder(node.left));
            let ghost mr = entries_map(inorder(node.right));
            proof {
                lemma_split(inorder(node.left), (node.key, node.val), inorder(node.right));
                assert forall|x: K| #[trigger] m.contains_key(x) implies ml.contains_key(x) || x
                    == node.key || mr.contains_key(x) by {}
            }
            match compare_key(&key, t) {
                Some(Ordering::Less) => {
                    let r = floor(&node.left, key);
                    proof {
                        match r {
                            Some((k0, v0)) => {
                                let k = *k0;
                                assert(ml.contains_key(k));
                                assert(!mr.contains_key(k));
                                assert(m[k] == ml[k]);
                                assert forall|x: K| #[trigger] m.contains_key(x) && !lt(key, x) implies !lt(k, x) by {
                                    if mr.contains_key(x) {
                                        assert(lt(node.key, x));
                                    }
                                }
                                assert(greatest_up_to(m, key, k));
                            },
                            None => {
                                assert forall|x: K| #[trigger] m.contains_key(x) implies lt(key, x) by {
                                    if mr.contains_key(x) {
                                        assert(lt(node.key, x));
                                    } else if ml.contains_key(x) {
                                        assert(lt(key, x));
                                    }
                                }
                            },
                        }
                    }
                    r
                },
                Some(Ordering::Greater) => {
                    let r = floor(&node.right, key);
                    proof {
                        match r {
                            Some((k0, v0)) => {
                                let k = *k0;
                                assert(mr.contains_key(k));
                                assert(m[k] == mr[k]);
                                assert forall|x: K| #[trigger] m.contains_key(x) && !lt(key, x) implies !lt(k, x) by {
                                    if !mr.contains_key(x) {
                                        assert(lt(node.key, k));
                                        if ml.contains_key(x) {
                                            assert(lt(x, node.key));
                                        }
                                    }
                                }
                                assert(greatest_up_to(m, key, k));
                            },
                            None => {
                                assert forall|x: K| #[trigger] m.contains_key(x) && !lt(key, x) implies !lt(node.key, x) by {
                                    if mr.contains_key(x) {
                                        assert(lt(key, x));
                                    } else if ml.contains_key(x) {
                                        assert(lt(x, node.key));
                                    }
                                }
                                assert(greatest_up_to(m, key, node.key));
                            },
                        }
                    }
                    match r {
                        Some(e) => Some(e),
                        None => Some((&node.key, &node.val)),
                    }
                },
                _ => {
                    proof {
                        assert(key == node.key);
                        assert(greatest_up_to(m, key, node.key));
                    }
                    Some((&node.key, &node.val))
                },
            }
        },
    }
}

/// The entry with the least key that is not below `key`.
fn ceiling<'a, K: PartialOrd, V>(t: &'a Link<K, V>, key: K) -> (r: Option<(&'a K, &'a V)>)
    requires
        strict_total_order::<K>(),
        increasing(inorder(*t)),
    ensures
        match r {
            Some((k, v)) => least_from(entries_map(inorder(*t)), key, *k) && entries_map(
                inorder(*t),
            )[*k] == *v,
            None => forall|x: K| #[trigger] entries_map(inorder(*t)).contains_key(x) ==> lt(x, key),
        },
    decreases *t,
{
    match t {
        None => {
            proof {
                lemma_empty::<K, V>();
                assert(entries_map(Seq::<(K, V)>::empty()) =~= Map::<K, V>::empty());
            }
            None
        },
        Some(node) => {
            let ghost m = entries_map(inorder(*t));
            let ghost ml = entries_map(inorder(node.left));
            let ghost mr = entries_map(inorder(node.right));
            proof {
                lemma_split(inorder(node.left), (node.key, node.val), inorder(node.right));
                assert forall|x: K| #[trigger] m.contains_key(x) implies ml.contains_key(x) || x
                    == node.key || mr.contains_key(x) by {}
            }
            match compare_key(&key, t) {
                Some(Ordering::Greater) => {
                    let r = ceiling(&node.right, key);
                    proof {
                        match r {
                            Some((k0, v0)) => {
                                let k = *k0;
                                assert(mr.contains_key(k));
                                assert(!ml.contains_key(k));
                                assert(m[k] == mr[k]);
                                assert forall|x: K| #[trigger] m.contains_key(x) && !lt(x, key) implies !lt(x, k) by {
                                    if ml.contains_key(x) {
                                        assert(lt(x, node.key));
                                    }
                                }
                                assert(least_from(m, key, k));
                            },
                            None => {
                                assert forall|x: K| #[trigger] m.contains_key(x) implies lt(x, key) by {
                                    if ml.contains_key(x) {
                                        assert(lt(x, node.key));
                                    } else if mr.contains_key(x) {
                                        assert(lt(x, key));
                                    }
                                }
                            },
                        }
                    }
                    r
                },
                Some(Ordering::Less) => {
                    let r = ceiling(&node.left, key);
                    proof {
                        match r {
                            Some((k0, v0)) => {
                                let k = *k0;
                                assert(ml.contains_key(k));
                                assert(m[k] == ml[k]);
                                assert forall|x: K| #[trigger] m.contains_key(x) && !lt(x, key) implies !lt(x, k) by {
                                    if !ml.contains_key(x) {
                                        assert(lt(k, node.key));
                                        if mr.contains_key(x) {
                                            assert(lt(node.key, x));
                                        }
                                    }
                                }
                                assert(least_from(m, key, k));
                            },
                            None => {
                                assert forall|x: K| #[trigger] m.contains_key(x) && !lt(x, key) implies !lt(x, node.key) by {
                                    if ml.contains_key(x) {
                                        assert(lt(x, key));
                                    } else if mr.contains_key(x) {
                                        assert(lt(node.key, x));
                                    }
                                }
                                assert(least_from(m, key, node.key));
                            },
                        }
                    }
                    match r {
                        Some(e) => Some(e),
                        None => Some((&node.key, &node.val)),
                    }
                },
                _ => {
                    proof {
                        assert(key == node.key);
                        assert(least_from(m, key, node.key));
                    }
                    Some((&node.key, &node.val))
                },
            }
        },
    }
}

/// Gives the root of `t` the colour `color`, if there is a root.
pub(crate) fn change_color<K, V>(t: Link<K, V>, color: Colors) -> (r: Link<K, V>)
    ensures
        r == painted(t, color),
        r is Some == t is Some,
        inorder(r) == inorder(t),
        sized(r) == sized(t),
        left_of(r) == left_of(t),
        right_of(r) == right_of(t),
        r is Some ==> r.unwrap().color == color && r.unwrap().key == t.unwrap().key,
{
    match t {
        Some(node) => {
            let mut node = node;
            node.color = color;
            Some(node)
        },
        None => None,
    }
}

/// A left-leaning red-black tree has the three properties that make it one.
proof fn lemma_llrb_parts<K, V>(t: Link<K, V>)
    requires
        llrb(t),
    ensures
        no_red_red(t),
        balanced(t),
        left_leaning(t),
    decreases t,
{
    match t {
        Some(node) => {
            lemma_llrb_parts(node.left);
            lemma_llrb_parts(node.right);
        },
        None => {},
    }
}

// ----------------------------------------------------------------------
// The tree
// ----------------------------------------------------------------------

/// An ordered map from `K` to `V`, kept as a left-leaning red-black tree.
#[derive(Debug)]
pub struct RedBlackBST<K, V> {
    root: Link<K, V>,
}

impl<K, V> View for RedBlackBST<K, V> {
    type V = Seq<(K, V)>;

    /// The entries of the tree from the least key to the greatest.
    closed spec fn view(&self) -> Seq<(K, V)> {
        inorder(self.root)
    }
}

impl<K: PartialOrd, V> RedBlackBST<K, V> {
    /// The entries of the tree as a map.
    pub open spec fn map(&self) -> Map<K, V> {
        entries_map(self@)
    }

    /// The link to the root of the tree.
    pub closed spec fn root(&self) -> Link<K, V> {
        self.root
    }

    /// No red node has a red child.
    pub open spec fn red_red_free(&self) -> bool {
        no_red_red(self.root())
    }

    /// Every path from the root to an empty link passes the same number of
    /// black nodes.
    pub open spec fn black_balanced(&self) -> bool {
        balanced(self.root())
    }

    /// No node has a red right child.
    pub open spec fn leans_left(&self) -> bool {
        left_leaning(self.root())
    }

    /// The root is black.
    pub open spec fn root_black(&self) -> bool {
        !red(self.root())
    }

    /// The number of nodes on the longest way from the root to an empty
    /// link.
    pub open spec fn height(&self) -> nat {
        height(self.root())
    }

    /// The number of black nodes on every way from the root to an empty
    /// link.
    pub open spec fn black_height(&self) -> nat {
        bh(self.root())
    }

    /// Every node stores the number of nodes of its subtree.
    pub open spec fn sizes_stored(&self) -> bool {
        sized(self.root())
    }

    /// The tree is a left-leaning red-black search tree with a black root:
    /// what every operation keeps.
    pub closed spec fn wf(&self) -> bool {
        &&& llrb(self.root)
        &&& !red(self.root)
        &&& sized(self.root)
        &&& increasing(inorder(self.root))
    }

    /// Every well-formed tree is free of red nodes with red children, has
    /// the same number of black nodes on all paths from the root to an empty
    /// link, leans left, has a black root, and lists its keys in strictly
    /// increasing order.
    pub proof fn lemma_invariants(&self)
        requires
            self.wf(),
        ensures
            self.red_red_free(),
            self.black_balanced(),
            self.leans_left(),
            self.root_black(),
            self.sizes_stored(),
            increasing(self@),
            self@ == inorder(self.root()),
    {
        lemma_llrb_parts(self.root);
    }

    /// The height of a well-formed tree is logarithmic in the number of
    /// its entries: no way down is longer than twice the number of black
    /// nodes on it, and two to the power of that number is not more than
    /// the number of entries and one.
    pub proof fn lemma_height(&self)
        requires
            self.wf(),
        ensures
            self.height() <= 2 * self.black_height(),
            vstd::arithmetic::power2::pow2(self.black_height()) <= self@.len() + 1,
    {
        lemma_llrb_height(self.root);
    }

    /// Two well-formed trees that hold the same map list the same entries
    /// in the same order, however they came about.
    pub proof fn lemma_view_determined(&self, other: &Self)
        requires
            strict_total_order::<K>(),
            self.wf(),
            other.wf(),
            self.map() == other.map(),
        ensures
            self@ == other@,
    {
        crate::entries::lemma_same_map_same_entries(self@, other@);
    }

    /// A well-formed tree has as many entries as its map has keys.
    pub proof fn lemma_len(&self)
        requires
            strict_total_order::<K>(),
            self.wf(),
        ensures
            self.map().dom().finite(),
            self.map().len() == self@.len(),
    {
        lemma_map_len(self@);
    }

    /// The key that `select` finds at position `k` has rank `k`.
    pub proof fn lemma_rank_select(&self, k: int)
        requires
            strict_total_order::<K>(),
            self.wf(),
            0 <= k < self@.len(),
        ensures
            rank_of(self@, self@[k].0) == k,
    {
        lemma_rank_of_entry(self@, k);
    }

    /// A tree that holds what the entries `puts`, with distinct keys, make
    /// of the empty map has `puts.len()` entries; and `rest`, which holds
    /// what is left of it once the distinct keys `dels`, all of them keys of
    /// `puts`, are removed, has `dels.len()` fewer.
    pub proof fn lemma_size_after_puts_and_deletes(
        &self,
        rest: &Self,
        puts: Seq<(K, V)>,
        dels: Seq<K>,
    )
        requires
            strict_total_order::<K>(),
            self.wf(),
            rest.wf(),
            distinct_keys(puts),
            self.map() == insert_all(Map::<K, V>::empty(), puts),
            dels.no_duplicates(),
            forall|i: int| 0 <= i < dels.len() ==> has_key(puts, #[trigger] dels[i]),
            rest.map() == remove_all(self.map(), dels),
        ensures
            self@.len() == puts.len(),
            rest@.len() == puts.len() - dels.len(),
    {
        lemma_map_len(self@);
        lemma_map_len(rest@);
        lemma_insert_all_len(puts);
        crate::entries::lemma_insert_all_keys(Map::<K, V>::empty(), puts);
        assert forall|i: int| 0 <= i < dels.len() implies self.map().contains_key(
            #[trigger] dels[i],
        ) by {
            assert(has_key(puts, dels[i]));
        }
        lemma_remove_all_len(self.map(), dels);
    }

    /// After `put(key, val)`, `get(key)` finds `val`: a tree that holds the
    /// entries of `self` and `val` under `key` holds `val` under `key`.
    pub proof fn lemma_put_get(&self, after: &Self, key: K, val: V)
        requires
            after.map() == self.map().insert(key, val),
        ensures
            after.map().contains_key(key),
            after.map()[key] == val,
    {
    }

    /// After `delete(key)`, `get(key)` finds nothing, and the tree has one
    /// entry fewer if it held `key` and as many as before if it did not.
    pub proof fn lemma_delete_get(&self, after: &Self, key: K)
        requires
            strict_total_order::<K>(),
            self.wf(),
            after.wf(),
            after.map() == self.map().remove(key),
        ensures
            !after.map().contains_key(key),
            after@.len() == self@.len() - if self.map().contains_key(key) {
                1int
            } else {
                0int
            },
    {
        lemma_map_len(self@);
        lemma_map_len(after@);
    }

    /// A `put` under a key that the tree holds changes the value under that
    /// key and nothing else: the tree has as many entries as before, the
    /// same keys, and the same values under the other keys.
    pub proof fn lemma_put_existing(&self, after: &Self, key: K, val: V)
        requires
            strict_total_order::<K>(),
            self.wf(),
            after.wf(),
            self.map().contains_key(key),
            after.map() == self.map().insert(key, val),
        ensures
            after@.len() == self@.len(),
            after.map().dom() == self.map().dom(),
            forall|k: K| k != key && self.map().contains_key(k) ==> after.map()[k] == self.map()[k],
    {
        lemma_map_len(self@);
        lemma_map_len(after@);
        assert(after.map().dom() =~= self.map().dom());
    }

    /// Once every key of the tree has been deleted, in whatever order and
    /// however often, the tree that is left has no entry and holds no key.
    pub proof fn lemma_delete_all(&self, after: &Self, dels: Seq<K>)
        requires
            strict_total_order::<K>(),
            self.wf(),
            after.wf(),
            forall|k: K| self.map().contains_key(k) ==> dels.contains(k),
            after.map() == remove_all(self.map(), dels),
        ensures
            after@.len() == 0,
            forall|k: K| !after.map().contains_key(k),
    {
        lemma_map_len(self@);
        lemma_map_len(after@);
        lemma_remove_all_keys(self.map(), dels);
        assert(after.map() =~= Map::<K, V>::empty());
    }

    /// An empty tree.
    pub fn new() -> (t: Self)
        ensures
            t.wf(),
            t@ == Seq::<(K, V)>::empty(),
    {
        proof {
            lemma_empty::<K, V>();
        }
        RedBlackBST { root: None }
    }

    /// Stores `val` under `key`, in place of the value that was there if
    /// there was one. Where the key was there, nothing but that value
    /// changes: no node moves and none changes its colour.
    pub fn put(&mut self, key: K, val: V)
        requires
            strict_total_order::<K>(),
            old(self).wf(),
            old(self)@.len() < usize::MAX,
        ensures
            final(self).wf(),
            final(self).map() == old(self).map().insert(key, val),
            final(self)@.len() == old(self)@.len() + if old(self).map().contains_key(key) {
                0int
            } else {
                1int
            },
            old(self).map().contains_key(key) ==> final(self).root() == with_value(
                old(self).root(),
                key,
                val,
            ),
    {
        let ghost before = self.root;
        let root = self.root.take();
        let root = put(root, key, val);
        proof {
            reveal_with_fuel(llrb, 2);
            if entries_map(inorder(before)).contains_key(key) {
                reveal_with_fuel(with_value, 2);
                assert(!red(root));
                assert(painted(root, Colors::BLACK) == root);
            }
        }
        self.root = change_color(root, Colors::BLACK);
    }

    /// The value stored under `key`.
    pub fn get(&self, key: K) -> (r: Option<&V>)
        requires
            strict_total_order::<K>(),
            self.wf(),
        ensures
            match r {
                Some(v) => self.map().contains_key(key) && self.map()[key] == *v,
                None => !self.map().contains_key(key),
            },
    {
        get(&self.root, key)
    }

    /// Removes the entry of `key`; a tree without that key keeps its
    /// entries.
    pub fn delete(&mut self, key: K)
        requires
            strict_total_order::<K>(),
            old(self).wf(),
        ensures
            final(self).wf(),
            final(self).map() == old(self).map().remove(key),
            final(self)@.len() == old(self)@.len() - if old(self).map().contains_key(key) {
                1int
            } else {
                0int
            },
    {
        proof {
            reveal_with_fuel(llrb, 2);
            lemma_empty::<K, V>();
            assert(entries_map(Seq::<(K, V)>::empty()) =~= Map::<K, V>::empty());
        }
        match self.root.take() {
            None => {
                self.root = None;
                proof {
                    assert(old(self).map().remove(key) =~= old(self).map());
                }
            },
            Some(h) => {
                let mut h = h;
                if !is_red(&h.left) && !is_red(&h.right) {
                    h.color = Colors::RED;
                }
                proof {
                    assert(inorder(Some(h)) =~= inorder(old(self).root));
                }
                let root = delete(h, key);
                self.root = change_color(root, Colors::BLACK);
            },
        }
    }

    /// Removes the entry with the least key; an empty tree stays empty.
    pub fn delete_min(&mut self)
        requires
            old(self).wf(),
        ensures
            final(self).wf(),
            final(self)@ == if old(self)@.len() == 0 {
                old(self)@
            } else {
                old(self)@.drop_first()
            },
    {
        proof {
            reveal_with_fuel(llrb, 2);
            lemma_empty::<K, V>();
        }
        match self.root.take() {
            None => {
                self.root = None;
            },
            Some(h) => {
                let mut h = h;
                if !is_red(&h.left) && !is_red(&h.right) {
                    h.color = Colors::RED;
                }
                proof {
                    assert(inorder(Some(h)) =~= inorder(old(self).root));
                }
                let (root, _, _) = delete_min(h);
                self.root = change_color(root, Colors::BLACK);
                proof {
                    let s = old(self)@;
                    let t = s.drop_first();
                    assert forall|i: int, j: int| #![trigger t[i], t[j]] 0 <= i < j < t.len() implies lt(
                        t[i].0,
                        t[j].0,
                    ) by {
                        assert(t[i] == s[i + 1] && t[j] == s[j + 1]);
                    }
                }
            },
        }
    }

    /// Removes the entry with the greatest key; an empty tree stays empty.
    pub fn delete_max(&mut self)
        requires
            old(self).wf(),
        ensures
            final(self).wf(),
            final(self)@ == if old(self)@.len() == 0 {
                old(self)@
            } else {
                old(self)@.drop_last()
            },
    {
        proof {
            reveal_with_fuel(llrb, 2);
            lemma_empty::<K, V>();
        }
        match self.root.take() {
            None => {
                self.root = None;
            },
            Some(h) => {
                let mut h = h;
                if !is_red(&h.left) && !is_red(&h.right) {
                    h.color = Colors::RED;
                }
                proof {
                    assert(inorder(Some(h)) =~= inorder(old(self).root));
                }
                let root = delete_max(h);
                self.root = change_color(root, Colors::BLACK);
                proof {
                    let s = old(self)@;
                    let t = s.drop_last();
                    assert forall|i: int, j: int| #![trigger t[i], t[j]] 0 <= i < j < t.len() implies lt(
                        t[i].0,
                        t[j].0,
                    ) by {
                        assert(t[i] == s[i] && t[j] == s[j]);
                    }
                }
            },
        }
    }

    /// The number of entries.
    pub fn size(&self) -> (n: usize)
        requires
            self.wf(),
        ensures
            n == self@.len(),
    {
        size(&self.root)
    }

    /// The entry with the least key; `None` for an empty tree.
    pub fn min(&self) -> (r: Option<(&K, &V)>)
        requires
            self.wf(),
        ensures
            match r {
                Some((k, v)) => self@.len() > 0 && (*k, *v) == self@.first(),
                None => self@.len() == 0,
            },
    {
        min(&self.root)
    }

    /// The entry with the greatest key; `None` for an empty tree.
    pub fn max(&self) -> (r: Option<(&K, &V)>)
        requires
            self.wf(),
        ensures
            match r {
                Some((k, v)) => self@.len() > 0 && (*k, *v) == self@.last(),
                None => self@.len() == 0,
            },
    {
        max(&self.root)
    }

    /// The entry at position `k` in key order, counted from zero; `None`
    /// where `k` is not below the number of entries.
    pub fn select(&self, k: usize) -> (r: Option<(&K, &V)>)
        requires
            self.wf(),
        ensures
            match r {
                Some((key, val)) => k < self@.len() && (*key, *val) == self@[k as int],
                None => k >= self@.len(),
            },
    {
        select(&self.root, k)
    }

    /// The number of keys strictly below `key`.
    pub fn rank(&self, key: K) -> (r: usize)
        requires
            strict_total_order::<K>(),
            self.wf(),
        ensures
            r == rank_of(self@, key),
    {
        rank(&self.root, key)
    }

    /// The entry with the greatest key that is not above `key`, which is
    /// the entry of `key` where the tree holds it; `None` where every key
    /// is above `key`.
    pub fn floor(&self, key: K) -> (r: Option<(&K, &V)>)
        requires
            strict_total_order::<K>(),
            self.wf(),
        ensures
            match r {
                Some((k, v)) => greatest_up_to(self.map(), key, *k) && self.map()[*k] == *v,
                None => forall|x: K| #[trigger] self.map().contains_key(x) ==> lt(key, x),
            },
    {
        floor(&self.root, key)
    }

    /// The entry with the least key that is not below `key`, which is the
    /// entry of `key` where the tree holds it; `None` where every key is
    /// below `key`.
    pub fn ceiling(&self, key: K) -> (r: Option<(&K, &V)>)
        requires
            strict_total_order::<K>(),
            self.wf(),
        ensures
            match r {
                Some((k, v)) => least_from(self.map(), key, *k) && self.map()[*k] == *v,
                None => forall|x: K| #[trigger] self.map().contains_key(x) ==> lt(x, key),
            },
    {
        ceiling(&self.root, key)
    }
}

} // verus!
