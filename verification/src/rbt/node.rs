//! The nodes of the tree, those of `red_black_bst`, and the steps on the
//! subtree below a link from which the tree's operations are made.

use crate::entries::{entries_map, increasing, lemma_split};
use crate::order::{lt, strict_total_order};
use crate::red_black_bst::{
    balance_ready, bh, carried_left, carried_right, inorder, leaf, left_of, llrb, llrb_rr, painted,
    least_of, ready_left, ready_max, ready_right, recoloured, red, right_of, sized, subtree_of,
    turned_left, turned_right, with_least, with_left, with_right, with_value,
};
pub use crate::red_black_bst::{compare_key, Colors, Link, Node};
use core::cmp::Ordering;
use vstd::prelude::*;

verus! {

/// The steps on the subtree below a link.
pub trait ST<K: PartialOrd, V>: Sized {
    /// The subtree itself.
    spec fn link(&self) -> Link<K, V>;

    /// A tree of one red node that holds `key` and `val`.
    fn new(key: K, val: V) -> (t: Link<K, V>)
        ensures
            t == leaf(key, val),
    ;

    /// The number of nodes that the root has stored; 0 for an empty link.
    fn size(&self) -> (n: usize)
        ensures
            n == match self.link() {
                Some(node) => node.n,
                None => 0,
            },
            sized(self.link()) ==> n == inorder(self.link()).len(),
    ;

    /// Stores in the root the number of nodes below the link, counted from
    /// what its two children have stored.
    fn update_n(&mut self)
        requires
            sized(left_of(old(self).link())),
            sized(right_of(old(self).link())),
            inorder(old(self).link()).len() <= usize::MAX,
        ensures
            sized(final(self).link()),
            final(self).link() is Some == old(self).link() is Some,
            final(self).link() is Some ==> {
                &&& final(self).link().unwrap().key == old(self).link().unwrap().key
                &&& final(self).link().unwrap().val == old(self).link().unwrap().val
                &&& final(self).link().unwrap().color == old(self).link().unwrap().color
                &&& final(self).link().unwrap().left == old(self).link().unwrap().left
                &&& final(self).link().unwrap().right == old(self).link().unwrap().right
            },
    ;

    /// Whether the root is red; an empty link is black.
    fn is_red(&self) -> (r: bool)
        ensures
            r == red(self.link()),
    ;

    /// Whether the root has stored that there is no node; so it is for an
    /// empty link.
    fn is_empty(&self) -> (r: bool)
        ensures
            r == match self.link() {
                Some(node) => node.n == 0,
                None => true,
            },
            sized(self.link()) ==> r == (self.link() is None),
    ;

    /// The left subtree of the root.
    fn left(&self) -> (r: &Link<K, V>)
        requires
            self.link() is Some,
        ensures
            *r == left_of(self.link()),
    ;

    /// The right subtree of the root.
    fn right(&self) -> (r: &Link<K, V>)
        requires
            self.link() is Some,
        ensures
            *r == right_of(self.link()),
    ;

    /// The left subtree of the root, to be changed in place.
    fn left_mut(&mut self) -> (r: &mut Link<K, V>)
        requires
            old(self).link() is Some,
        ensures
            *r == left_of(old(self).link()),
            final(self).link() == with_left(old(self).link(), *final(r)),
    ;

    /// The right subtree of the root, to be changed in place.
    fn right_mut(&mut self) -> (r: &mut Link<K, V>)
        requires
            old(self).link() is Some,
        ensures
            *r == right_of(old(self).link()),
            final(self).link() == with_right(old(self).link(), *final(r)),
    ;

    /// The subtree whose root holds the least key, to be changed in place.
    fn min_mut(&mut self) -> (r: &mut Link<K, V>)
        ensures
            *r == least_of(old(self).link()),
            final(self).link() == with_least(old(self).link(), *final(r)),
    ;

    /// Gives the root the colour `color`; nothing happens to an empty link.
    fn change_color(&mut self, color: Colors)
        ensures
            final(self).link() == painted(old(self).link(), color),
    ;

    /// Makes the root red.
    fn change_red(&mut self)
        ensures
            final(self).link() == painted(old(self).link(), Colors::RED),
    ;

    /// Makes the root black.
    fn change_black(&mut self)
        ensures
            final(self).link() == painted(old(self).link(), Colors::BLACK),
    ;

    /// Turns the subtree to the left: the right child of the root takes its
    /// place and its colour, and the root becomes its red left child. The
    /// entries stay in their order. Nothing happens to an empty link.
    fn rotate_left(&mut self)
        requires
            old(self).link() is Some ==> right_of(old(self).link()) is Some,
            sized(left_of(old(self).link())),
            sized(right_of(old(self).link())),
            inorder(old(self).link()).len() <= usize::MAX,
        ensures
            final(self).link() is Some == old(self).link() is Some,
            old(self).link() is Some ==> turned_left(
                *old(self).link().unwrap(),
                *final(self).link().unwrap(),
            ),
            inorder(final(self).link()) == inorder(old(self).link()),
            sized(left_of(final(self).link())),
            sized(right_of(final(self).link())),
    ;

    /// Turns the subtree to the right: the mirror image of `rotate_left`.
    fn rotate_right(&mut self)
        requires
            old(self).link() is Some ==> left_of(old(self).link()) is Some,
            sized(left_of(old(self).link())),
            sized(right_of(old(self).link())),
            inorder(old(self).link()).len() <= usize::MAX,
        ensures
            final(self).link() is Some == old(self).link() is Some,
            old(self).link() is Some ==> turned_right(
                *old(self).link().unwrap(),
                *final(self).link().unwrap(),
            ),
            inorder(final(self).link()) == inorder(old(self).link()),
            sized(left_of(final(self).link())),
            sized(right_of(final(self).link())),
    ;

    /// Changes the colour of the root and of both its children to the other
    /// one.
    fn flip_colors(&mut self)
        requires
            old(self).link() is Some,
        ensures
            final(self).link() is Some,
            recoloured(*old(self).link().unwrap(), *final(self).link().unwrap()),
    ;

    /// The subtree whose root holds `key`; an empty link where no node
    /// holds it.
    fn get(&self, key: K) -> (r: &Link<K, V>)
        requires
            strict_total_order::<K>(),
            increasing(inorder(self.link())),
        ensures
            *r == subtree_of(self.link(), key),
            match *r {
                Some(node) => entries_map(inorder(self.link())).contains_key(key) && node.key == key
                    && node.val == entries_map(inorder(self.link()))[key],
                None => !entries_map(inorder(self.link())).contains_key(key),
            },
    ;

    /// Stores `val` under `key` below the link: a new red leaf where the
    /// key was missing, a new value where it was there, and the shape
    /// restored on the way back up. The root may come out red, and a red
    /// root that went in may come out with a red left child.
    fn put(&mut self, key: K, val: V)
        requires
            strict_total_order::<K>(),
            increasing(inorder(old(self).link())),
            sized(old(self).link()),
            llrb(old(self).link()),
            inorder(old(self).link()).len() < usize::MAX,
        ensures
            final(self).link() is Some,
            sized(final(self).link()),
            increasing(inorder(final(self).link())),
            entries_map(inorder(final(self).link())) == entries_map(
                inorder(old(self).link()),
            ).insert(key, val),
            inorder(final(self).link()).len() == inorder(old(self).link()).len() + if entries_map(
                inorder(old(self).link()),
            ).contains_key(key) {
                0int
            } else {
                1int
            },
            llrb_rr(final(self).link()),
            bh(final(self).link()) == bh(old(self).link()),
            !red(old(self).link()) ==> llrb(final(self).link()),
            entries_map(inorder(old(self).link())).contains_key(key) ==> final(self).link()
                == with_value(old(self).link(), key, val),
    ;

    /// As `flip_colors`: the step that takes back what `flip_colors` did.
    fn flip_colors_inverse(&mut self)
        requires
            old(self).link() is Some,
        ensures
            final(self).link() is Some,
            recoloured(*old(self).link().unwrap(), *final(self).link().unwrap()),
    ;

    /// Restores the shape after one of the subtrees has changed: turns a
    /// red right link to the left, turns two red left links in a row to the
    /// right, splits a node with two red children, and sets the stored
    /// size.
    fn balance(&mut self)
        requires
            old(self).link() is Some,
            balance_ready(*old(self).link().unwrap()),
            sized(left_of(old(self).link())),
            sized(right_of(old(self).link())),
            inorder(old(self).link()).len() <= usize::MAX,
        ensures
            inorder(final(self).link()) == inorder(old(self).link()),
            sized(final(self).link()),
            bh(final(self).link()) == bh(old(self).link()),
            llrb_rr(final(self).link()),
            !red(old(self).link()) ==> llrb(final(self).link()),
            !red(old(self).link()) && llrb(left_of(old(self).link())) && !(red(
                left_of(old(self).link()),
            ) && red(right_of(old(self).link()))) ==> !red(final(self).link()),
            red(old(self).link()) && !red(left_of(old(self).link())) && !red(
                right_of(old(self).link()),
            ) ==> llrb(final(self).link()),
    ;

    /// Makes the left child of a red root, or that child's left child, red,
    /// so that a deletion can go on to the left: changes the colours of the
    /// root and of its children, and where the right child then has a red
    /// left child, carries that red link over by two turns and changes the
    /// colours once more.
    fn move_red_left(&mut self)
        requires
            sized(old(self).link()),
            llrb(old(self).link()),
            red(old(self).link()),
            left_of(old(self).link()) is Some,
            !red(left_of(old(self).link())),
            !red(left_of(left_of(old(self).link()))),
        ensures
            final(self).link() is Some,
            sized(final(self).link()),
            inorder(final(self).link()) == inorder(old(self).link()),
            bh(final(self).link()) == bh(old(self).link()),
            ready_left(final(self).link()),
            if red(left_of(right_of(old(self).link()))) {
                carried_left(*old(self).link().unwrap(), *final(self).link().unwrap())
            } else {
                recoloured(*old(self).link().unwrap(), *final(self).link().unwrap())
            },
    ;

    /// Makes the right child of a red root, or a child of it, red, so that
    /// a deletion can go on to the right: changes the colours of the root
    /// and of its children, and where the left child then has a red left
    /// child, carries that red link over by a turn and changes the colours
    /// once more.
    fn move_red_right(&mut self)
        requires
            sized(old(self).link()),
            llrb(old(self).link()),
            red(old(self).link()),
            right_of(old(self).link()) is Some,
            !red(left_of(right_of(old(self).link()))),
        ensures
            final(self).link() is Some,
            sized(final(self).link()),
            inorder(final(self).link()) == inorder(old(self).link()),
            bh(final(self).link()) == bh(old(self).link()),
            ready_right(final(self).link()),
            if red(left_of(left_of(old(self).link()))) {
                carried_right(*old(self).link().unwrap(), *final(self).link().unwrap())
            } else {
                recoloured(*old(self).link().unwrap(), *final(self).link().unwrap())
            },
    ;

    /// Removes the entry with the least key below the link; nothing
    /// happens to an empty link.
    fn delete_min(&mut self)
        requires
            sized(old(self).link()),
            llrb(old(self).link()),
            old(self).link() is Some ==> red(old(self).link()) || red(left_of(old(self).link())),
        ensures
            sized(final(self).link()),
            llrb(final(self).link()),
            bh(final(self).link()) == bh(old(self).link()),
            !red(old(self).link()) ==> !red(final(self).link()),
            old(self).link() is Some ==> inorder(final(self).link()) == inorder(
                old(self).link(),
            ).drop_first(),
            old(self).link() is None ==> final(self).link() is None,
    ;

    /// Removes the entry with the greatest key below the link; nothing
    /// happens to an empty link.
    fn delete_max(&mut self)
        requires
            sized(old(self).link()),
            old(self).link() is Some ==> ready_max(old(self).link()),
        ensures
            sized(final(self).link()),
            llrb(final(self).link()),
            bh(final(self).link()) == bh(old(self).link()),
            !red(old(self).link()) ==> !red(final(self).link()),
            old(self).link() is Some ==> inorder(final(self).link()) == inorder(
                old(self).link(),
            ).drop_last(),
            old(self).link() is None ==> final(self).link() is None,
    ;

    /// Removes the entry of `key` below the link, if there is one.
    fn delete(&mut self, key: K)
        requires
            strict_total_order::<K>(),
            increasing(inorder(old(self).link())),
            sized(old(self).link()),
            old(self).link() is Some ==> ready_max(old(self).link()),
            red(right_of(old(self).link())) ==> !lt(key, old(self).link().unwrap().key),
        ensures
            sized(final(self).link()),
            llrb(final(self).link()),
            bh(final(self).link()) == bh(old(self).link()),
            !red(old(self).link()) ==> !red(final(self).link()),
            increasing(inorder(final(self).link())),
            entries_map(inorder(final(self).link())) == entries_map(
                inorder(old(self).link()),
            ).remove(key),
            inorder(final(self).link()).len() == inorder(old(self).link()).len() - if entries_map(
                inorder(old(self).link()),
            ).contains_key(key) {
                1int
            } else {
                0int
            },
    ;
}

impl<K: PartialOrd, V> ST<K, V> for Link<K, V> {
    open spec fn link(&self) -> Link<K, V> {
        *self
    }

    fn new(key: K, val: V) -> (t: Link<K, V>) {
        crate::red_black_bst::new_node(key, val)
    }

    fn size(&self) -> (n: usize) {
        match self {
            Some(node) => node.n,
            None => 0,
        }
    }

    fn update_n(&mut self) {
        match self.take() {
            Some(node) => {
                *self = Some(crate::red_black_bst::update_size(node));
            },
            None => {},
        }
    }

    fn is_red(&self) -> (r: bool) {
        crate::red_black_bst::is_red(self)
    }

    fn is_empty(&self) -> (r: bool) {
        self.size() == 0
    }

    fn left(&self) -> (r: &Link<K, V>) {
        match self {
            Some(node) => &node.left,
            None => self,
        }
    }

    fn right(&self) -> (r: &Link<K, V>) {
        match self {
            Some(node) => &node.right,
            None => self,
        }
    }

    fn left_mut(&mut self) -> (r: &mut Link<K, V>) {
        &mut self.as_mut().unwrap().left
    }

    fn right_mut(&mut self) -> (r: &mut Link<K, V>) {
        &mut self.as_mut().unwrap().right
    }

    fn min_mut(&mut self) -> (r: &mut Link<K, V>)
        decreases *old(self),
    {
        if self.is_some() && self.as_ref().unwrap().left.is_some() {
            self.as_mut().unwrap().left.min_mut()
        } else {
            self
        }
    }

    fn change_color(&mut self, color: Colors) {
        *self = crate::red_black_bst::change_color(self.take(), color);
    }

    fn change_red(&mut self) {
        self.change_color(Colors::RED);
    }

    fn change_black(&mut self) {
        self.change_color(Colors::BLACK);
    }

    fn rotate_left(&mut self) {
        match self.take() {
            Some(node) => {
                *self = Some(crate::red_black_bst::rotate_left(node));
            },
            None => {},
        }
    }

    fn rotate_right(&mut self) {
        match self.take() {
            Some(node) => {
                *self = Some(crate::red_black_bst::rotate_right(node));
            },
            None => {},
        }
    }

    fn flip_colors(&mut self) {
        match self.take() {
            Some(node) => {
                *self = Some(crate::red_black_bst::flip_colors(node));
            },
            None => {},
        }
    }
    fn get(&self, key: K) -> (r: &Link<K, V>)
        decreases *self,
    {
        match self {
            None => {
                proof {
                    assert(inorder(*self) =~= Seq::<(K, V)>::empty());
                }
                self
            },
            Some(node) => {
                proof {
                    lemma_split(inorder(node.left), (node.key, node.val), inorder(node.right));
                }
                match crate::red_black_bst::compare_key(&key, self) {
                    Some(Ordering::Less) => node.left.get(key),
                    Some(Ordering::Greater) => node.right.get(key),
                    _ => self,
                }
            },
        }
    }

    fn put(&mut self, key: K, val: V) {
        *self = crate::red_black_bst::put(self.take(), key, val);
    }

    fn flip_colors_inverse(&mut self) {
        self.flip_colors();
    }

    fn balance(&mut self) {
        match self.take() {
            Some(node) => {
                *self = Some(crate::red_black_bst::balance(node));
            },
            None => {},
        }
    }

    fn move_red_left(&mut self) {
        match self.take() {
            Some(node) => {
                *self = Some(crate::red_black_bst::move_red_left(node));
            },
            None => {},
        }
    }

    fn move_red_right(&mut self) {
        match self.take() {
            Some(node) => {
                *self = Some(crate::red_black_bst::move_red_right(node));
            },
            None => {},
        }
    }

    fn delete_min(&mut self) {
        match self.take() {
            Some(node) => {
                let (rest, _, _) = crate::red_black_bst::delete_min(node);
                *self = rest;
            },
            None => {},
        }
    }

    fn delete_max(&mut self) {
        match self.take() {
            Some(node) => {
                *self = crate::red_black_bst::delete_max(node);
            },
            None => {},
        }
    }

    fn delete(&mut self, key: K) {
        match self.take() {
            Some(node) => {
                *self = crate::red_black_bst::delete(node, key);
            },
            None => {
                proof {
                    assert(inorder(*self) =~= Seq::<(K, V)>::empty());
                    assert(entries_map(inorder(*self)).remove(key) =~= entries_map(inorder(*self)));
                }
            },
        }
    }
}

} // verus!
