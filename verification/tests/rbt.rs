use arithmetic::rbt::node::{compare_key, Colors, Link, ST};
use std::cmp::Ordering;
use arithmetic::rbt::tree::RBT;
use arithmetic::tree::red_black_tree::RedBlackTree;

#[test]
fn rbt_tree_test() {
    let mut rbt = RBT::<&str, isize>::new();

    rbt.put("S", 1);
    rbt.put("E", 2);
    rbt.put("X", 3);
    rbt.put("A", 4);
    rbt.put("R", 5);
    rbt.put("C", 6);
    rbt.put("H", 7);
    rbt.put("M", 8);

    rbt.delete_min();
    assert!(rbt.get("A").is_none());
    assert_eq!(rbt.size(), 7);

    rbt.delete_max();
    assert!(rbt.get("X").is_none());
    assert_eq!(rbt.size(), 6);

    rbt.delete("S");
    assert!(rbt.get("S").is_none());
    assert_eq!(rbt.size(), 5);

    rbt.delete("C");
    assert!(rbt.get("C").is_none());
    assert_eq!(rbt.size(), 4);
}

#[test]
fn red_black_tree_grows() {
    let mut tree = RedBlackTree::<u32, u32>::new();
    for k in 0..100 {
        tree.put(k, k * 2);
    }
    tree.put(7, 1);
}

#[test]
fn rbt_node_test() {
    let mut tree_node = Link::new("A", 1);
    assert_eq!(tree_node.is_red(), true);

    assert_eq!(tree_node.size(), 1);
    assert!(!tree_node.is_empty());
    assert!(tree_node.left().is_none());
    assert!(tree_node.right().is_none());
    tree_node.change_black();
    assert_eq!(tree_node.is_red(), false);
    tree_node.change_color(Colors::RED);
    assert_eq!(tree_node.is_red(), true);
}

#[test]
fn rbt_node_turns_and_colours() {
    // B with the red right child C: turned to the left, C stands on top
    // with the colour of B, and B is its red left child
    let mut h: Link<&str, i32> = Link::new("B", 2);
    h.change_black();
    h.as_mut().unwrap().right = Link::new("C", 3);
    h.update_n();
    assert_eq!(h.size(), 2);
    h.rotate_left();
    assert_eq!(h.as_ref().unwrap().key, "C");
    assert_eq!(h.is_red(), false);
    assert_eq!(h.size(), 2);
    assert_eq!(h.left().as_ref().unwrap().key, "B");
    assert_eq!(h.left().is_red(), true);
    assert_eq!(h.left().size(), 1);
    assert!(h.right().is_none());
    // and back
    h.rotate_right();
    assert_eq!(h.as_ref().unwrap().key, "B");
    assert_eq!(h.is_red(), false);
    assert_eq!(h.right().as_ref().unwrap().key, "C");
    assert_eq!(h.right().is_red(), true);
    assert!(h.left().is_none());
    // a black node with two red children changes colour with them
    h.as_mut().unwrap().left = Link::new("A", 1);
    h.update_n();
    assert_eq!(h.size(), 3);
    h.flip_colors();
    assert_eq!(h.is_red(), true);
    assert_eq!(h.left().is_red(), false);
    assert_eq!(h.right().is_red(), false);
    h.flip_colors();
    assert_eq!(h.is_red(), false);
    assert_eq!(h.left().is_red(), true);
    assert_eq!(h.right().is_red(), true);
    // an empty link
    let mut empty: Link<&str, i32> = None;
    assert_eq!(empty.is_red(), false);
    assert_eq!(empty.size(), 0);
    assert!(empty.is_empty());
    empty.change_red();
    empty.rotate_left();
    empty.rotate_right();
    assert!(empty.is_none());
}

#[test]
fn rbt_link_put_get_and_the_three_deletions() {
    let mut t: Link<&str, i32> = None;
    let mut n = 0;
    for k in ["S", "E", "X", "A", "R", "C", "H", "M"] {
        n += 1;
        t.put(k, n);
        t.change_black();
        assert_eq!(t.size(), n as usize);
    }
    assert_eq!(t.get("R").as_ref().unwrap().val, 5);
    assert_eq!(t.get("R").as_ref().unwrap().key, "R");
    assert!(t.get("Z").is_none());
    t.put("R", 50);
    t.change_black();
    assert_eq!(t.size(), 8);
    assert_eq!(t.get("R").as_ref().unwrap().val, 50);

    if !t.left().is_red() && !t.right().is_red() {
        t.change_red();
    }
    t.delete_min();
    t.change_black();
    assert_eq!(t.size(), 7);
    assert!(t.get("A").is_none());

    if !t.left().is_red() && !t.right().is_red() {
        t.change_red();
    }
    t.delete_max();
    t.change_black();
    assert_eq!(t.size(), 6);
    assert!(t.get("X").is_none());

    if !t.left().is_red() && !t.right().is_red() {
        t.change_red();
    }
    t.delete("H");
    t.change_black();
    assert_eq!(t.size(), 5);
    assert!(t.get("H").is_none());
    for k in ["C", "E", "M", "R", "S"] {
        assert_eq!(t.get(k).as_ref().unwrap().key, k);
    }
    // no red right link and no two red links in a row on the way to "C"
    assert!(!t.is_red());
    assert!(!t.right().is_red());
}

#[test]
fn rbt_link_put_of_a_held_key_changes_the_value_only() {
    let mut t: Link<u32, u32> = None;
    for k in [50, 20, 80, 10, 30, 70, 90, 60, 40, 25] {
        t.put(k, k);
        t.change_black();
    }
    let before = format!("{:?}", t);
    for k in [50, 20, 80, 10, 30, 70, 90, 60, 40, 25] {
        t.put(k, k + 1);
        t.change_black();
        assert_eq!(t.get(k).as_ref().unwrap().val, k + 1);
        assert_ne!(format!("{:?}", t), before);
        t.put(k, k);
        t.change_black();
        assert_eq!(format!("{:?}", t), before);
    }
}

#[test]
fn rbt_link_parts_in_place() {
    let mut t: Link<u32, u32> = None;
    for k in [50, 20, 80, 10, 30] {
        t.put(k, k);
        t.change_black();
    }
    assert_eq!(compare_key(&10, &t), Some(Ordering::Less));
    assert_eq!(compare_key(&90, &t), Some(Ordering::Greater));
    let top = t.as_ref().unwrap().key;
    assert_eq!(compare_key(&top, &t), Some(Ordering::Equal));
    assert_eq!(compare_key(&1, &None::<Box<arithmetic::rbt::node::Node<u32, u32>>>), None);

    assert_eq!(t.min_mut().as_ref().unwrap().key, 10);
    t.min_mut().as_mut().unwrap().val = 11;
    assert_eq!(t.get(10).as_ref().unwrap().val, 11);

    let left_key = t.left().as_ref().unwrap().key;
    assert_eq!(t.left_mut().as_ref().unwrap().key, left_key);
    let right_key = t.right().as_ref().unwrap().key;
    t.right_mut().as_mut().unwrap().val = 1;
    assert_eq!(t.get(right_key).as_ref().unwrap().val, 1);

    let mut empty: Link<u32, u32> = None;
    assert!(empty.min_mut().is_none());
    *empty.min_mut() = Link::new(1, 1);
    assert_eq!(empty.size(), 1);
}
