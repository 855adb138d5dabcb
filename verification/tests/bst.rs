use arithmetic::bst::node::{Link, ST};
use arithmetic::bst::tree::BST;
use arithmetic::bst::tree_node::TreeNode;

#[test]
fn node_test() {
    let mut node = Link::new("S", 1);
    assert_eq!(node.size(), 1);

    node.put("S", 1);
    node.put("E", 2);
    node.put("X", 3);
    node.put("A", 4);
    node.put("R", 5);
    node.put("C", 6);
    node.put("H", 7);
    node.put("M", 8);

    assert_eq!(node.size(), 8);

    match *node.get("A") {
        Some(ref node) => assert_eq!(node.val, 4),
        None => assert!(false),
    }

    match *node.min() {
        Some(ref node) => assert_eq!(node.key, "A"),
        None => assert!(false),
    }

    match *node.max() {
        Some(ref node) => assert_eq!(node.key, "X"),
        None => assert!(false),
    }

    match *node.ceiling("G") {
        Some(ref node) => assert_eq!(node.key, "H"),
        None => assert!(false),
    }

    match *node.floor("G") {
        Some(ref node) => assert_eq!(node.key, "E"),
        None => assert!(false),
    }

    match *node.select(5) {
        Some(ref node) => assert_eq!(node.key, "R"),
        None => assert!(false),
    }

    assert_eq!(node.rank("R"), 5);

    node.delete_min();
    assert_eq!(node.size(), 7);

    match *node.min() {
        Some(ref node) => assert_eq!(node.key, "C"),
        None => assert!(false),
    }

    node.delete_max();
    assert_eq!(node.size(), 6);

    match *node.max() {
        Some(ref node) => assert_eq!(node.key, "S"),
        None => assert!(false),
    }

    node.delete("E");
    match *node.get("E") {
        Some(_) => assert!(false),
        None => assert!(true),
    }

    assert_eq!(node.size(), 5);
}

#[test]
fn tree_test() {
    let mut bst = BST::<&str, isize>::new();
    assert_eq!(bst.size(), 0);

    bst.put("S", 1);
    bst.put("E", 2);
    bst.put("X", 3);
    bst.put("A", 4);
    bst.put("R", 5);
    bst.put("C", 6);
    bst.put("H", 7);
    bst.put("M", 8);

    assert_eq!(bst.size(), 8);

    match *bst.get("C") {
        Some(ref node) => assert_eq!(node.val, 6),
        None => assert!(false),
    }

    match *bst.min() {
        Some(ref node) => assert_eq!(node.key, "A"),
        None => assert!(false),
    }

    match *bst.max() {
        Some(ref node) => assert_eq!(node.key, "X"),
        None => assert!(false),
    }

    match *bst.floor("G") {
        Some(ref node) => assert_eq!(node.key, "E"),
        None => assert!(false),
    }

    match *bst.ceiling("G") {
        Some(ref node) => assert_eq!(node.key, "H"),
        None => assert!(false),
    }

    match *bst.select(5) {
        Some(ref node) => assert_eq!(node.key, "R"),
        None => assert!(false),
    }

    assert_eq!(bst.rank("R"), 5);

    bst.delete_min();
    assert_eq!(bst.size(), 7);

    match *bst.min() {
        Some(ref node) => assert_eq!(node.key, "C"),
        None => assert!(false),
    }

    bst.delete_max();
    assert_eq!(bst.size(), 6);

    match *bst.max() {
        Some(ref node) => assert_eq!(node.key, "S"),
        None => assert!(false),
    }

    bst.delete("E");
    match *bst.get("E") {
        Some(_) => assert!(false),
        None => assert!(true),
    }

    assert_eq!(bst.size(), 5);
}

#[test]
fn tree_node_test() {
    let mut tree_node = TreeNode::new("S", 1);
    assert_eq!(tree_node.size(), 1);

    tree_node.put("S", 1);
    tree_node.put("E", 2);
    tree_node.put("X", 3);
    tree_node.put("A", 4);
    tree_node.put("R", 5);
    tree_node.put("C", 6);
    tree_node.put("H", 7);
    tree_node.put("M", 8);

    assert_eq!(tree_node.size(), 8);

    match *tree_node.get("A") {
        Some(ref node) => assert_eq!(node.val, 4),
        None => assert!(false),
    }

    match *tree_node.min() {
        Some(ref node) => assert_eq!(node.key, "A"),
        None => assert!(false),
    }

    match *tree_node.max() {
        Some(ref node) => assert_eq!(node.key, "X"),
        None => assert!(false),
    }

    match *tree_node.ceiling("G") {
        Some(ref node) => assert_eq!(node.key, "H"),
        None => assert!(false),
    }

    match *tree_node.floor("G") {
        Some(ref node) => assert_eq!(node.key, "E"),
        None => assert!(false),
    }

    match *tree_node.select(5) {
        Some(ref node) => assert_eq!(node.key, "R"),
        None => assert!(false),
    }

    assert_eq!(tree_node.rank("R"), 5);

    tree_node.delete_min();
    assert_eq!(tree_node.size(), 7);

    match *tree_node.min() {
        Some(ref node) => assert_eq!(node.key, "C"),
        None => assert!(false),
    }

    tree_node.delete_max();
    assert_eq!(tree_node.size(), 6);

    match *tree_node.max() {
        Some(ref node) => assert_eq!(node.key, "S"),
        None => assert!(false),
    }
}

#[test]
fn bst_floor_and_ceiling_of_a_key_it_holds() {
    let mut bst = BST::<u32, u32>::new();
    for k in [50, 30, 70, 20, 40, 60, 80] {
        bst.put(k, k + 1);
    }
    assert_eq!(bst.floor(40).as_ref().unwrap().key, 40);
    assert_eq!(bst.ceiling(40).as_ref().unwrap().key, 40);
    assert_eq!(bst.floor(45).as_ref().unwrap().key, 40);
    assert_eq!(bst.ceiling(45).as_ref().unwrap().key, 50);
    assert!(bst.floor(10).is_none());
    assert!(bst.ceiling(90).is_none());
    assert!(bst.select(7).is_none());
    assert_eq!(bst.rank(45), 3);
    assert_eq!(bst.rank(100), 7);
}

#[test]
fn bst_delete_root_with_two_children() {
    let mut bst = BST::<u32, u32>::new();
    for k in [50, 30, 70, 20, 40, 60, 80] {
        bst.put(k, k + 1);
    }
    bst.delete(50);
    assert_eq!(bst.size(), 6);
    assert!(bst.get(50).is_none());
    assert_eq!(bst.select(3).as_ref().unwrap().key, 60);
    assert_eq!(bst.get(60).as_ref().unwrap().val, 61);
    bst.delete(55);
    assert_eq!(bst.size(), 6);
    let mut node: Link<u32, u32> = None;
    node.delete_self();
    assert_eq!(node.size(), 0);
    node.put(1, 2);
    node.put(0, 3);
    node.delete_self();
    assert_eq!(node.size(), 1);
    assert_eq!(node.as_ref().unwrap().key, 0);
    node.delete_min();
    node.delete_min();
    node.delete_max();
    assert_eq!(node.size(), 0);
}
