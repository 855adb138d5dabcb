use arithmetic::tree::avl_tree::AvlTree;

#[test]
fn avl_tree_test() {
    let mut tree = AvlTree::<u16, usize>::new();

    for i in 1..2000 {
        tree.put(rand::random::<u16>(), i);
    }

    assert!(tree.is_balance());
}

#[test]
fn avl_tree_stays_balanced_when_keys_come_in_order() {
    let mut tree = AvlTree::<u32, u32>::new();
    for k in 0..1000 {
        tree.put(k, k);
        assert!(tree.is_balance());
    }
    for k in (0..1000).rev() {
        tree.put(k, k + 1);
    }
    assert!(tree.is_balance());
}
