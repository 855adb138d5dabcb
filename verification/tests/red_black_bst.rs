use arithmetic::red_black_bst::RedBlackBST;

#[test]
fn red_black_bst_test() {
    let mut tree = RedBlackBST::<&str, isize>::new();
    // A C E H M R S X
    tree.put("S", 1);
    tree.put("E", 2);
    tree.put("X", 3);
    tree.put("A", 4);
    tree.put("R", 5);
    tree.put("C", 6);
    tree.put("H", 7);
    tree.put("M", 8);

    // a key that the tree lacks: the entries next to it
    assert_eq!(*tree.floor("J").unwrap().0, "H");
    assert_eq!(*tree.ceiling("J").unwrap().0, "M");

    // a key that the tree holds: the entries next to it
    assert_eq!(*tree.floor("R").unwrap().0, "R");
    assert_eq!(*tree.ceiling("R").unwrap().0, "R");

    // least and greatest
    assert_eq!(*tree.min().unwrap().0, "A");
    assert_eq!(*tree.max().unwrap().0, "X");

    // the entry at a position
    assert_eq!(*tree.select(0).unwrap().0, "A");
    assert_eq!(*tree.select(1).unwrap().0, "C");
    assert_eq!(*tree.select(2).unwrap().0, "E");
    assert_eq!(*tree.select(3).unwrap().0, "H");
    assert_eq!(*tree.select(4).unwrap().0, "M");
    assert_eq!(*tree.select(5).unwrap().0, "R");
    assert_eq!(*tree.select(6).unwrap().0, "S");
    assert_eq!(*tree.select(7).unwrap().0, "X");
    assert!(tree.select(8).is_none());

    // the position of a key
    assert_eq!(tree.rank("A"), 0);
    assert_eq!(tree.rank("C"), 1);
    assert_eq!(tree.rank("E"), 2);
    assert_eq!(tree.rank("H"), 3);
    assert_eq!(tree.rank("M"), 4);
    assert_eq!(tree.rank("R"), 5);
    assert_eq!(tree.rank("S"), 6);
    assert_eq!(tree.rank("X"), 7);

    // the number of entries
    assert_eq!(tree.size(), 8);

    // a value
    assert_eq!(tree.get("S"), Some(&1));

    // without the least entry
    tree.delete_min();
    assert_eq!(tree.size(), 7);
    assert!(tree.get("A").is_none());
    assert_eq!(*tree.select(0).unwrap().0, "C");

    // without the greatest entry
    tree.delete_max();
    assert_eq!(tree.size(), 6);
    assert!(tree.get("X").is_none());
    assert_eq!(*tree.select(5).unwrap().0, "S");

    // without the entry of a key
    tree.delete("S");
    assert_eq!(tree.size(), 5);
    assert!(tree.get("S").is_none());
}

use std::collections::BTreeMap;

fn letters() -> RedBlackBST<&'static str, isize> {
    let mut tree = RedBlackBST::new();
    for (i, key) in ["S", "E", "X", "A", "R", "C", "H", "M"].into_iter().enumerate() {
        tree.put(key, i as isize + 1);
    }
    tree
}

#[test]
fn letters_in_order() {
    let mut tree = letters();
    assert_eq!(tree.size(), 8);
    assert_eq!(tree.min(), Some((&"A", &4)));
    assert_eq!(tree.max(), Some((&"X", &3)));
    assert_eq!(tree.floor("J"), Some((&"H", &7)));
    assert_eq!(tree.ceiling("J"), Some((&"M", &8)));
    assert_eq!(tree.select(5), Some((&"R", &5)));
    assert_eq!(tree.rank("R"), 5);

    tree.delete_min();
    assert_eq!(tree.size(), 7);
    assert_eq!(tree.min(), Some((&"C", &6)));
    tree.delete_max();
    assert_eq!(tree.size(), 6);
    assert_eq!(tree.max(), Some((&"S", &1)));
    tree.delete("S");
    assert_eq!(tree.get("S"), None);
}

#[test]
fn empty_tree_answers_with_nothing() {
    let mut tree = RedBlackBST::<u32, u32>::new();
    assert_eq!(tree.size(), 0);
    assert_eq!(tree.get(1), None);
    assert_eq!(tree.min(), None);
    assert_eq!(tree.max(), None);
    assert_eq!(tree.select(0), None);
    assert_eq!(tree.rank(5), 0);
    assert_eq!(tree.floor(5), None);
    assert_eq!(tree.ceiling(5), None);
    // the three deletions leave an empty tree empty
    tree.delete_min();
    tree.delete_max();
    tree.delete(5);
    assert_eq!(tree.size(), 0);
    tree.put(5, 50);
    tree.delete_max();
    assert_eq!(tree.size(), 0);
    tree.put(5, 50);
    tree.delete_min();
    assert_eq!(tree.size(), 0);
}

#[test]
fn floor_and_ceiling_of_held_and_missing_keys() {
    let mut tree = RedBlackBST::<u32, u32>::new();
    for k in [10, 20, 30, 40, 50, 60, 70] {
        tree.put(k, k + 1);
    }
    for k in [10u32, 20, 30, 40, 50, 60, 70] {
        // a key that the tree holds is its own floor and ceiling
        assert_eq!(tree.floor(k), Some((&k, &(k + 1))));
        assert_eq!(tree.ceiling(k), Some((&k, &(k + 1))));
        // a key between two keys lies between its floor and its ceiling
        assert_eq!(tree.floor(k + 5).map(|e| *e.0), Some(k));
        assert_eq!(tree.ceiling(k - 5).map(|e| *e.0), Some(k));
    }
    // empty only below the least key and above the greatest
    assert_eq!(tree.floor(5), None);
    assert_eq!(tree.floor(9), None);
    assert_eq!(tree.ceiling(75), None);
    assert_eq!(tree.ceiling(71), None);
    assert_eq!(tree.floor(75), Some((&70, &71)));
    assert_eq!(tree.ceiling(5), Some((&10, &11)));
    assert_eq!(tree.floor(35), Some((&30, &31)));
    let mut one = RedBlackBST::<u32, u32>::new();
    one.put(5, 50);
    assert_eq!(one.floor(5), Some((&5, &50)));
    assert_eq!(one.ceiling(5), Some((&5, &50)));
}

#[test]
fn put_again_changes_the_value_only() {
    let mut tree = letters();
    tree.put("R", 55);
    assert_eq!(tree.size(), 8);
    assert_eq!(tree.get("R"), Some(&55));
    assert_eq!(tree.select(5), Some((&"R", &55)));
    assert_eq!(tree.get("M"), Some(&8));
}

#[test]
fn deleting_a_missing_key_keeps_the_entries() {
    let mut tree = letters();
    for key in ["B", "0", "Z", "I", "T"] {
        tree.delete(key);
        assert_eq!(tree.size(), 8);
    }
    for (k, key) in ["A", "C", "E", "H", "M", "R", "S", "X"].into_iter().enumerate() {
        assert_eq!(*tree.select(k).unwrap().0, key);
    }
}

#[test]
fn rank_of_the_selected_key_is_its_position() {
    let mut tree = RedBlackBST::<u32, u32>::new();
    for k in 0..200u32 {
        tree.put((k * 37) % 211, k);
    }
    for k in 0..tree.size() {
        let key = *tree.select(k).unwrap().0;
        assert_eq!(tree.rank(key), k);
    }
}

#[test]
fn sizes_follow_inserts_and_deletes() {
    let mut tree = RedBlackBST::<u32, u32>::new();
    for k in 0..100u32 {
        tree.put((k * 7) % 101, k);
        assert_eq!(tree.size(), k as usize + 1);
    }
    for k in 0..40u32 {
        tree.delete((k * 7) % 101);
        assert_eq!(tree.get((k * 7) % 101), None);
        assert_eq!(tree.size(), 99 - k as usize);
    }
}

#[test]
fn deleting_every_key_empties_the_tree() {
    let keys: Vec<u32> = (0..64).map(|k| (k * 29) % 67).collect();
    for step in [1usize, 5, 11, 63] {
        let mut tree = RedBlackBST::<u32, u32>::new();
        for &k in &keys {
            tree.put(k, k);
        }
        let mut at = 0;
        for _ in 0..keys.len() {
            at = (at + step) % keys.len();
            tree.delete(keys[at]);
        }
        // 64 steps of an odd width pass every position
        assert_eq!(tree.size(), 0);
        for &k in &keys {
            assert_eq!(tree.get(k), None);
        }
    }
}

#[test]
fn agrees_with_a_sorted_map() {
    let mut tree = RedBlackBST::<u16, u32>::new();
    let mut model = BTreeMap::<u16, u32>::new();
    let mut state: u32 = 12345;
    for round in 0..6000u32 {
        state = state.wrapping_mul(1664525).wrapping_add(1013904223);
        let key = ((state >> 16) % 97) as u16;
        match (state >> 8) % 8 {
            0 | 1 | 2 => {
                tree.put(key, round);
                model.insert(key, round);
            }
            3 | 4 => {
                tree.delete(key);
                model.remove(&key);
            }
            5 => {
                tree.delete_min();
                model.pop_first();
            }
            6 => {
                tree.delete_max();
                model.pop_last();
            }
            _ => {}
        }
        assert_eq!(tree.size(), model.len());
        assert_eq!(tree.get(key), model.get(&key));
        assert_eq!(tree.min(), model.iter().next());
        assert_eq!(tree.max(), model.iter().next_back());
        assert_eq!(tree.rank(key), model.range(..key).count());
        assert_eq!(tree.floor(key), model.range(..=key).next_back());
        assert_eq!(tree.ceiling(key), model.range(key..).next());
        let at = (state % 100) as usize;
        assert_eq!(tree.select(at), model.iter().nth(at));
    }
}

#[test]
fn deleting_the_least_of_ten_keys_keeps_the_rest() {
    let mut tree = RedBlackBST::<u32, u32>::new();
    for k in [1, 0, 6, 9, 2, 4, 5, 8, 7, 3] {
        tree.put(k, k * 10);
    }
    tree.delete(0);
    assert_eq!(tree.size(), 9);
    for k in 1..10u32 {
        assert_eq!(tree.get(k), Some(&(k * 10)));
        assert_eq!(tree.rank(k), k as usize - 1);
        assert_eq!(tree.select(k as usize - 1), Some((&k, &(k * 10))));
    }
    for k in [3, 1, 4, 2, 5, 0] {
        tree.put(k + 20, k);
    }
    tree.delete(21);
    tree.delete_min();
    tree.delete(21);
    assert_eq!(tree.size(), 13);
    assert_eq!(tree.min(), Some((&2, &20)));
}
