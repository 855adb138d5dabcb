use arithmetic::queue::index_binary_heap::IndexBinaryHeap;
use arithmetic::queue::index_min_pq::IndexMinPQ;
use std::cmp::Ordering;

#[derive(Eq, PartialEq)]
struct Weight {
    value: u32,
}

impl Weight {
    pub fn new(n: f32) -> Self {
        Weight { value: n.to_bits() }
    }
}

impl Ord for Weight {
    fn cmp(&self, other: &Weight) -> Ordering {
        other.value.cmp(&self.value)
    }
}

impl PartialOrd for Weight {
    fn partial_cmp(&self, other: &Weight) -> Option<Ordering> {
        Some(self.cmp(other))
    }
}

#[test]
fn index_binary_heap_test() {
    // the greatest key first
    let mut pq = IndexBinaryHeap::with_capacity(10);

    pq.put(0, 0.33);
    pq.put(1, 0.0002);
    pq.put(5, 0.001);
    pq.put(8, 0.01);
    pq.put(1, 0.8);

    assert_eq!(pq.pop(), 1);
    assert_eq!(pq.pop(), 0);
    assert_eq!(pq.pop(), 8);
    assert_eq!(pq.pop(), 5);

    // the least key first
    let mut pq = IndexBinaryHeap::with_capacity(10);

    pq.put(0, Weight::new(0.33));
    pq.put(1, Weight::new(0.0002));
    pq.put(5, Weight::new(0.001));
    pq.put(8, Weight::new(0.01));
    pq.put(1, Weight::new(0.8));

    assert_eq!(pq.pop(), 5);
    assert_eq!(pq.pop(), 8);
    assert_eq!(pq.pop(), 0);
    assert_eq!(pq.pop(), 1);
}

#[test]
fn index_min_pq_test() {
    let mut pq = IndexMinPQ::with_capacity(10);

    pq.push(0, 0.33);
    pq.push(1, 0.0002);
    pq.push(5, 0.001);
    pq.push(8, 0.01);
    pq.change(1, 0.8);

    assert_eq!(pq.pop(), 5);
    assert_eq!(pq.pop(), 8);
    assert_eq!(pq.pop(), 0);
    assert_eq!(pq.pop(), 1);
}

#[test]
fn index_binary_heap_counts_and_membership() {
    let mut pq = IndexBinaryHeap::with_capacity(3);
    assert!(pq.is_empty());
    assert!(!pq.contains(2));
    pq.put(2, 7u32);
    pq.put(0, 9u32);
    pq.put(3, 1u32);
    assert_eq!(pq.size(), 3);
    assert!(pq.contains(2));
    // a smaller key for an index that sits at the top
    pq.put(0, 0u32);
    assert_eq!(pq.size(), 3);
    assert_eq!(pq.pop(), 2);
    assert!(!pq.contains(2));
    assert_eq!(pq.pop(), 3);
    assert_eq!(pq.pop(), 0);
    assert!(pq.is_empty());
    // the places are free again
    pq.put(1, 5u32);
    pq.put(2, 6u32);
    pq.put(3, 4u32);
    assert_eq!(pq.pop(), 2);
}

#[test]
fn index_min_pq_full_queue() {
    let mut pq = IndexMinPQ::with_capacity(3);
    assert!(pq.is_empty());
    pq.push(3, 30u32);
    pq.push(1, 10u32);
    pq.push(2, 20u32);
    assert_eq!(pq.size(), 3);
    assert!(pq.contains(1));
    assert!(!pq.contains(0));
    pq.change_key(3, 5u32);
    assert_eq!(pq.pop(), 3);
    assert_eq!(pq.size(), 2);
    assert_eq!(pq.pop(), 1);
    pq.push(0, 99u32);
    assert_eq!(pq.pop(), 2);
    assert_eq!(pq.pop(), 0);
    assert!(pq.is_empty());
}
