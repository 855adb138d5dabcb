use arithmetic::sort::bubble_sort::bubble_sort;
use arithmetic::sort::heap_sort::heap_sort;
use arithmetic::sort::insert_sort::insert_sort;
use arithmetic::sort::merge_sort::merge_sort;
use arithmetic::sort::quick_sort::quick_sort;
use arithmetic::sort::select_sort::select_sort;

#[test]
fn bubble_sort_test() {
    // numbers from the greatest to the least
    let mut seq = [4, 65, 2, -31, 0, 99, 2, 83, 782, 1];
    bubble_sort(&mut seq, &|x, y| x > y);
    assert_eq!(seq, [782, 99, 83, 65, 4, 2, 2, 1, 0, -31]);

    // strings in alphabetical order
    let mut seq = ["beach", "hotel", "airplane", "car", "house", "art"];
    bubble_sort(&mut seq, &|x, y| x < y);
    assert_eq!(seq, ["airplane", "art", "beach", "car", "hotel", "house"]);

    // strings by length
    bubble_sort(&mut seq, &|x, y| x.len() < y.len());
    assert_eq!(seq, ["art", "car", "beach", "hotel", "house", "airplane"]);
}

#[test]
fn heap_sort_test() {
    let mut seq = [4, 65, 2, -31, 0, 99, 2, 83, 782, 1];
    heap_sort(&mut seq, &|x, y| x > y);
    assert_eq!(seq, [782, 99, 83, 65, 4, 2, 2, 1, 0, -31]);

    let mut seq = ["beach", "hotel", "airplane", "car", "house", "art"];
    heap_sort(&mut seq, &|x, y| x < y);
    assert_eq!(seq, ["airplane", "art", "beach", "car", "hotel", "house"]);

    heap_sort(&mut seq, &|x, y| x.len() < y.len());
    assert_eq!(seq, ["art", "car", "beach", "hotel", "house", "airplane"]);
}

#[test]
fn insert_sort_test() {
    let mut seq = [4, 65, 2, -31, 0, 99, 2, 83, 782, 1];
    insert_sort(&mut seq, &|x, y| x > y);
    assert_eq!(seq, [782, 99, 83, 65, 4, 2, 2, 1, 0, -31]);

    let mut seq = ["beach", "hotel", "airplane", "car", "house", "art"];
    insert_sort(&mut seq, &|x, y| x < y);
    assert_eq!(seq, ["airplane", "art", "beach", "car", "hotel", "house"]);

    insert_sort(&mut seq, &|x, y| x.len() < y.len());
    assert_eq!(seq, ["art", "car", "beach", "hotel", "house", "airplane"]);
}

#[test]
fn merge_sort_test() {
    let mut seq = [4, 65, 2, -31, 0, 99, 2, 83, 782, 1];
    merge_sort(&mut seq, &|x, y| x > y);
    assert_eq!(seq, [782, 99, 83, 65, 4, 2, 2, 1, 0, -31]);

    let mut seq = ["beach", "hotel", "airplane", "car", "house", "art"];
    merge_sort(&mut seq, &|x, y| x < y);
    assert_eq!(seq, ["airplane", "art", "beach", "car", "hotel", "house"]);

    merge_sort(&mut seq, &|x, y| x.len() < y.len());
    assert_eq!(seq, ["car", "art", "house", "hotel", "beach", "airplane"]);
}

#[test]
fn quick_sort_test() {
    let mut seq = [4, 65, 2, -31, 0, 99, 2, 83, 782, 1];
    quick_sort(&mut seq, &|x, y| x > y);
    assert_eq!(seq, [782, 99, 83, 65, 4, 2, 2, 1, 0, -31]);

    let mut seq = ["beach", "hotel", "airplane", "car", "house", "art"];
    quick_sort(&mut seq, &|x, y| x < y);
    assert_eq!(seq, ["airplane", "art", "beach", "car", "hotel", "house"]);

    quick_sort(&mut seq, &|x, y| x.len() < y.len());
    assert_eq!(seq, ["car", "art", "house", "beach", "hotel", "airplane"]);
}

#[test]
fn select_sort_test() {
    let mut seq = [4, 65, 2, -31, 0, 99, 2, 83, 782, 1];
    select_sort(&mut seq, &|x, y| x > y);
    assert_eq!(seq, [782, 99, 83, 65, 4, 2, 2, 1, 0, -31]);

    let mut seq = ["beach", "hotel", "airplane", "car", "house", "art"];
    select_sort(&mut seq, &|x, y| x < y);
    assert_eq!(seq, ["airplane", "art", "beach", "car", "hotel", "house"]);

    select_sort(&mut seq, &|x, y| x.len() < y.len());
    assert_eq!(seq, ["art", "car", "beach", "hotel", "house", "airplane"]);
}

#[test]
fn sorts_handle_short_slices() {
    let mut none: [i32; 0] = [];
    bubble_sort(&mut none, &|x, y| x < y);
    heap_sort(&mut none, &|x, y| x < y);
    insert_sort(&mut none, &|x, y| x < y);
    merge_sort(&mut none, &|x, y| x < y);
    quick_sort(&mut none, &|x, y| x < y);
    select_sort(&mut none, &|x, y| x < y);
    let mut one = [7];
    bubble_sort(&mut one, &|x, y| x < y);
    heap_sort(&mut one, &|x, y| x < y);
    insert_sort(&mut one, &|x, y| x < y);
    merge_sort(&mut one, &|x, y| x < y);
    quick_sort(&mut one, &|x, y| x < y);
    select_sort(&mut one, &|x, y| x < y);
    assert_eq!(one, [7]);
}

#[test]
fn sorts_rearrange_and_order() {
    let input = [5, 3, 9, 3, 1, 8, 8, 0, 2, 7, 6, 4];
    let expected = [0, 1, 2, 3, 3, 4, 5, 6, 7, 8, 8, 9];
    let mut a = input;
    bubble_sort(&mut a, &|x, y| x < y);
    assert_eq!(a, expected);
    let mut a = input;
    heap_sort(&mut a, &|x, y| x < y);
    assert_eq!(a, expected);
    let mut a = input;
    insert_sort(&mut a, &|x, y| x < y);
    assert_eq!(a, expected);
    let mut a = input;
    merge_sort(&mut a, &|x, y| x < y);
    assert_eq!(a, expected);
    let mut a = input;
    quick_sort(&mut a, &|x, y| x < y);
    assert_eq!(a, expected);
    let mut a = input;
    select_sort(&mut a, &|x, y| x < y);
    assert_eq!(a, expected);
}

#[test]
fn insert_and_bubble_sort_keep_equal_elements_in_order() {
    let input = [(3, 'a'), (1, 'b'), (3, 'c'), (2, 'd'), (1, 'e'), (3, 'f'), (2, 'g'), (1, 'h')];
    let expected = [(1, 'b'), (1, 'e'), (1, 'h'), (2, 'd'), (2, 'g'), (3, 'a'), (3, 'c'), (3, 'f')];
    let by_number = |x: &(i32, char), y: &(i32, char)| x.0 < y.0;

    let mut seq = input;
    insert_sort(&mut seq, &by_number);
    assert_eq!(seq, expected);

    let mut seq = input;
    bubble_sort(&mut seq, &by_number);
    assert_eq!(seq, expected);

    let mut words = ["beach", "hotel", "airplane", "car", "house", "art"];
    insert_sort(&mut words, &|x: &&str, y: &&str| x.len() < y.len());
    assert_eq!(words, ["car", "art", "beach", "hotel", "house", "airplane"]);
}

#[test]
fn merge_sort_turns_equal_elements_round() {
    let mut seq = [(3, 'a'), (1, 'b'), (3, 'c'), (2, 'd'), (1, 'e'), (3, 'f'), (2, 'g'), (1, 'h')];
    merge_sort(&mut seq, &|x: &(i32, char), y: &(i32, char)| x.0 < y.0);
    assert_eq!(
        seq,
        [(1, 'h'), (1, 'e'), (1, 'b'), (2, 'g'), (2, 'd'), (3, 'f'), (3, 'c'), (3, 'a')]
    );
    let mut same = [(0, 1), (0, 2), (0, 3), (0, 4), (0, 5)];
    merge_sort(&mut same, &|x: &(i32, i32), y: &(i32, i32)| x.0 < y.0);
    assert_eq!(same, [(0, 5), (0, 4), (0, 3), (0, 2), (0, 1)]);
}
