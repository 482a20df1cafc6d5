//! Tests for the in-place bubble sort: order cases, element types, sizes,
//! and stability.

use dsa_in_rust::bubble_sort::bubble_sort;
use dsa_in_rust::helpers::generate_sorted_integers;

/// Element with a key that decides the order and an index that tells equal
/// elements apart, for the stability test.
#[derive(Debug, Eq, PartialEq, Clone, Ord, PartialOrd)]
struct Item {
    key: i32,
    index: usize,
}

/// An ordinary unsorted array comes out sorted.
#[test]
fn test_standard_unsorted_array() {
    let mut arr = [64, 34, 25, 12, 22, 11, 90];
    bubble_sort(&mut arr);
    assert_eq!(arr, [11, 12, 22, 25, 34, 64, 90]);
}

/// An empty array stays empty.
#[test]
fn test_empty_array() {
    let mut arr: [i32; 0] = [];
    bubble_sort(&mut arr);
    assert_eq!(arr, []);
}

/// A single element stays put.
#[test]
fn test_single_element() {
    let mut arr = [42];
    bubble_sort(&mut arr);
    assert_eq!(arr, [42]);
}

/// A sorted array is unchanged.
#[test]
fn test_sorted_array() {
    let mut arr = [1, 2, 3, 4, 5];
    bubble_sort(&mut arr);
    assert_eq!(arr, [1, 2, 3, 4, 5]);
}

/// A reverse-sorted array is turned around.
#[test]
fn test_reverse_sorted() {
    let mut arr = [5, 4, 3, 2, 1];
    bubble_sort(&mut arr);
    assert_eq!(arr, [1, 2, 3, 4, 5]);
}

/// Duplicates are kept.
#[test]
fn test_duplicate_elements() {
    let mut arr = [3, 1, 4, 1, 5, 9, 2, 6, 5, 3];
    bubble_sort(&mut arr);
    assert_eq!(arr, [1, 1, 2, 3, 3, 4, 5, 5, 6, 9]);
}

/// Negative numbers sort before positive ones.
#[test]
fn test_negative_numbers() {
    let mut arr = [-3, 1, -4, 1, -5, 9, -2, 6, -5, 3];
    bubble_sort(&mut arr);
    assert_eq!(arr, [-5, -5, -4, -3, -2, 1, 1, 3, 6, 9]);
}

/// A large reversed array is fully sorted.
#[test]
fn test_large_array() {
    let mut arr: Vec<i32> = generate_sorted_integers(1000);
    arr.reverse();
    let expected: Vec<i32> = generate_sorted_integers(1000);
    bubble_sort(&mut arr);
    assert_eq!(arr, expected);
}

/// A large constant array is (trivially) sorted afterwards.
#[test]
fn test_random_large_array() {
    let mut arr = vec![42; 1000];
    bubble_sort(&mut arr);
    assert!(arr.windows(2).all(|w| w[0] <= w[1]));
}

/// Identical elements stay identical.
#[test]
fn test_same_elements() {
    let mut arr = [1, 1, 1, 1, 1];
    bubble_sort(&mut arr);
    assert_eq!(arr, [1, 1, 1, 1, 1]);
}

/// Alternating elements are grouped.
#[test]
fn test_alternating_elements() {
    let mut arr = [1, 2, 1, 2, 1, 2];
    bubble_sort(&mut arr);
    assert_eq!(arr, [1, 1, 1, 2, 2, 2]);
}

/// Characters sort by their order.
#[test]
fn test_char_array() {
    let mut arr = ['d', 'a', 'c', 'b'];
    bubble_sort(&mut arr);
    assert_eq!(arr, ['a', 'b', 'c', 'd']);
}

/// Greek letters sort by their code points.
#[test]
fn test_unicode_chars() {
    let mut arr = ['δ', 'α', 'γ', 'β'];
    bubble_sort(&mut arr);
    assert_eq!(arr, ['α', 'β', 'γ', 'δ']);
}

/// Elements with equal keys keep their original relative order.
#[test]
fn test_stability() {
    let mut items = vec![
        Item { key: 1, index: 0 },
        Item { key: 1, index: 1 },
        Item { key: 0, index: 2 },
    ];

    bubble_sort(&mut items);

    assert_eq!(items[0].key, 0);
    assert_eq!(items[1].key, 1);
    assert_eq!(items[2].key, 1);
    assert_eq!(items[1].index, 0);
    assert_eq!(items[2].index, 1);
}
