//! Sorting round-trip tests over the common order cases.

use dsa_in_rust::bubble_sort::bubble_sort;

/// An ordinary unsorted array comes out sorted.
#[test]
fn test_bubble_sort() {
    let mut data = [64, 34, 25, 12, 22, 11, 90];
    bubble_sort(&mut data);
    assert_eq!(data, [11, 12, 22, 25, 34, 64, 90]);
}

/// An empty array stays empty.
#[test]
fn test_bubble_sort_empty() {
    let mut data: [i32; 0] = [];
    bubble_sort(&mut data);
    assert_eq!(data, []);
}

/// A sorted array is unchanged.
#[test]
fn test_bubble_sort_sorted() {
    let mut data = [1, 2, 3, 4, 5];
    bubble_sort(&mut data);
    assert_eq!(data, [1, 2, 3, 4, 5]);
}

/// A reverse-sorted array is turned around.
#[test]
fn test_bubble_sort_reverse() {
    let mut data = [5, 4, 3, 2, 1];
    bubble_sort(&mut data);
    assert_eq!(data, [1, 2, 3, 4, 5]);
}
