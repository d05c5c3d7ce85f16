use numalgo::bubble_sort;
use numalgo::quick_sort;

#[test]
fn bubble_sort_examples() {
    assert_eq!(bubble_sort(vec![]), Vec::<i32>::new());
    assert_eq!(bubble_sort(vec![5]), vec![5]);
    assert_eq!(bubble_sort(vec![3, 1, 2]), vec![1, 2, 3]);
}

#[test]
fn quick_sort_example() {
    assert_eq!(quick_sort(vec![5, 3, 8, 1, 9, 2]), vec![1, 2, 3, 5, 8, 9]);
}

#[test]
fn quick_sort_degenerate_inputs() {
    assert_eq!(quick_sort(vec![]), Vec::<i32>::new());
    assert_eq!(quick_sort(vec![7]), vec![7]);
    assert_eq!(quick_sort(vec![2, 2, 2]), vec![2, 2, 2]);
}

#[test]
fn sorts_agree_and_are_permutations() {
    let input = vec![4, -2, 4, 0, 7, -2, 4, i32::MIN, i32::MAX, 0];
    let b = bubble_sort(input.clone());
    let q = quick_sort(input.clone());
    assert_eq!(b, q);
    let mut expected = input.clone();
    expected.sort();
    assert_eq!(b, expected);
}

#[test]
fn sorts_agree_on_descending_run() {
    let input: Vec<i32> = (0..100).rev().collect();
    let b = bubble_sort(input.clone());
    let q = quick_sort(input);
    let expected: Vec<i32> = (0..100).collect();
    assert_eq!(b, expected);
    assert_eq!(q, expected);
}
