use data_structures::intersection_of_two_sorted_arrays::intersection;

#[test]
fn intersection_keeps_common_values_once() {
    assert_eq!(
        intersection(vec![1, 2, 2, 3, 5, 8], vec![2, 2, 3, 4, 8, 9]),
        vec![2, 3, 8]
    );
}

#[test]
fn intersection_with_empty_array() {
    assert_eq!(intersection(vec![], vec![1, 2]), Vec::<i32>::new());
    assert_eq!(intersection(vec![1, 2], vec![]), Vec::<i32>::new());
}

#[test]
fn intersection_of_disjoint_arrays() {
    assert_eq!(intersection(vec![1, 3, 5], vec![2, 4, 6]), Vec::<i32>::new());
}

#[test]
fn intersection_with_negative_and_repeated_values() {
    assert_eq!(intersection(vec![-4, -4, 0, 7], vec![-4, 0, 0, 7, 7]), vec![-4, 0, 7]);
}
