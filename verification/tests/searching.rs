use algorithms::problem_solving_patterns::divide_and_conquer::b_search;
use algorithms::problem_solving_patterns::multiple_pointers::sum_zero;
use algorithms::problem_solving_patterns::sliding_window::max_sub_array_sum;
use algorithms::searching_algorithms::binary_search;
use algorithms::searching_algorithms::linear_search;

#[test]
fn binary_search_search_should_work() {
    assert_eq!(binary_search::search(&[1, 2, 3, 4], &4), Some(4).as_ref());
    assert_eq!(binary_search::search(&[1, 2, 3, 4], &5), None);
}

#[test]
fn binary_search_finds_each_element() {
    let values = [1, 3, 5, 7, 9];
    for value in values.iter() {
        assert_eq!(binary_search::search(&values, value), Some(value));
    }
    assert_eq!(binary_search::search(&values, &4), None);
    assert_eq!(binary_search::search(&[2], &2), Some(&2));
}

#[test]
fn linear_search_search_should_work() {
    assert_eq!(linear_search::search(&[1, 3, 2, 4], &4), Some(4).as_ref());
    assert_eq!(linear_search::search(&[1, 3, 2, 4], &5), None);
}

#[test]
fn linear_search_in_nothing_finds_nothing() {
    let empty: [i32; 0] = [];
    assert_eq!(linear_search::search(&empty, &1), None);
}

#[test]
fn b_search_should_work() {
    assert!(b_search(&vec![], 10) == None);
    assert!(b_search(&vec![1, 2, 10, 20, 30], 10) == Some(2));
    assert!(b_search(&vec![1, 2, 20, 30], 10) == None);
}

#[test]
fn b_search_finds_the_ends() {
    assert_eq!(b_search(&vec![1, 2, 10, 20, 30], 1), Some(0));
    assert_eq!(b_search(&vec![1, 2, 10, 20, 30], 30), Some(4));
    assert_eq!(b_search(&vec![1, 2, 10, 20, 30], 31), None);
}

#[test]
fn sum_zero_should_work() {
    let valid = vec![-1, 0, 1];
    let invalid = vec![-1, 0, 2];
    let empty: Vec<i32> = vec![];

    assert!(sum_zero(valid) == Some((-1, 1)));
    assert!(sum_zero(invalid) == None);
    assert!(sum_zero(empty) == None);
}

#[test]
fn sum_zero_needs_two_places() {
    assert_eq!(sum_zero(vec![0]), None);
    assert_eq!(sum_zero(vec![0, 0]), Some((0, 0)));
    assert_eq!(sum_zero(vec![-4, -3, -2, 1, 3, 10]), Some((-3, 3)));
}

#[test]
fn max_sub_array_sum_should_work() {
    assert!(max_sub_array_sum(&vec![1, 2, 3], 0) == Err("Invalid window size"));
    assert!(max_sub_array_sum(&vec![1, 2, 3], 4) == Err("Invalid window size"));
    assert!(max_sub_array_sum(&vec![1, 2, 3], 1) == Ok(3));
    assert!(max_sub_array_sum(&vec![1, 2, 3], 2) == Ok(5));
    assert!(max_sub_array_sum(&vec![1, 2, 3], 3) == Ok(6));
}

#[test]
fn max_sub_array_sum_with_negative_elements() {
    assert_eq!(max_sub_array_sum(&vec![-5, -2, -9], 2), Ok(-7));
    assert_eq!(max_sub_array_sum(&vec![4, -1, 2, 10, -20, 3], 3), Ok(11));
}
