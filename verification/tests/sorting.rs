use algorithms::sorting_algorithms::bubble_sort;
use algorithms::sorting_algorithms::insertion_sort;
use algorithms::sorting_algorithms::merge_sort;
use algorithms::sorting_algorithms::quick_sort;
use algorithms::sorting_algorithms::radix_sort;
use algorithms::sorting_algorithms::selection_sort;

#[test]
fn bubble_sort_sort_should_work() {
    let mut vec = [1, 3, 2, 4, 6, 5];
    let result = [1, 2, 3, 4, 5, 6];

    bubble_sort::sort(&mut vec);

    assert_eq!(vec, result);
}

#[test]
fn insertion_sort_sort_should_work() {
    let mut vec = [1, 3, 2, 4, 6, 5];
    let result = [1, 2, 3, 4, 5, 6];

    insertion_sort::sort(&mut vec);

    assert_eq!(vec, result);
}

#[test]
fn selection_sort_sort_should_work() {
    let mut vec = [1, 3, 2, 4, 6, 5];
    let result = [1, 2, 3, 4, 5, 6];

    selection_sort::sort(&mut vec);

    assert_eq!(vec, result);
}

#[test]
fn naive_merge_sorted_vecs_should_work() {
    assert_eq!(merge_sort::naive_merge_sorted_vecs::<i32>(&[], &[]), vec![]);
    assert_eq!(
        merge_sort::naive_merge_sorted_vecs::<i32>(&[1, 2, 8], &[0, 3, 4, 12]),
        vec![0, 1, 2, 3, 4, 8, 12]
    );
}

#[test]
fn naive_sort_should_work() {
    assert_eq!(merge_sort::sort::<i32>(&Vec::new()), vec![]);
    assert_eq!(merge_sort::sort(&vec![6, 3, 1, 2, 5, 4]), vec![1, 2, 3, 4, 5, 6]);
}

#[test]
fn pivot_should_work() {
    let mut vec = [3, 2, 5, 4, 1, 7, 8, 9];

    let result = quick_sort::pivot(&mut vec);

    assert_eq!(result, 2);
    assert_eq!(vec, [1, 2, 3, 4, 5, 7, 8, 9])
}

#[test]
fn quick_sort_sort_should_work() {
    let mut vec = [0, 3, 5, 1, 12, 4, 8, 2];

    quick_sort::sort(&mut vec);

    assert_eq!(vec, [0, 1, 2, 3, 4, 5, 8, 12]);
}

#[test]
fn every_sort_handles_a_least_element_at_the_end_and_equal_elements() {
    let input = [5, 3, 9, 3, 7, 1, 1];
    let expected = [1, 1, 3, 3, 5, 7, 9];

    let mut vec = input;
    bubble_sort::sort(&mut vec);
    assert_eq!(vec, expected);

    let mut vec = input;
    insertion_sort::sort(&mut vec);
    assert_eq!(vec, expected);

    let mut vec = input;
    selection_sort::sort(&mut vec);
    assert_eq!(vec, expected);

    let mut vec = input;
    quick_sort::sort(&mut vec);
    assert_eq!(vec, expected);

    assert_eq!(merge_sort::sort(&input), expected.to_vec());
}

#[test]
fn every_sort_handles_short_inputs() {
    let mut empty: [i32; 0] = [];
    bubble_sort::sort(&mut empty);
    insertion_sort::sort(&mut empty);
    selection_sort::sort(&mut empty);
    quick_sort::sort(&mut empty);
    assert_eq!(quick_sort::pivot(&mut empty), 0);

    let mut pair = [2, 1];
    insertion_sort::sort(&mut pair);
    assert_eq!(pair, [1, 2]);
    let mut single = [4];
    assert_eq!(quick_sort::pivot(&mut single), 0);
    assert_eq!(merge_sort::sort(&[4]), vec![4]);
}

#[test]
fn merging_accepts_unsorted_input() {
    assert_eq!(merge_sort::naive_merge_sorted_vecs(&[3, 1], &[2]), vec![2, 3, 1]);
    assert_eq!(merge_sort::naive_merge_sorted_vecs(&[1, 1], &[1]), vec![1, 1, 1]);
    assert_eq!(merge_sort::naive_merge_sorted_vecs(&[5], &[]), vec![5]);
}

#[test]
fn test_get_digit() {
    assert_eq!(radix_sort::get_digit(123, 0), 3);
    assert_eq!(radix_sort::get_digit(123, 1), 2);
    assert_eq!(radix_sort::get_digit(123, 2), 1);
    assert_eq!(radix_sort::get_digit(789, 0), 9);
    assert_eq!(radix_sort::get_digit(789, 1), 8);
    assert_eq!(radix_sort::get_digit(789, 2), 7);
}

#[test]
fn test_sort() {
    let mut data = vec![170, 45, 75, 90, 802, 24, 2, 66];
    radix_sort::sort(&mut data);
    assert_eq!(data, vec![2, 24, 45, 66, 75, 90, 170, 802]);

    let mut empty_data: Vec<usize> = Vec::new();
    radix_sort::sort(&mut empty_data);
    assert_eq!(empty_data, Vec::<usize>::new());

    let mut single_element_data = vec![42];
    radix_sort::sort(&mut single_element_data);
    assert_eq!(single_element_data, vec![42]);

    let mut duplicate_data = vec![9, 9, 9, 9, 9];
    radix_sort::sort(&mut duplicate_data);
    assert_eq!(duplicate_data, vec![9, 9, 9, 9, 9]);
}

#[test]
fn digits_beyond_the_highest_are_zero() {
    assert_eq!(radix_sort::get_digit(123, 3), 0);
    assert_eq!(radix_sort::get_digit(0, 0), 0);
    assert_eq!(radix_sort::get_digit(7, 1000), 0);
    assert_eq!(radix_sort::get_digit(usize::MAX, 0), usize::MAX % 10);
}

#[test]
fn radix_sort_handles_zeros_and_the_greatest_numbers() {
    let mut zeros = vec![0, 0, 0];
    radix_sort::sort(&mut zeros);
    assert_eq!(zeros, vec![0, 0, 0]);

    let mut data = vec![usize::MAX, 0, 1000, 999, usize::MAX - 1, 10, 100, 1];
    radix_sort::sort(&mut data);
    assert_eq!(data, vec![0, 1, 10, 100, 999, 1000, usize::MAX - 1, usize::MAX]);
}
