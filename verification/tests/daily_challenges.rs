use algorithms::daily_challenges::consecutive_ones_not_allowed::consecutive_ones_not_allowed;
use algorithms::daily_challenges::max_sum_sub_array_of_size_k::max_sum_sub_array_of_size_k;
use algorithms::daily_challenges::subarray_with_0_sum::subarray_with_0_sum;
use algorithms::daily_challenges::painting_the_fence::paint_the_fence;
use algorithms::daily_challenges::reach_the_nth_point::{
    naive_reach_the_nth_point, naive_to_next_point, optimized_reach_the_nth_point,
    optimized_to_next_point,
};
use algorithms::daily_challenges::strings_count::strings_count;
use algorithms::dynamic_programming::fibonacci;

#[test]
fn test_consecutive_ones_not_allowed() {
    assert_eq!(consecutive_ones_not_allowed(1), 2);
    assert_eq!(consecutive_ones_not_allowed(2), 3);
    assert_eq!(consecutive_ones_not_allowed(3), 5);
    assert_eq!(consecutive_ones_not_allowed(4), 8);
    assert_eq!(consecutive_ones_not_allowed(5), 13);
}

#[test]
fn consecutive_ones_of_length_zero() {
    assert_eq!(consecutive_ones_not_allowed(0), 2);
    assert_eq!(consecutive_ones_not_allowed(10), 144);
}

#[test]
fn test_paint_the_fence() {
    // If no color, no combination
    assert_eq!(paint_the_fence(3, 0), 0);

    // If no post, no combination
    assert_eq!(paint_the_fence(0, 3), 0);

    // If one post, combination == colors
    assert_eq!(paint_the_fence(1, 5), 5);

    // If 2 posts, combination == colors * colors
    assert_eq!(paint_the_fence(2, 5), 25);

    // Check real values
    assert_eq!(paint_the_fence(3, 5), 120);
    assert_eq!(paint_the_fence(4, 5), 580);
    assert_eq!(paint_the_fence(5, 5), 2800);
    assert_eq!(paint_the_fence(6, 5), 13520);
}

#[test]
fn paint_the_fence_with_one_colour() {
    assert_eq!(paint_the_fence(1, 1), 1);
    assert_eq!(paint_the_fence(2, 1), 1);
    assert_eq!(paint_the_fence(3, 1), 0);
    assert_eq!(paint_the_fence(3, 2), 6);
}

#[test]
fn test_naive_to_next_point() {
    assert_eq!(naive_to_next_point(0, 1), 1);
    assert_eq!(naive_to_next_point(0, 2), 2);
    assert_eq!(naive_to_next_point(0, 3), 3);
    assert_eq!(naive_to_next_point(0, 4), 5);
    assert_eq!(naive_to_next_point(0, 5), 8);
    assert_eq!(naive_to_next_point(0, 6), 13);
}

#[test]
fn test_optimized_to_next_point() {
    let mut buffer = vec![None::<u32>; 6];
    assert_eq!(optimized_to_next_point(0, 6, &mut buffer), 13);
}

#[test]
fn reach_the_nth_point_both_ways() {
    assert_eq!(naive_reach_the_nth_point(0), 1);
    assert_eq!(naive_reach_the_nth_point(6), 13);
    assert_eq!(optimized_reach_the_nth_point(0), 1);
    assert_eq!(optimized_reach_the_nth_point(6), 13);
    assert_eq!(optimized_reach_the_nth_point(30), 1346269);
    assert_eq!(naive_to_next_point(7, 6), 0);
    let mut buffer = vec![None::<u32>; 6];
    assert_eq!(optimized_to_next_point(2, 6, &mut buffer), 5);
    assert_eq!(buffer, vec![None, None, Some(5), Some(3), Some(2), Some(1)]);
}

#[test]
fn test_strings_count() {
    assert_eq!(strings_count(0), 0);
    assert_eq!(strings_count(1), 3);
    assert_eq!(strings_count(2), 8);
    assert_eq!(strings_count(3), 19);
    assert_eq!(strings_count(4), 39);
    assert_eq!(strings_count(5), 71);
    assert_eq!(strings_count(6), 118);
}

#[test]
fn test_fibonacci() {
    assert_eq!(fibonacci(1), 1);
    assert_eq!(fibonacci(2), 1);
    assert_eq!(fibonacci(3), 2);
    assert_eq!(fibonacci(4), 3);
    assert_eq!(fibonacci(5), 5);
}

#[test]
fn fibonacci_of_a_larger_rank() {
    assert_eq!(fibonacci(20), 6765);
}

#[test]
fn test_max_sum_sub_array_of_size_k() {
    // Window size == 0
    assert_eq!(max_sum_sub_array_of_size_k(&[1, 2, 3], 4), None);

    // Window size > vec.len()
    assert_eq!(max_sum_sub_array_of_size_k(&[1, 2, 3], 4), None);

    // Window size == vec.len()
    assert_eq!(max_sum_sub_array_of_size_k(&[1, 2, 12, 5, 6], 5), Some(26));

    // Window size == 1
    assert_eq!(max_sum_sub_array_of_size_k(&[1, 2, 12, 5, 6], 1), Some(12));

    // 1 < window_size < vec.len()
    assert_eq!(max_sum_sub_array_of_size_k(&[1, 2, 12, 5, 6], 3), Some(23));
}

#[test]
fn max_sum_sub_array_of_an_empty_window() {
    assert_eq!(max_sum_sub_array_of_size_k(&[1, 2, 3], 0), None);
    assert_eq!(max_sum_sub_array_of_size_k(&[], 0), None);
    assert_eq!(max_sum_sub_array_of_size_k(&[9, 1, 1, 1], 2), Some(10));
}

#[test]
fn test_subarray_with_0_sum() {
    // 0 is a window of size one, with sum 0
    assert_eq!(subarray_with_0_sum(&[4, 3, 0, 8]), true);
    // [3, 5, -8] is a window of size 3 with sum 0
    assert_eq!(subarray_with_0_sum(&[4, 3, 5, -8]), true);
    // No window of any size with sum 0
    assert_eq!(subarray_with_0_sum(&[4, 3, -6, -8]), false);
}

#[test]
fn subarray_with_0_sum_from_the_start_and_of_nothing() {
    assert_eq!(subarray_with_0_sum(&[]), false);
    assert_eq!(subarray_with_0_sum(&[2, -2, 7]), true);
    assert_eq!(subarray_with_0_sum(&[1, 2, 3]), false);
}
