use algorithms::daily_challenges::find_nth_character::find_nth_character;
use algorithms::daily_challenges::gold_mine_problem::{
    collect_gold_greedy, collect_gold_memoized, get_max_gold_greedy, get_max_gold_memoized,
};
use algorithms::daily_challenges::max_sum_without_adjacents::{collect_max, find_max};
use algorithms::problem_solving_patterns::multiple_pointers::is_subsequence;
use algorithms::problem_solving_patterns::sliding_window::find_longest_substring;
use algorithms::searching_algorithms::string_search::{count_str_match, is_after};

#[test]
fn test_find_nth_character() {
    assert_eq!(find_nth_character("1100", 2, 3), '1');
    assert_eq!(find_nth_character("1010", 1, 2), '0');
}

#[test]
fn find_nth_character_without_steps_and_far_out() {
    assert_eq!(find_nth_character("10", 0, 1), '0');
    // "0" becomes "01", "0110", "01101001".
    assert_eq!(find_nth_character("0", 3, 7), '1');
    assert_eq!(find_nth_character("0", 3, 4), '1');
    assert_eq!(find_nth_character("0", 3, 5), '0');
    // After two steps "1100" is "1001100101100110".
    assert_eq!(find_nth_character("1100", 2, 15), '0');
    assert_eq!(find_nth_character("1100", 2, 0), '1');
}

#[test]
fn test_collect_gold_greedy() {
    let gold_map = vec![vec![1, 4, 3], vec![5, 1, 2], vec![8, 1, 1]];
    let n = gold_map.len();
    let m = gold_map[0].len();
    let mut call_count = 0;

    assert_eq!(collect_gold_greedy(&gold_map, 0, 0, n, m, &mut call_count), 8);
    assert_eq!(collect_gold_greedy(&gold_map, 1, 0, n, m, &mut call_count), 12);
    assert_eq!(collect_gold_greedy(&gold_map, 2, 0, n, m, &mut call_count), 12);
}

#[test]
fn test_get_max_gold_greedy() {
    let gold_map = vec![
        vec![1, 4, 3, 12, 6],
        vec![5, 1, 4, 12, 2],
        vec![8, 1, 1, 7, 10],
        vec![2, 1, 5, 3, 10],
        vec![2, 1, 5, 3, 10],
    ];

    let mut call_count = 0;
    assert_eq!(get_max_gold_greedy(&gold_map, &mut call_count), 35);
    println!("CALL COUNT: {}", call_count);
}

#[test]
fn test_collect_gold_memoized() {
    let gold_map = vec![vec![1, 4, 3], vec![5, 1, 2], vec![8, 1, 1]];

    let n = gold_map.len();
    let m = gold_map[0].len();
    let mut buffer = vec![vec![None::<u32>; m]; n];
    let mut call_count = 0;

    assert_eq!(collect_gold_memoized(&gold_map, &mut buffer, 0, 0, n, m, &mut call_count), 8);
    assert_eq!(collect_gold_memoized(&gold_map, &mut buffer, 1, 0, n, m, &mut call_count), 12);
    assert_eq!(collect_gold_memoized(&gold_map, &mut buffer, 2, 0, n, m, &mut call_count), 12);
}

#[test]
fn test_get_max_gold_memoized() {
    let gold_map = vec![
        vec![1, 4, 3, 12, 6],
        vec![5, 1, 4, 12, 2],
        vec![8, 1, 1, 7, 10],
        vec![2, 1, 5, 3, 10],
        vec![2, 1, 5, 3, 10],
    ];
    let mut call_count = 0;

    assert_eq!(get_max_gold_memoized(&gold_map, &mut call_count), 35);
    println!("CALL COUNT: {}", call_count);
}

#[test]
fn gold_mine_counts_its_calls() {
    let gold_map = vec![vec![1, 2], vec![3, 4]];
    let mut call_count = 5;
    // Outside the table: one call, no gold.
    assert_eq!(collect_gold_greedy(&gold_map, -1, 0, 2, 2, &mut call_count), 0);
    assert_eq!(call_count, 6);
    assert_eq!(collect_gold_greedy(&gold_map, 2, 1, 2, 2, &mut call_count), 0);
    assert_eq!(collect_gold_greedy(&gold_map, 0, 2, 2, 2, &mut call_count), 0);
    assert_eq!(call_count, 8);
    // A field of the last column: itself and three calls outside.
    assert_eq!(collect_gold_greedy(&gold_map, 1, 1, 2, 2, &mut call_count), 4);
    assert_eq!(call_count, 12);
    // A field of the first column: itself, one call outside, two fields.
    let mut call_count = 0;
    assert_eq!(collect_gold_greedy(&gold_map, 0, 0, 2, 2, &mut call_count), 5);
    assert_eq!(call_count, 10);
    let mut greedy = 0;
    let mut memoized = 0;
    assert_eq!(get_max_gold_greedy(&gold_map, &mut greedy), 7);
    assert_eq!(get_max_gold_memoized(&gold_map, &mut memoized), 7);
    assert_eq!(greedy, 20);
    assert_eq!(memoized, 14);
    let mut buffer = vec![vec![None::<u32>; 2]; 2];
    let mut call_count = 0;
    assert_eq!(collect_gold_memoized(&gold_map, &mut buffer, 1, 0, 2, 2, &mut call_count), 7);
    assert_eq!(buffer, vec![vec![None, Some(2)], vec![Some(7), Some(4)]]);
}

#[test]
fn test_find_max() {
    assert_eq!(find_max(&[5, 5, 10, 100, 10, 5]), 110);
    assert_eq!(find_max(&[3, 2, 7, 10]), 13);
    assert_eq!(find_max(&[3, 2, 5, 10, 7]), 15);
}

#[test]
fn find_max_of_short_inputs_and_the_memo_table() {
    assert_eq!(find_max(&[]), 0);
    assert_eq!(find_max(&[9]), 9);
    assert_eq!(find_max(&[9, 4]), 9);
    assert_eq!(find_max(&[4, 9]), 9);
    let values = [3, 2, 7, 10];
    let mut buffer = vec![None::<u32>; 4];
    assert_eq!(collect_max(&values, &mut buffer, 1, 4), 12);
    assert_eq!(buffer, vec![None, Some(12), Some(10), None]);
    assert_eq!(collect_max(&values, &mut buffer, 4, 4), 0);
    assert_eq!(collect_max(&values, &mut buffer, 0, 4), 13);
    // Only the first three elements count.
    let mut buffer = vec![None::<u32>; 4];
    assert_eq!(collect_max(&values, &mut buffer, 0, 3), 10);
}

#[test]
fn is_subsequence_should_work() {
    assert!(is_subsequence("hello", "hello world") == true);
    assert!(is_subsequence("sing", "sting") == true);
    assert!(is_subsequence("abc", "abracadabra") == true);
    assert!(is_subsequence("abc", "acb") == false); // (order matters)
}

#[test]
fn is_subsequence_of_empty_strings() {
    assert_eq!(is_subsequence("", "abc"), false);
    assert_eq!(is_subsequence("", ""), false);
    assert_eq!(is_subsequence("a", ""), false);
    assert_eq!(is_subsequence("abc", "abc"), true);
    assert_eq!(is_subsequence("abcd", "abc"), false);
    assert_eq!(is_subsequence("aa", "aba"), true);
    assert_eq!(is_subsequence("aaa", "aba"), false);
}

#[test]
fn find_longest_substring_should_work() {
    assert_eq!(find_longest_substring(""), 0);
    assert_eq!(find_longest_substring("rithmschool"), 7);
    assert_eq!(find_longest_substring("thisisawesome"), 6);
    assert_eq!(find_longest_substring("thecatinthehat"), 7);
    assert_eq!(find_longest_substring("bbbbbb"), 1);
    assert_eq!(find_longest_substring("longestsubstring"), 8);
    assert_eq!(find_longest_substring("thisishowwedoit"), 6);
}

#[test]
fn find_longest_substring_with_a_repeat_before_the_window() {
    assert_eq!(find_longest_substring("abba"), 2);
    assert_eq!(find_longest_substring("abcabcd"), 4);
    assert_eq!(find_longest_substring("a"), 1);
}

#[test]
fn count_str_match_should_work() {
    assert_eq!(count_str_match("no", "noo"), 0);
    assert_eq!(count_str_match("wawowu", "no"), 0);
    assert_eq!(count_str_match("wawowu", "wa"), 1);
    assert_eq!(count_str_match("wawawa", "wa"), 3);
}

#[test]
fn count_str_match_counts_overlaps_and_compares_first() {
    assert_eq!(count_str_match("aaaa", "aa"), 3);
    assert_eq!(count_str_match("abc", ""), 4);
    assert_eq!(count_str_match("abc", "abc"), 1);
    // "b" stands in "ab", but it comes after "ab" in the dictionary.
    assert_eq!(count_str_match("ab", "b"), 0);
    assert_eq!(is_after("b", "ab"), true);
    assert_eq!(is_after("ab", "b"), false);
    assert_eq!(is_after("ab", "a"), true);
    assert_eq!(is_after("a", "a"), false);
    assert_eq!(is_after("", "a"), false);
    assert_eq!(is_after("a", ""), true);
}
