use algorithms::daily_challenges::can_frequencies_be_equal::can_frequencies_be_equal;
use algorithms::daily_challenges::is_graph_a_tree::is_graph_a_tree;
use algorithms::problem_solving_patterns::frequency_counter::{group_by, same_frequency};
use algorithms::problem_solving_patterns::sliding_window::min_sub_array_len;

#[derive(Debug)]
struct Item {
    item_type: String,
    serial: u32,
}

fn item(item_type: &str, serial: u32) -> Item {
    Item { item_type: item_type.to_string(), serial }
}

#[test]
fn test_can_frequencies_be_equal() {
    assert_eq!(can_frequencies_be_equal("xyyz"), true);
    assert_eq!(can_frequencies_be_equal("xxxxyyzz"), false);
}

#[test]
fn frequencies_that_are_equal_already_are_refused() {
    assert_eq!(can_frequencies_be_equal(""), false);
    assert_eq!(can_frequencies_be_equal("x"), false);
    assert_eq!(can_frequencies_be_equal("xyz"), false);
    assert_eq!(can_frequencies_be_equal("xxyy"), false);
}

#[test]
fn one_character_once_too_often_is_found_wherever_it_stands() {
    assert_eq!(can_frequencies_be_equal("xxy"), true);
    assert_eq!(can_frequencies_be_equal("yxx"), true);
    assert_eq!(can_frequencies_be_equal("aabbccc"), true);
    assert_eq!(can_frequencies_be_equal("cacbcab"), true);
    // Two characters occur once too often.
    assert_eq!(can_frequencies_be_equal("aabbbccc"), false);
    // The odd one out occurs twice too often.
    assert_eq!(can_frequencies_be_equal("xxxy"), false);
    // Taking away the only `z` would do, but it is not the one that
    // occurs most often.
    assert_eq!(can_frequencies_be_equal("xxyyz"), false);
}

#[test]
fn should_detect_valid_trees() {
    let graph_size = 4;
    let edges = vec![(0, 1), (1, 2), (1, 3)];

    assert_eq!(is_graph_a_tree(&graph_size, &edges), Ok(true));
}

#[test]
fn should_detect_invalid_graph() {
    let graph_size = 2;
    let edges = vec![(0, 1), (1, 2)];

    assert_eq!(
        is_graph_a_tree(&graph_size, &edges),
        Err("Edge refer to an invalid vertex".to_string())
    );
}

#[test]
fn should_detect_empty_graph() {
    let graph_size = 0;
    let edges = vec![];

    assert_eq!(is_graph_a_tree(&graph_size, &edges), Ok(false));
}

#[test]
fn should_detect_graph_with_isolated_part() {
    let graph_size = 3;
    let edges = vec![(0, 1)];

    assert_eq!(is_graph_a_tree(&graph_size, &edges), Ok(false));
}

#[test]
fn should_detect_graph_with_self_loop() {
    let graph_size = 2;
    let edges = vec![(0, 1), (1, 1)];

    assert_eq!(is_graph_a_tree(&graph_size, &edges), Ok(false));
}

#[test]
fn should_detect_graph_with_loop() {
    let graph_size = 4;
    let edges = vec![(0, 1), (1, 2), (2, 3), (1, 3)];

    assert_eq!(is_graph_a_tree(&graph_size, &edges), Ok(false));
}

#[test]
fn a_single_vertex_is_a_tree() {
    assert_eq!(is_graph_a_tree(&1, &vec![]), Ok(true));
    assert_eq!(is_graph_a_tree(&1, &vec![(0, 0)]), Ok(false));
}

#[test]
fn an_edge_given_twice_counts_once() {
    assert_eq!(is_graph_a_tree(&2, &vec![(0, 1), (0, 1)]), Ok(true));
    assert_eq!(is_graph_a_tree(&2, &vec![(0, 1), (1, 0)]), Ok(true));
    assert_eq!(is_graph_a_tree(&3, &vec![(2, 1), (1, 2), (0, 2), (2, 0)]), Ok(true));
}

#[test]
fn the_direction_and_order_of_the_edges_play_no_part() {
    assert_eq!(is_graph_a_tree(&5, &vec![(4, 3), (3, 0), (2, 0), (1, 2)]), Ok(true));
    assert_eq!(is_graph_a_tree(&5, &vec![(1, 2), (2, 0), (3, 0), (4, 3)]), Ok(true));
    // A loop away from the root, and a vertex that stands alone.
    assert_eq!(is_graph_a_tree(&5, &vec![(1, 2), (2, 3), (3, 1), (0, 1)]), Ok(false));
    // A loop through the root.
    assert_eq!(is_graph_a_tree(&3, &vec![(0, 1), (1, 2), (2, 0)]), Ok(false));
}

#[test]
fn an_empty_graph_is_no_tree_whatever_its_edges() {
    assert_eq!(is_graph_a_tree(&0, &vec![(0, 1)]), Ok(false));
}

#[test]
fn an_invalid_edge_is_an_error_even_beside_a_loop() {
    assert_eq!(
        is_graph_a_tree(&2, &vec![(0, 0), (5, 1)]),
        Err("Edge refer to an invalid vertex".to_string())
    );
    assert_eq!(
        is_graph_a_tree(&2, &vec![(2, 0)]),
        Err("Edge refer to an invalid vertex".to_string())
    );
}

#[test]
fn group_by_should_work() {
    let items = vec![
        item("Type 1", 0),
        item("Type 2", 1),
        item("Type 3", 2),
        item("Type 1", 3),
    ];

    let result = group_by(items, |item| item.item_type.clone());

    println!("{:?}", result);

    assert!(
        result.get("Type 1").unwrap().len() == 2
            && result.get("Type 2").unwrap().len() == 1
            && result.get("Type 3").unwrap().len() == 1
    );
}

#[test]
fn groups_keep_the_order_of_the_items() {
    let items = vec![
        item("b", 0),
        item("a", 1),
        item("b", 2),
        item("b", 3),
        item("a", 4),
    ];

    let result = group_by(items, |item| item.item_type.clone());

    assert_eq!(result.len(), 2);
    let serials = |key: &str| -> Vec<u32> {
        result.get(key).unwrap().iter().map(|item| item.serial).collect()
    };
    assert_eq!(serials("a"), vec![1, 4]);
    assert_eq!(serials("b"), vec![0, 2, 3]);

    let nothing: Vec<Item> = Vec::new();
    assert!(group_by(nothing, |item| item.serial).is_empty());
}

#[test]
fn same_frequency_should_work() {
    assert_eq!(same_frequency(182, 281), true);
    assert_eq!(same_frequency(3589578, 5879385), true);
    assert_eq!(same_frequency(34, 14), false);
    assert_eq!(same_frequency(22, 222), false);
}

#[test]
fn same_frequency_asks_only_that_the_second_number_is_covered() {
    assert_eq!(same_frequency(222, 22), true);
    assert_eq!(same_frequency(1230, 0), true);
    assert_eq!(same_frequency(0, 0), true);
    assert_eq!(same_frequency(0, 10), false);
}

#[test]
fn same_frequency_counts_the_sign_as_a_character() {
    assert_eq!(same_frequency(-12, -21), true);
    assert_eq!(same_frequency(-12, 21), true);
    assert_eq!(same_frequency(12, -21), false);
    assert_eq!(same_frequency(i32::MIN, i32::MIN), true);
    assert_eq!(same_frequency(i32::MIN, -2147483648), true);
    assert_eq!(same_frequency(i32::MIN, i32::MAX), false);
    assert_eq!(same_frequency(i32::MAX, 2147483647), true);
}

#[test]
fn min_sub_array_len_should_work() {
    assert_eq!(min_sub_array_len(&vec![2, 3, 1, 2, 4, 3], 7), Some(2));
    assert_eq!(min_sub_array_len(&vec![2, 1, 6, 5, 4], 9), Some(2));
    assert_eq!(
        min_sub_array_len(&vec![3, 1, 7, 11, 2, 9, 8, 21, 62, 33, 19], 52),
        Some(1)
    );
    assert_eq!(
        min_sub_array_len(&vec![1, 4, 16, 22, 5, 7, 8, 9, 10], 39),
        Some(3)
    );
    assert_eq!(
        min_sub_array_len(&vec![1, 4, 16, 22, 5, 7, 8, 9, 10], 55),
        Some(5)
    );
    assert_eq!(min_sub_array_len(&vec![4, 3, 3, 8, 1, 2, 3], 11), Some(2));
    assert_eq!(
        min_sub_array_len(&vec![1, 4, 16, 22, 5, 7, 8, 9, 10], 95),
        None
    );
}

#[test]
fn the_shortest_stretch_may_be_the_last_element_or_the_whole_vector() {
    assert_eq!(min_sub_array_len(&vec![1, 1, 9], 9), Some(1));
    assert_eq!(min_sub_array_len(&vec![9], 9), Some(1));
    assert_eq!(min_sub_array_len(&vec![8], 9), None);
    assert_eq!(min_sub_array_len(&vec![3, 3, 3], 9), Some(3));
    assert_eq!(min_sub_array_len(&vec![u32::MAX, u32::MAX, 1], u32::MAX), Some(1));
    assert_eq!(min_sub_array_len(&vec![u32::MAX - 1, 1, 1], u32::MAX), Some(2));
}
