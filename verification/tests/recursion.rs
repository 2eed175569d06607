use algorithms::recursion::advanced_recursion::{is_palindrome, reverse, reverse_tail, some};
use algorithms::recursion::basic_recursion::{
    factorial, factorial_tail, power, power_tail, product_of_array, product_of_array_tail,
    recursive_range, recursive_range_tail,
};

#[test]
fn reverse_should_work() {
    assert_eq!(reverse("awesome"), "emosewa");
    assert_eq!(reverse("rithmschool"), "loohcsmhtir");
}

#[test]
fn reverse_tail_should_work() {
    // Non-empty string
    let input_str = "Hello, World!";
    let mut reversed_str = String::new();
    reverse_tail(input_str, &mut reversed_str);
    assert_eq!(reversed_str, "!dlroW ,olleH");

    // Empty string
    let input_str_empty = "";
    let mut reversed_str_empty = String::new();
    reverse_tail(input_str_empty, &mut reversed_str_empty);
    assert_eq!(reversed_str_empty, "");

    // String with a single character
    let input_str_single = "A";
    let mut reversed_str_single = String::new();
    reverse_tail(input_str_single, &mut reversed_str_single);
    assert_eq!(reversed_str_single, "A");
}

#[test]
fn reverse_tail_appends_and_hands_the_tail_back() {
    let mut tail = "ab".to_string();
    let handed_back = reverse_tail("xyz", &mut tail);
    assert_eq!(handed_back.as_str(), "abzyx");
    assert_eq!(tail, "abzyx");
    assert_eq!(reverse(""), "");
}

#[test]
fn is_palindrome_should_work() {
    assert_eq!(is_palindrome("awesome"), false);
    assert_eq!(is_palindrome("foobar"), false);
    assert_eq!(is_palindrome("tacocat"), true);
    assert_eq!(is_palindrome("amanaplanacanalpanama"), true);
    assert_eq!(is_palindrome("amanaplanacanalpandemonium"), false);
}

#[test]
fn is_palindrome_on_short_strings() {
    assert_eq!(is_palindrome(""), true);
    assert_eq!(is_palindrome("a"), true);
    assert_eq!(is_palindrome("aa"), true);
    assert_eq!(is_palindrome("ab"), false);
    assert_eq!(is_palindrome("abca"), false);
}

#[test]
fn some_should_work() {
    let is_odd = |t: &i32| (t % 2 == 0);
    assert_eq!(some(&[1, 3, 4], is_odd), true);
    assert_eq!(some(&[1, 3, 5], is_odd), false);
}

#[test]
fn some_of_nothing_is_false() {
    let empty: [i32; 0] = [];
    assert_eq!(some(&empty, |_t: &i32| true), false);
}

#[test]
fn power_should_work() {
    assert_eq!(power(2, 2), 4);
    assert_eq!(power(2, 4), 16);
}

#[test]
fn power_tail_should_work() {
    assert_eq!(power_tail(2, 2, 1), 4);
    assert_eq!(power_tail(2, 4, 1), 16);
}

#[test]
fn power_edge_cases() {
    assert_eq!(power(7, 0), 1);
    assert_eq!(power(0, 0), 1);
    assert_eq!(power(0, 3), 0);
    assert_eq!(power(2, 31), 2147483648);
    assert_eq!(power_tail(3, 3, 5), 135);
    assert_eq!(power_tail(0, 2, 9), 0);
}

#[test]
fn factorial_should_work() {
    assert_eq!(factorial(1), 1);
    assert_eq!(factorial(2), 2);
    assert_eq!(factorial(4), 24);
    assert_eq!(factorial(7), 5040);
}

#[test]
fn factorial_tail_should_work() {
    assert_eq!(factorial_tail(1, 1), 1);
    assert_eq!(factorial_tail(2, 1), 2);
    assert_eq!(factorial_tail(4, 1), 24);
    assert_eq!(factorial_tail(7, 1), 5040);
}

#[test]
fn factorial_of_the_largest_argument() {
    assert_eq!(factorial(12), 479001600);
    assert_eq!(factorial_tail(5, -2), -240);
}

#[test]
fn product_of_array_should_work() {
    assert_eq!(product_of_array(vec![1, 2, 3]), 6);
    assert_eq!(product_of_array(vec![1, 2, 3, 10]), 60);
}

#[test]
fn product_of_array_tail_should_work() {
    assert_eq!(product_of_array_tail(vec![1, 2, 3], 1), 6);
    assert_eq!(product_of_array_tail(vec![1, 2, 3, 10], 1), 60);
}

#[test]
fn product_of_nothing_is_one() {
    assert_eq!(product_of_array(vec![]), 1);
    assert_eq!(product_of_array_tail(vec![], 7), 7);
    assert_eq!(product_of_array_tail(vec![2, 5], 3), 30);
}

#[test]
fn recursive_range_should_work() {
    assert_eq!(recursive_range(6), 21);
    assert_eq!(recursive_range(10), 55);
}

#[test]
fn recursive_range_tail_should_work() {
    assert_eq!(recursive_range_tail(6, 0), 21);
    assert_eq!(recursive_range_tail(10, 0), 55);
}

#[test]
fn recursive_range_edge_cases() {
    assert_eq!(recursive_range(1), 1);
    assert_eq!(recursive_range_tail(0, 4), 4);
    assert_eq!(recursive_range_tail(3, -10), -4);
}
