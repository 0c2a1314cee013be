use kirinnya_math_utility::math_utils;
use kirinnya_math_utility::math_utils::{get_divisor_list, SortOrderType};

#[test]
fn get_divisor_list_happy_path() {
    assert_eq!(math_utils::get_divisor_list(100, math_utils::SortOrderType::ASCENDING), vec![1, 2, 4, 5, 10, 20, 25, 50, 100]);
    assert_eq!(math_utils::get_divisor_list(100, math_utils::SortOrderType::DESCENDING), vec![100, 50, 25, 20, 10, 5, 4, 2, 1]);
    assert_eq!(math_utils::get_divisor_list(100, math_utils::SortOrderType::UNSORTED), vec![1, 100, 2, 50, 4, 25, 5, 20, 10]);
}

#[test]
fn get_divisor_list_zero_value() {
    assert_eq!(math_utils::get_divisor_list(0, math_utils::SortOrderType::ASCENDING), vec![]);
}

#[test]
fn get_divisor_list_negative_value() {
    assert_eq!(math_utils::get_divisor_list(-1, math_utils::SortOrderType::ASCENDING), vec![]);
}

#[test]
fn one_has_a_single_divisor() {
    assert_eq!(get_divisor_list(1, SortOrderType::ASCENDING), vec![1]);
    assert_eq!(get_divisor_list(1, SortOrderType::DESCENDING), vec![1]);
    assert_eq!(get_divisor_list(1, SortOrderType::UNSORTED), vec![1]);
}

#[test]
fn nonpositive_inputs_give_nothing_in_every_order() {
    for n in [0i128, -1, -36, i128::MIN] {
        assert!(get_divisor_list(n, SortOrderType::ASCENDING).is_empty());
        assert!(get_divisor_list(n, SortOrderType::DESCENDING).is_empty());
        assert!(get_divisor_list(n, SortOrderType::UNSORTED).is_empty());
    }
}

#[test]
fn perfect_square_root_appears_once() {
    assert_eq!(get_divisor_list(36, SortOrderType::UNSORTED), vec![1, 36, 2, 18, 3, 12, 4, 9, 6]);
    assert_eq!(get_divisor_list(36, SortOrderType::ASCENDING), vec![1, 2, 3, 4, 6, 9, 12, 18, 36]);
}

#[test]
fn prime_has_two_divisors() {
    assert_eq!(get_divisor_list(97, SortOrderType::UNSORTED), vec![1, 97]);
    assert_eq!(get_divisor_list(97, SortOrderType::DESCENDING), vec![97, 1]);
}

#[test]
fn every_element_divides_and_every_divisor_is_listed() {
    for n in 1i128..=200 {
        let found = get_divisor_list(n, SortOrderType::UNSORTED);
        for d in &found {
            assert_eq!(n % d, 0);
        }
        let expected: Vec<i128> = (1..=n).filter(|d| n % d == 0).collect();
        assert_eq!(get_divisor_list(n, SortOrderType::ASCENDING), expected);
        let mut sorted = found.clone();
        sorted.sort();
        sorted.dedup();
        assert_eq!(sorted.len(), found.len());
    }
}

#[test]
fn orders_are_sorted_permutations_of_discovery_order() {
    for n in [12i128, 60, 64, 720720] {
        let up = get_divisor_list(n, SortOrderType::ASCENDING);
        let down = get_divisor_list(n, SortOrderType::DESCENDING);
        let mut found = get_divisor_list(n, SortOrderType::UNSORTED);
        assert!(up.windows(2).all(|w| w[0] < w[1]));
        assert!(down.windows(2).all(|w| w[0] > w[1]));
        let mut reversed = down.clone();
        reversed.reverse();
        assert_eq!(reversed, up);
        found.sort();
        assert_eq!(found, up);
    }
}

#[test]
fn large_power_of_two() {
    let big: i128 = 1 << 40;
    let found = get_divisor_list(big, SortOrderType::ASCENDING);
    assert_eq!(found.len(), 41);
    assert_eq!(found.first(), Some(&1));
    assert_eq!(found.last(), Some(&big));
}
