use manga_core::pattern::is_match;
use manga_core::sort_key::{parse_sort_key, sort_key_of_label, SORT_KEY_SCALE};

const HALF: u128 = SORT_KEY_SCALE / 2;

#[test]
fn label_with_decimal_number() {
    assert_eq!(
        sort_key_of_label("Chapter 12.5 - Showdown"),
        Some(12 * SORT_KEY_SCALE + HALF)
    );
}

#[test]
fn label_without_digits_has_no_key() {
    assert_eq!(sort_key_of_label("Prologue"), None);
    assert_eq!(sort_key_of_label(""), None);
}

#[test]
fn label_in_japanese() {
    assert_eq!(sort_key_of_label("第12話"), Some(12 * SORT_KEY_SCALE));
}

#[test]
fn first_run_wins() {
    assert_eq!(sort_key_of_label("Vol 3 Chapter 7"), Some(3 * SORT_KEY_SCALE));
}

#[test]
fn run_forms() {
    assert_eq!(parse_sort_key("12"), Some(12 * SORT_KEY_SCALE));
    assert_eq!(parse_sort_key("12.5"), Some(12 * SORT_KEY_SCALE + HALF));
    assert_eq!(parse_sort_key(".5"), Some(HALF));
    assert_eq!(parse_sort_key("5."), Some(5 * SORT_KEY_SCALE));
    assert_eq!(parse_sort_key("007"), Some(7 * SORT_KEY_SCALE));
    assert_eq!(parse_sort_key("0.000000000000000001"), Some(1));
    assert_eq!(parse_sort_key("0.0000000000000000019"), Some(1));
}

#[test]
fn runs_that_are_not_numbers() {
    assert_eq!(parse_sort_key("."), None);
    assert_eq!(parse_sort_key(""), None);
    assert_eq!(parse_sort_key("1.2.3"), None);
    assert_eq!(parse_sort_key(".."), None);
    assert_eq!(parse_sort_key("１２"), None);
}

#[test]
fn whole_part_limit() {
    assert_eq!(
        parse_sort_key("99999999999999999999"),
        Some(99999999999999999999u128 * SORT_KEY_SCALE)
    );
    assert_eq!(parse_sort_key("100000000000000000000"), None);
    assert_eq!(sort_key_of_label("Chapter 100000000000000000000"), None);
}

#[test]
fn label_with_dots_only_run() {
    assert_eq!(sort_key_of_label("Ch. 4"), None);
    assert_eq!(sort_key_of_label("Episode 4..."), None);
}

#[test]
fn pattern_matching() {
    assert!(is_match("^a+$", "aaa"));
    assert!(!is_match("^a+$", "aab"));
    assert!(!is_match("(", "("));
}
