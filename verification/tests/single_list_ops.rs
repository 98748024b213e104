//! Tests for single list operations.
use list_utils::operations::single_list::{
    count_items, process_single_list, remove_duplicates, sort_ascending, sort_descending,
    trim_spaces,
};

#[test]
fn single_list_test_trim_spaces() {
    let items = vec![
        "  item1  ".to_string(),
        "item2".to_string(),
        "  item3  ".to_string(),
    ];
    let result = trim_spaces(&items);
    assert_eq!(result, vec!["item1", "item2", "item3"]);
}

#[test]
fn single_list_test_remove_duplicates() {
    let items = vec![
        "a".to_string(),
        "b".to_string(),
        "a".to_string(),
        "c".to_string(),
    ];
    let result = remove_duplicates(&items);
    assert_eq!(result, vec!["a", "b", "c"]);
}

#[test]
fn test_sort_ascending_alphabetic() {
    let items = vec!["c".to_string(), "a".to_string(), "b".to_string()];
    let result = sort_ascending(&items);
    assert_eq!(result, vec!["a", "b", "c"]);
}

#[test]
fn single_list_test_sort_ascending_numeric() {
    // Should sort as numbers: 4, 9, 10, 11 (not alphabetically: 10, 11, 4, 9)
    let items = vec![
        "10".to_string(),
        "9".to_string(),
        "11".to_string(),
        "4".to_string(),
    ];
    let result = sort_ascending(&items);
    assert_eq!(result, vec!["4", "9", "10", "11"]);
}

#[test]
fn test_sort_descending_alphabetic() {
    let items = vec!["a".to_string(), "c".to_string(), "b".to_string()];
    let result = sort_descending(&items);
    assert_eq!(result, vec!["c", "b", "a"]);
}

#[test]
fn single_list_test_sort_descending_numeric() {
    let items = vec![
        "10".to_string(),
        "9".to_string(),
        "11".to_string(),
        "4".to_string(),
    ];
    let result = sort_descending(&items);
    assert_eq!(result, vec!["11", "10", "9", "4"]);
}

#[test]
fn test_sort_mixed_falls_back_to_alphabetic() {
    // Mixed numbers and text should sort alphabetically
    let items = vec!["10".to_string(), "abc".to_string(), "2".to_string()];
    let result = sort_ascending(&items);
    assert_eq!(result, vec!["10", "2", "abc"]);
}

#[test]
fn single_list_test_count_items() {
    let items = vec!["a".to_string(), "b".to_string(), "a".to_string()];
    let (total, unique) = count_items(&items);
    assert_eq!(total, 3);
    assert_eq!(unique, 2);
}

#[test]
fn test_sort_decimals_and_signs() {
    let items = vec![
        "1.5".to_string(),
        ".5".to_string(),
        "-2".to_string(),
        "+3".to_string(),
        "2.".to_string(),
        " 007 ".to_string(),
    ];
    let result = sort_ascending(&items);
    assert_eq!(result, vec!["-2", ".5", "1.5", "2.", "+3", " 007 "]);
    let reversed = sort_descending(&items);
    assert_eq!(reversed, vec![" 007 ", "+3", "2.", "1.5", ".5", "-2"]);
}

#[test]
fn test_sort_scientific_notation() {
    // every float token counts as numeric, so this sorts by value
    let items = vec!["1e10".to_string(), "5".to_string()];
    let result = sort_ascending(&items);
    assert_eq!(result, vec!["5", "1e10"]);
}

#[test]
fn test_sort_exponent_values() {
    // 1e-2 = 0.01, 0.5, 2E1 = 20
    let items = vec!["0.5".to_string(), "1e-2".to_string(), "2E1".to_string()];
    let result = sort_ascending(&items);
    assert_eq!(result, vec!["1e-2", "0.5", "2E1"]);
}

#[test]
fn test_sort_infinities_and_nan() {
    // infinities bound the finite values; a not-a-number token takes
    // the fallback key zero
    let items = vec![
        "1e2".to_string(),
        "50".to_string(),
        "0.3e3".to_string(),
        "inf".to_string(),
        "-Infinity".to_string(),
        "nan".to_string(),
    ];
    let result = sort_ascending(&items);
    assert_eq!(result, vec!["-Infinity", "nan", "50", "1e2", "0.3e3", "inf"]);
    let items2 = vec!["2".to_string(), "NaN".to_string(), "-1".to_string()];
    assert_eq!(sort_ascending(&items2), vec!["-1", "NaN", "2"]);
}

#[test]
fn test_sort_malformed_exponent_falls_back() {
    // "1e" is not a float token, so the list sorts lexicographically
    let items = vec!["5".to_string(), "1e".to_string()];
    let result = sort_ascending(&items);
    assert_eq!(result, vec!["1e", "5"]);
}

#[test]
fn test_sort_negative_zero_equals_zero() {
    let items = vec!["-0".to_string(), "0".to_string(), "-1".to_string()];
    let result = sort_ascending(&items);
    assert_eq!(result[0], "-1");
    assert_eq!(result.len(), 3);
}

#[test]
fn test_pipeline_idempotent() {
    // running the pipeline twice with the same flags yields the output
    // of the first run
    let items = vec![
        "  b ".to_string(),
        "a".to_string(),
        "b".to_string(),
        " a".to_string(),
        "10".to_string(),
    ];
    let once = process_single_list(&items, true, true, true, false);
    let twice = process_single_list(&once.items, true, true, true, false);
    assert_eq!(once.items, twice.items);
    assert_eq!(once.total_count, twice.total_count);
    assert_eq!(once.unique_count, twice.unique_count);

    let once_desc = process_single_list(&items, true, false, false, true);
    let twice_desc = process_single_list(&once_desc.items, true, false, false, true);
    assert_eq!(once_desc.items, twice_desc.items);
}

#[test]
fn test_process_no_flags_keeps_order() {
    let items = vec!["b".to_string(), "a".to_string(), "b".to_string()];
    let result = process_single_list(&items, false, false, false, false);
    assert_eq!(result.items, vec!["b", "a", "b"]);
    assert_eq!(result.total_count, 3);
    assert_eq!(result.unique_count, 2);
}

#[test]
fn test_all_numeric_accepts_float_tokens() {
    let items = vec![
        "1e10".to_string(),
        " 007 ".to_string(),
        "-0".to_string(),
        "NaN".to_string(),
        "inf".to_string(),
        "Infinity".to_string(),
    ];
    assert!(list_utils::sorting::all_numeric(&items));
    assert!(!list_utils::sorting::all_numeric(&Vec::new()));
    let bad = vec!["1e".to_string()];
    assert!(!list_utils::sorting::all_numeric(&bad));
}
