//! Tests for list comparison operations.
use list_utils::operations::compare::{compare_lists, CompareOptions};

#[test]
fn compare_test_compare_basic() {
    let list1 = vec!["a".to_string(), "b".to_string(), "c".to_string()];
    let list2 = vec!["b".to_string(), "c".to_string(), "d".to_string()];
    let options = CompareOptions::default();
    let result = compare_lists(&list1, &list2, options);

    assert_eq!(result.only_in_first, vec!["a"]);
    assert_eq!(result.only_in_second, vec!["d"]);
    assert_eq!(result.intersection.len(), 2);
    assert!(result.intersection.contains(&"b".to_string()));
    assert!(result.intersection.contains(&"c".to_string()));
}

#[test]
fn compare_test_compare_case_insensitive() {
    let list1 = vec!["A".to_string(), "b".to_string()];
    let list2 = vec!["a".to_string(), "B".to_string()];
    let options = CompareOptions {
        case_sensitive: false,
        trim_spaces: false,
    };
    let result = compare_lists(&list1, &list2, options);

    assert_eq!(result.only_in_first.len(), 0);
    assert_eq!(result.only_in_second.len(), 0);
    assert_eq!(result.intersection.len(), 2);
}

#[test]
fn compare_test_compare_case_sensitive() {
    let list1 = vec!["A".to_string(), "b".to_string()];
    let list2 = vec!["a".to_string(), "B".to_string()];
    let options = CompareOptions {
        case_sensitive: true,
        trim_spaces: false,
    };
    let result = compare_lists(&list1, &list2, options);

    assert_eq!(result.only_in_first.len(), 2);
    assert_eq!(result.only_in_second.len(), 2);
    assert_eq!(result.intersection.len(), 0);
}

#[test]
fn compare_test_compare_trim_spaces() {
    let list1 = vec!["  a  ".to_string(), "b".to_string()];
    let list2 = vec!["a".to_string(), "  b  ".to_string()];
    let options = CompareOptions {
        case_sensitive: false,
        trim_spaces: true,
    };
    let result = compare_lists(&list1, &list2, options);

    assert_eq!(result.only_in_first.len(), 0);
    assert_eq!(result.only_in_second.len(), 0);
    assert_eq!(result.intersection.len(), 2);
}

#[test]
fn test_compare_numeric_sorting() {
    // Test that numeric results are sorted numerically, not alphabetically
    let list1 = vec![
        "10".to_string(),
        "9".to_string(),
        "11".to_string(),
        "4".to_string(),
    ];
    let list2 = vec!["5".to_string(), "9".to_string(), "12".to_string()];
    let options = CompareOptions::default();
    let result = compare_lists(&list1, &list2, options);

    // Only in List 1 should be sorted numerically: 4, 10, 11 (not 10, 11, 4)
    assert_eq!(result.only_in_first, vec!["4", "10", "11"]);

    // Only in List 2 should be sorted numerically: 5, 12
    assert_eq!(result.only_in_second, vec!["5", "12"]);

    // Intersection should be sorted numerically: 9
    assert_eq!(result.intersection, vec!["9"]);

    // Union should be sorted numerically: 4, 5, 9, 10, 11, 12
    assert_eq!(result.union, vec!["4", "5", "9", "10", "11", "12"]);
}

#[test]
fn test_compare_symmetry_of_one_sided_differences() {
    // compare(A, B).only_in_first equals compare(B, A).only_in_second
    let a = vec!["x".to_string(), "y".to_string(), "Y".to_string(), "z".to_string()];
    let b = vec!["y".to_string(), "w".to_string()];
    let options = CompareOptions::default();
    let ab = compare_lists(&a, &b, options);
    let ba = compare_lists(&b, &a, options);
    assert_eq!(ab.only_in_first, ba.only_in_second);
    assert_eq!(ab.only_in_second, ba.only_in_first);
}

#[test]
fn test_compare_totality_of_first_list() {
    // every item of the first list lands in only_in_first or intersection
    let a = vec!["p".to_string(), "q".to_string(), "q".to_string(), "r".to_string()];
    let b = vec!["q".to_string()];
    let options = CompareOptions::default();
    let result = compare_lists(&a, &b, options);
    let mut together = result.only_in_first.clone();
    together.extend(result.intersection.clone());
    together.sort();
    let mut expected = a.clone();
    expected.sort();
    assert_eq!(together, expected);
    // the union holds each distinct original exactly once
    assert_eq!(result.union, vec!["p", "q", "r"]);
}

#[test]
fn test_compare_empty_lists() {
    let a: Vec<String> = Vec::new();
    let b: Vec<String> = Vec::new();
    let result = compare_lists(&a, &b, CompareOptions::default());
    assert_eq!(result.only_in_first.len(), 0);
    assert_eq!(result.only_in_second.len(), 0);
    assert_eq!(result.intersection.len(), 0);
    assert_eq!(result.union.len(), 0);
}

#[test]
fn test_compare_union_keeps_case_variants() {
    // two originals that normalize equal but differ verbatim both appear
    let a = vec!["Hello".to_string()];
    let b = vec!["hello".to_string()];
    let result = compare_lists(&a, &b, CompareOptions::default());
    assert_eq!(result.intersection, vec!["Hello"]);
    assert_eq!(result.union.len(), 2);
    assert!(result.union.contains(&"Hello".to_string()));
    assert!(result.union.contains(&"hello".to_string()));
}

#[test]
fn test_normalize_item_trims_then_lowercases() {
    let options = CompareOptions::default();
    let normalized = list_utils::operations::compare::normalize_item(&"  MiXeD  ".to_string(), options);
    assert_eq!(normalized, "mixed");
}
