//! Tests for the lax-JSON repair and flattening path.
use list_utils::json::{parse_json_to_list, repair_json};

#[test]
fn test_repair_quotes_all_keys() {
    let repaired = repair_json("{a:1, b_2: {c: [1,2]}}");
    assert_eq!(repaired, "{\"a\":1, \"b_2\": {\"c\": [1,2]}}");
}

#[test]
fn test_repair_key_at_start() {
    let repaired = repair_json("  key : 1");
    assert_eq!(repaired, "  \"key\": 1");
}

#[test]
fn test_repair_leaves_quoted_keys() {
    let input = "[{\"a\":1}]";
    assert_eq!(repair_json(input), input);
}

#[test]
fn test_json_blank_input() {
    let (items, repaired) = parse_json_to_list("   ", ',').unwrap();
    assert_eq!(items, Vec::<String>::new());
    assert_eq!(repaired, "");
}

#[test]
fn test_json_empty_array() {
    let (items, repaired) = parse_json_to_list("[]", ',').unwrap();
    assert_eq!(items, Vec::<String>::new());
    assert_eq!(repaired, "[]");
}

#[test]
fn test_json_primitives() {
    let (items, _) = parse_json_to_list("[\"x\", 1, true, null]", ',').unwrap();
    assert_eq!(items, vec!["x", "1", "true", "null"]);
}

#[test]
fn test_json_bare_object() {
    let (items, _) = parse_json_to_list("{a:1}", ';').unwrap();
    assert_eq!(items, vec!["a", "1"]);
}

#[test]
fn test_json_missing_keys_render_empty() {
    let (items, _) = parse_json_to_list("[{a:1},{b:2}]", ',').unwrap();
    assert_eq!(items, vec!["a,b", "1,", ",2"]);
}

#[test]
fn test_json_non_object_element_gives_empty_row() {
    // tabular mode emits one row per element; a non-object element has
    // every key missing
    let (items, _) = parse_json_to_list("[{a:1,b:2},7]", ',').unwrap();
    assert_eq!(items, vec!["a,b", "1,2", ","]);
}

#[test]
fn test_json_string_values_pass_through_unquoted() {
    let (items, _) = parse_json_to_list("[{a:\"x y\"}]", ',').unwrap();
    assert_eq!(items, vec!["a", "x y"]);
}

#[test]
fn test_json_error_without_repair() {
    let err = parse_json_to_list("[1,", ',').unwrap_err();
    assert!(!err.starts_with("JSON Error (after auto-repair):"));
    assert!(!err.is_empty());
}

#[test]
fn test_json_error_after_repair() {
    let err = parse_json_to_list("{a:}", ',').unwrap_err();
    assert!(err.starts_with("JSON Error (after auto-repair):"));
}

#[test]
fn test_json_unsupported_shape() {
    let err = parse_json_to_list("42", ',').unwrap_err();
    assert_eq!(err, "JSON input must be an array or a single object");
}
