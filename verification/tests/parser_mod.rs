//! Tests for the parser module and the JSON path.
use list_utils::parser::{parse_list, parse_json_to_list, Delimiter};

#[test]
fn mod_test_parse_newline() {
    let input = "item1\nitem2\nitem3";
    let result = parse_list(input, Delimiter::Newline);
    assert_eq!(result, vec!["item1", "item2", "item3"]);
}

#[test]
fn mod_test_parse_comma() {
    let input = "item1,item2,item3";
    let result = parse_list(input, Delimiter::Comma);
    assert_eq!(result, vec!["item1", "item2", "item3"]);
}

#[test]
fn mod_test_parse_tab() {
    let input = "item1\titem2\titem3";
    let result = parse_list(input, Delimiter::Tab);
    assert_eq!(result, vec!["item1", "item2", "item3"]);
}

#[test]
fn mod_test_parse_semicolon() {
    let input = "item1;item2;item3";
    let result = parse_list(input, Delimiter::Semicolon);
    assert_eq!(result, vec!["item1", "item2", "item3"]);
}

#[test]
fn mod_test_parse_empty() {
    let result = parse_list("", Delimiter::Newline);
    assert_eq!(result, Vec::<String>::new());
}

#[test]
fn test_delimiter_cycle() {
    let d = Delimiter::Newline;
    assert_eq!(d.next(), Delimiter::Tab);
    assert_eq!(d.next().next(), Delimiter::Comma);
    assert_eq!(d.next().next().next(), Delimiter::Semicolon);
    assert_eq!(d.next().next().next().next(), Delimiter::Json);
    assert_eq!(d.next().next().next().next().next(), Delimiter::Newline);
}

#[test]
fn test_parse_trailing_delimiter() {
    // Input ending with newline should not create empty last element
    let input = "item1\nitem2\nitem3\n";
    let result = parse_list(input, Delimiter::Newline);
    assert_eq!(result, vec!["item1", "item2", "item3"]);
}

#[test]
fn test_parse_trailing_comma() {
    let input = "a,b,c,";
    let result = parse_list(input, Delimiter::Comma);
    assert_eq!(result, vec!["a", "b", "c"]);
}

#[test]
fn test_parse_crlf_normalization() {
    let input = "item1\r\nitem2\r\nitem3\r\n";
    let result = parse_list(input, Delimiter::Newline);
    assert_eq!(result, vec!["item1", "item2", "item3"]);
}

#[test]
fn test_json_to_csv() {
    let input = "[{\"a\":1,\"b\":2},{\"a\":3,\"b\":5}]";
    let (result, _) = parse_json_to_list(input, ',').unwrap();
    assert_eq!(result, vec!["a,b", "1,2", "3,5"]);
}

#[test]
fn test_lax_json() {
    // Unquoted keys should be auto-repaired and valid
    let input = "[{a:1,b:2}]";
    let (result, repaired) = parse_json_to_list(input, ',').unwrap();
    assert_eq!(result, vec!["a,b", "1,2"]);
    assert!(repaired.contains("\"a\""));
}

#[test]
fn test_parse_lone_cr_normalization() {
    let input = "item1\ritem2";
    let result = parse_list(input, Delimiter::Newline);
    assert_eq!(result, vec!["item1", "item2"]);
}

#[test]
fn test_parse_interior_empty_items_kept() {
    let input = "a,,b,";
    let result = parse_list(input, Delimiter::Comma);
    assert_eq!(result, vec!["a", "", "b"]);
}

#[test]
fn test_parse_join_round_trip() {
    // joining items with the delimiter and parsing reproduces them
    let items = vec!["one".to_string(), "two".to_string(), "three".to_string()];
    let joined = items.join(";");
    assert_eq!(parse_list(&joined, Delimiter::Semicolon), items);
    let mut trailing = joined.clone();
    trailing.push(';');
    assert_eq!(parse_list(&trailing, Delimiter::Semicolon), items);
}

#[test]
fn test_delimiter_labels_and_chars() {
    assert_eq!(Delimiter::Newline.as_char(), '\n');
    assert_eq!(Delimiter::Tab.as_char(), '\t');
    assert_eq!(Delimiter::Comma.as_char(), ',');
    assert_eq!(Delimiter::Semicolon.as_char(), ';');
    assert_eq!(Delimiter::Newline.display_name(), "\\n");
    assert_eq!(Delimiter::Tab.display_name(), "\\t");
    assert_eq!(Delimiter::Comma.display_name(), ",");
    assert_eq!(Delimiter::Semicolon.display_name(), ";");
    assert_eq!(Delimiter::Json.display_name(), "JSON");
}

#[test]
fn test_normalize_line_endings_direct() {
    let out = list_utils::parser::normalize_line_endings("a\r\nb\rc\nd");
    assert_eq!(out, "a\nb\nc\nd");
}

#[test]
fn test_join_lines_with_delimiter_direct() {
    let lines = vec!["a".to_string(), "b".to_string(), "c".to_string()];
    let joined = list_utils::parser::join_lines_with_delimiter(&lines, Delimiter::Comma);
    assert_eq!(joined, "a,b,c");
}
