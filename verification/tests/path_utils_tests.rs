//! Tests for the dot-notation text helpers and the string-path document
//! utilities.

use rjd::formatter::path_filter::{
    ensure_array_length, get_value_at_path, insert_value_at_path, parse_array_index,
    parse_first_segment,
};
use rjd::path::{join_array_path, join_path, last_segment, parent_path};
use rjd::value::JsonValue;

fn s(v: &str) -> JsonValue {
    JsonValue::Str(v.to_string())
}

fn n(v: i64) -> JsonValue {
    JsonValue::Num(v.to_string())
}

fn obj(members: Vec<(&str, JsonValue)>) -> JsonValue {
    JsonValue::Obj(members.into_iter().map(|(k, v)| (k.to_string(), v)).collect())
}

#[test]
fn test_join_path_root() {
    assert_eq!(join_path("", "name"), "name");
}

#[test]
fn test_join_path_nested() {
    assert_eq!(join_path("user", "name"), "user.name");
    assert_eq!(join_path("user.address", "city"), "user.address.city");
}

#[test]
fn test_join_array_path() {
    assert_eq!(join_array_path("", 0), "[0]");
    assert_eq!(join_array_path("users", 0), "users[0]");
    assert_eq!(join_array_path("users[0].friends", 1), "users[0].friends[1]");
}

#[test]
fn test_parent_path() {
    assert_eq!(parent_path("user.name"), "user");
    assert_eq!(parent_path("user.address.city"), "user.address");
    assert_eq!(parent_path("users[0]"), "users");
    assert_eq!(parent_path("users[0].name"), "users[0]");
    assert_eq!(parent_path("users[0].friends[1]"), "users[0].friends");
    assert_eq!(parent_path(""), "");
    assert_eq!(parent_path("single"), "");
}

#[test]
fn test_last_segment() {
    assert_eq!(last_segment("user.name"), "name");
    assert_eq!(last_segment("user.address.city"), "city");
    assert_eq!(last_segment("users[0]"), "[0]");
    assert_eq!(last_segment("users[0].name"), "name");
    assert_eq!(last_segment("users[0].friends[1]"), "[1]");
    assert_eq!(last_segment("single"), "single");
    assert_eq!(last_segment(""), "");
}

#[test]
fn test_parse_first_segment_simple() {
    let (segment, is_array, rest) = parse_first_segment("name");
    assert_eq!(segment, "name");
    assert!(!is_array);
    assert_eq!(rest, "");
}

#[test]
fn test_parse_first_segment_nested() {
    let (segment, is_array, rest) = parse_first_segment("user.name");
    assert_eq!(segment, "user");
    assert!(!is_array);
    assert_eq!(rest, "name");
}

#[test]
fn test_parse_first_segment_array() {
    let (segment, is_array, rest) = parse_first_segment("items[0].name");
    assert_eq!(segment, "items");
    assert!(!is_array);
    assert_eq!(rest, "name");
}

#[test]
fn path_filter_test_parse_array_index() {
    let (index, rest) = parse_array_index("[0]");
    assert_eq!(index, 0);
    assert_eq!(rest, "");

    let (index, rest) = parse_array_index("[1].name");
    assert_eq!(index, 1);
    assert_eq!(rest, "name");
}

#[test]
fn test_parse_first_segment_leading_index() {
    let (segment, is_array, rest) = parse_first_segment("[2].name");
    assert_eq!(segment, "2");
    assert!(is_array);
    assert_eq!(rest, "name");
}

#[test]
fn test_ensure_array_length() {
    let mut arr: Vec<JsonValue> = vec![];
    ensure_array_length(&mut arr, 3);
    assert_eq!(arr.len(), 4);
    assert_eq!(arr[0], JsonValue::Null);
    assert_eq!(arr[3], JsonValue::Null);
}

#[test]
fn test_get_value_simple_path() {
    let value = obj(vec![("name", s("Alice")), ("age", n(30))]);
    assert_eq!(get_value_at_path(&value, "name"), Some(s("Alice")));
    assert_eq!(get_value_at_path(&value, "age"), Some(n(30)));
}

#[test]
fn test_get_value_nested_path() {
    let value = obj(vec![(
        "user",
        obj(vec![("name", s("Bob")), ("email", s("bob@example.com"))]),
    )]);
    assert_eq!(get_value_at_path(&value, "user.name"), Some(s("Bob")));
    assert_eq!(get_value_at_path(&value, "user.email"), Some(s("bob@example.com")));
}

#[test]
fn test_get_value_array_path() {
    let value = obj(vec![(
        "items",
        JsonValue::Arr(vec![obj(vec![("name", s("item1"))]), obj(vec![("name", s("item2"))])]),
    )]);
    assert_eq!(get_value_at_path(&value, "items[0].name"), Some(s("item1")));
    assert_eq!(get_value_at_path(&value, "items[1].name"), Some(s("item2")));
}

#[test]
fn test_get_value_empty_path() {
    let value = obj(vec![("name", s("Alice"))]);
    assert_eq!(get_value_at_path(&value, ""), Some(value));
}

#[test]
fn test_get_value_invalid_path() {
    let value = obj(vec![("name", s("Alice"))]);
    assert_eq!(get_value_at_path(&value, "nonexistent"), None);
    assert_eq!(get_value_at_path(&value, "user.nonexistent"), None);
}

#[test]
fn test_insert_value_simple() {
    let mut target: Vec<(String, JsonValue)> = Vec::new();
    let source = obj(vec![("name", s("Alice"))]);
    insert_value_at_path(&mut target, "name", &source, "name");
    assert_eq!(target.len(), 1);
    assert_eq!(target[0].0, "name");
    assert_eq!(target[0].1, s("Alice"));
}

#[test]
fn test_insert_value_nested() {
    let mut target: Vec<(String, JsonValue)> = Vec::new();
    let source = obj(vec![("user", obj(vec![("name", s("Bob"))]))]);
    insert_value_at_path(&mut target, "user.name", &source, "user.name");
    assert_eq!(target.len(), 1);
    assert_eq!(target[0].0, "user");
    assert_eq!(
        get_value_at_path(&target[0].1, "name"),
        Some(s("Bob"))
    );
}

#[test]
fn test_join_array_path_multi_digit() {
    assert_eq!(join_array_path("x", 42), "x[42]");
    assert_eq!(join_array_path("", 1207), "[1207]");
}
