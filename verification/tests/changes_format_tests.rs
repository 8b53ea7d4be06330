//! Tests for the change-list formatter and the key-sorting pass.

use rjd::formatter::changes::ChangesFormatter;
use rjd::formatter::util::sort_json_value;
use rjd::formatter::Formatter;
use rjd::json_path::JsonPath;
use rjd::types::{Change, Changes};
use rjd::value::JsonValue;

fn s(v: &str) -> JsonValue {
    JsonValue::Str(v.to_string())
}

fn n(v: i64) -> JsonValue {
    JsonValue::Num(v.to_string())
}

fn p(text: &str) -> JsonPath {
    JsonPath::parse_str(text).unwrap()
}

#[test]
fn changes_test_format_empty_changes() {
    let formatter = ChangesFormatter::new(false);
    let changes = Changes::new();

    let result = formatter.format(&changes).unwrap();
    let parsed: serde_json::Value = serde_json::from_str(&result).unwrap();

    assert!(parsed["added"].is_array());
    assert!(parsed["removed"].is_array());
    assert!(parsed["modified"].is_array());
    assert_eq!(parsed["added"].as_array().unwrap().len(), 0);
    assert_eq!(parsed["removed"].as_array().unwrap().len(), 0);
    assert_eq!(parsed["modified"].as_array().unwrap().len(), 0);
}

#[test]
fn test_format_with_changes() {
    let formatter = ChangesFormatter::new(false);
    let mut changes = Changes::new();

    changes.push(Change::Added { path: p("users[0].name"), value: s("Alice") });
    changes.push(Change::Removed { path: p("users[0].phone"), value: s("555-1234") });
    changes.push(Change::Modified {
        path: p("users[0].age"),
        old_value: n(25),
        new_value: n(26),
    });

    let result = formatter.format(&changes).unwrap();
    let parsed: serde_json::Value = serde_json::from_str(&result).unwrap();

    assert_eq!(parsed["added"].as_array().unwrap().len(), 1);
    assert_eq!(parsed["removed"].as_array().unwrap().len(), 1);
    assert_eq!(parsed["modified"].as_array().unwrap().len(), 1);

    assert_eq!(parsed["added"][0]["path"], "users[0].name");
    assert_eq!(parsed["added"][0]["value"], "Alice");

    assert_eq!(parsed["removed"][0]["path"], "users[0].phone");
    assert_eq!(parsed["removed"][0]["value"], "555-1234");

    assert_eq!(parsed["modified"][0]["path"], "users[0].age");
    assert_eq!(parsed["modified"][0]["oldValue"], 25);
    assert_eq!(parsed["modified"][0]["newValue"], 26);
}

#[test]
fn changes_test_format_with_sort() {
    let formatter = ChangesFormatter::new(true);
    let mut changes = Changes::new();

    changes.push(Change::Added { path: p("z"), value: s("last") });
    changes.push(Change::Added { path: p("a"), value: s("first") });

    let result = formatter.format(&changes).unwrap();

    let parsed: serde_json::Value = serde_json::from_str(&result).unwrap();
    let obj = parsed.as_object().unwrap();

    let keys: Vec<&str> = obj.keys().map(|k| k.as_str()).collect();
    assert_eq!(keys, vec!["added", "modified", "removed"]);
}

#[test]
fn changes_test_format_with_sort_nested() {
    let formatter = ChangesFormatter::new(true);
    let mut changes = Changes::new();

    let nested = JsonValue::Obj(vec![
        ("z_key".to_string(), s("z_value")),
        ("a_key".to_string(), s("a_value")),
    ]);

    changes.push(Change::Added { path: p("obj"), value: nested });

    let result = formatter.format(&changes).unwrap();
    let parsed: serde_json::Value = serde_json::from_str(&result).unwrap();

    let obj = parsed.as_object().unwrap();
    let added = obj["added"].as_array().unwrap();
    let nested_obj = added[0]["value"].as_object().unwrap();
    let nested_keys: Vec<&str> = nested_obj.keys().map(|k| k.as_str()).collect();
    assert_eq!(nested_keys, vec!["a_key", "z_key"]);
}

#[test]
fn test_sort_simple_object() {
    let value = JsonValue::Obj(vec![
        ("z".to_string(), s("last")),
        ("a".to_string(), s("first")),
        ("m".to_string(), s("middle")),
    ]);
    let sorted = sort_json_value(&value);
    match sorted {
        JsonValue::Obj(members) => {
            let keys: Vec<&str> = members.iter().map(|(k, _)| k.as_str()).collect();
            assert_eq!(keys, vec!["a", "m", "z"]);
        }
        _ => panic!("Expected an object"),
    }
}

#[test]
fn test_sort_nested_object() {
    let inner = JsonValue::Obj(vec![
        ("z_inner".to_string(), s("z")),
        ("a_inner".to_string(), s("a")),
    ]);
    let value = JsonValue::Obj(vec![
        ("z_outer".to_string(), s("z")),
        ("inner".to_string(), inner),
        ("a_outer".to_string(), s("a")),
    ]);
    let sorted = sort_json_value(&value);
    match sorted {
        JsonValue::Obj(members) => {
            let keys: Vec<&str> = members.iter().map(|(k, _)| k.as_str()).collect();
            assert_eq!(keys, vec!["a_outer", "inner", "z_outer"]);
            match &members[1].1 {
                JsonValue::Obj(inner_members) => {
                    let inner_keys: Vec<&str> =
                        inner_members.iter().map(|(k, _)| k.as_str()).collect();
                    assert_eq!(inner_keys, vec!["a_inner", "z_inner"]);
                }
                _ => panic!("Expected a nested object"),
            }
        }
        _ => panic!("Expected an object"),
    }
}

#[test]
fn test_sort_array_preserves_order() {
    let value = JsonValue::Arr(vec![s("z"), s("a"), s("m")]);
    let sorted = sort_json_value(&value);
    match sorted {
        JsonValue::Arr(items) => {
            assert_eq!(items.len(), 3);
            assert_eq!(items[0], s("z"));
            assert_eq!(items[1], s("a"));
            assert_eq!(items[2], s("m"));
        }
        _ => panic!("Expected an array"),
    }
}

#[test]
fn test_sort_array_with_objects() {
    let obj1 = JsonValue::Obj(vec![("z".to_string(), s("first"))]);
    let obj2 = JsonValue::Obj(vec![("a".to_string(), s("second"))]);
    let value = JsonValue::Arr(vec![obj1, obj2]);
    let sorted = sort_json_value(&value);
    match sorted {
        JsonValue::Arr(items) => {
            match &items[0] {
                JsonValue::Obj(m) => assert_eq!(m[0].0, "z"),
                _ => panic!("Expected an object"),
            }
            match &items[1] {
                JsonValue::Obj(m) => assert_eq!(m[0].0, "a"),
                _ => panic!("Expected an object"),
            }
        }
        _ => panic!("Expected an array"),
    }
}

#[test]
fn test_sort_primitive_returns_same() {
    assert_eq!(sort_json_value(&s("test")), s("test"));
    assert_eq!(sort_json_value(&n(42)), n(42));
    assert_eq!(sort_json_value(&JsonValue::Bool(true)), JsonValue::Bool(true));
    assert_eq!(sort_json_value(&JsonValue::Null), JsonValue::Null);
}
