//! Tests for the JSON Patch formatter and the pointer conversion helper.

use rjd::formatter::json_patch::{convert_to_json_pointer, JsonPatchFormatter};
use rjd::formatter::Formatter;
use rjd::json_path::JsonPath;
use rjd::types::{Change, Changes};
use rjd::value::JsonValue;

fn s(v: &str) -> JsonValue {
    JsonValue::Str(v.to_string())
}

fn p(text: &str) -> JsonPath {
    JsonPath::parse_str(text).unwrap()
}

#[test]
fn test_convert_to_json_pointer_empty() {
    assert_eq!(convert_to_json_pointer(""), "");
}

#[test]
fn test_convert_to_json_pointer_simple_key() {
    assert_eq!(convert_to_json_pointer("name"), "/name");
}

#[test]
fn test_convert_to_json_pointer_nested_object() {
    assert_eq!(convert_to_json_pointer("user.name"), "/user/name");
}

#[test]
fn test_convert_to_json_pointer_array_index() {
    assert_eq!(convert_to_json_pointer("users[0]"), "/users/0");
}

#[test]
fn test_convert_to_json_pointer_nested_array() {
    assert_eq!(convert_to_json_pointer("users[0].address"), "/users/0/address");
}

#[test]
fn test_convert_to_json_pointer_deep_nesting() {
    assert_eq!(convert_to_json_pointer("a.b.c.d.e"), "/a/b/c/d/e");
}

#[test]
fn test_convert_to_json_pointer_array_in_middle() {
    assert_eq!(convert_to_json_pointer("user.addresses[2].city"), "/user/addresses/2/city");
}

#[test]
fn test_convert_to_json_pointer_special_chars() {
    assert_eq!(convert_to_json_pointer("user/name"), "/user~1name");
    assert_eq!(convert_to_json_pointer("user~name"), "/user~0name");
}

#[test]
fn json_patch_test_format_empty_changes() {
    let formatter = JsonPatchFormatter::new(false);
    let changes = Changes::new();

    let result = formatter.format(&changes).unwrap();
    let parsed: serde_json::Value = serde_json::from_str(&result).unwrap();

    assert!(parsed.is_array());
    assert_eq!(parsed.as_array().unwrap().len(), 0);
}

#[test]
fn test_format_added_change() {
    let formatter = JsonPatchFormatter::new(false);
    let mut changes = Changes::new();

    changes.push(Change::Added { path: p("email"), value: s("user@example.com") });

    let result = formatter.format(&changes).unwrap();
    let parsed: serde_json::Value = serde_json::from_str(&result).unwrap();

    assert!(parsed.is_array());
    let ops = parsed.as_array().unwrap();
    assert_eq!(ops.len(), 1);

    let op = &ops[0];
    assert_eq!(op["op"], "add");
    assert_eq!(op["path"], "/email");
    assert_eq!(op["value"], "user@example.com");
}

#[test]
fn test_format_removed_change() {
    let formatter = JsonPatchFormatter::new(false);
    let mut changes = Changes::new();

    changes.push(Change::Removed { path: p("phone"), value: s("555-1234") });

    let result = formatter.format(&changes).unwrap();
    let parsed: serde_json::Value = serde_json::from_str(&result).unwrap();

    assert!(parsed.is_array());
    let ops = parsed.as_array().unwrap();
    assert_eq!(ops.len(), 1);

    let op = &ops[0];
    assert_eq!(op["op"], "remove");
    assert_eq!(op["path"], "/phone");
    assert!(op.get("value").is_none());
}

#[test]
fn test_format_modified_change() {
    let formatter = JsonPatchFormatter::new(false);
    let mut changes = Changes::new();

    changes.push(Change::Modified {
        path: p("name"),
        old_value: s("John"),
        new_value: s("Jane"),
    });

    let result = formatter.format(&changes).unwrap();
    let parsed: serde_json::Value = serde_json::from_str(&result).unwrap();

    assert!(parsed.is_array());
    let ops = parsed.as_array().unwrap();
    assert_eq!(ops.len(), 1);

    let op = &ops[0];
    assert_eq!(op["op"], "replace");
    assert_eq!(op["path"], "/name");
    assert_eq!(op["value"], "Jane");
}

#[test]
fn test_format_mixed_changes() {
    let formatter = JsonPatchFormatter::new(false);
    let mut changes = Changes::new();

    changes.push(Change::Added { path: p("email"), value: s("user@example.com") });
    changes.push(Change::Removed { path: p("phone"), value: s("555-1234") });
    changes.push(Change::Modified {
        path: p("name"),
        old_value: s("John"),
        new_value: s("Jane"),
    });

    let result = formatter.format(&changes).unwrap();
    let parsed: serde_json::Value = serde_json::from_str(&result).unwrap();

    assert!(parsed.is_array());
    let ops = parsed.as_array().unwrap();
    assert_eq!(ops.len(), 3);

    assert_eq!(ops[0]["op"], "add");
    assert_eq!(ops[0]["path"], "/email");

    assert_eq!(ops[1]["op"], "remove");
    assert_eq!(ops[1]["path"], "/phone");

    assert_eq!(ops[2]["op"], "replace");
    assert_eq!(ops[2]["path"], "/name");
    assert_eq!(ops[2]["value"], "Jane");
}

#[test]
fn test_format_with_nested_paths() {
    let formatter = JsonPatchFormatter::new(false);
    let mut changes = Changes::new();

    changes.push(Change::Modified {
        path: p("user.address.city"),
        old_value: s("NYC"),
        new_value: s("LA"),
    });

    let result = formatter.format(&changes).unwrap();
    let parsed: serde_json::Value = serde_json::from_str(&result).unwrap();

    assert!(parsed.is_array());
    let ops = parsed.as_array().unwrap();
    assert_eq!(ops.len(), 1);

    let op = &ops[0];
    assert_eq!(op["op"], "replace");
    assert_eq!(op["path"], "/user/address/city");
    assert_eq!(op["value"], "LA");
}

#[test]
fn test_format_with_array_paths() {
    let formatter = JsonPatchFormatter::new(false);
    let mut changes = Changes::new();

    changes.push(Change::Added { path: p("users[0].email"), value: s("user@example.com") });

    let result = formatter.format(&changes).unwrap();
    let parsed: serde_json::Value = serde_json::from_str(&result).unwrap();

    assert!(parsed.is_array());
    let ops = parsed.as_array().unwrap();
    assert_eq!(ops.len(), 1);

    let op = &ops[0];
    assert_eq!(op["op"], "add");
    assert_eq!(op["path"], "/users/0/email");
    assert_eq!(op["value"], "user@example.com");
}

#[test]
fn test_format_compact() {
    let formatter = JsonPatchFormatter { pretty: false, sort: false };
    let mut changes = Changes::new();

    changes.push(Change::Added { path: p("name"), value: s("Alice") });

    let result = formatter.format(&changes).unwrap();

    assert!(!result.contains('\n'));
    let parsed: serde_json::Value = serde_json::from_str(&result).unwrap();
    assert!(parsed.is_array());
}

#[test]
fn test_format_pretty() {
    let formatter = JsonPatchFormatter::new(false);
    let mut changes = Changes::new();

    changes.push(Change::Added { path: p("name"), value: s("Alice") });

    let result = formatter.format(&changes).unwrap();

    assert!(result.contains('\n'));
    let parsed: serde_json::Value = serde_json::from_str(&result).unwrap();
    assert!(parsed.is_array());
}

#[test]
fn test_format_complex_value() {
    let formatter = JsonPatchFormatter::new(false);
    let mut changes = Changes::new();

    let nested_obj = JsonValue::Obj(vec![
        ("city".to_string(), s("NYC")),
        ("zip".to_string(), s("10001")),
    ]);

    changes.push(Change::Added { path: p("address"), value: nested_obj });

    let result = formatter.format(&changes).unwrap();
    let parsed: serde_json::Value = serde_json::from_str(&result).unwrap();

    assert!(parsed.is_array());
    let ops = parsed.as_array().unwrap();
    assert_eq!(ops.len(), 1);

    let op = &ops[0];
    assert_eq!(op["op"], "add");
    assert_eq!(op["path"], "/address");
    assert!(op["value"].is_object());
}

#[test]
fn json_patch_test_format_with_sort() {
    let formatter = JsonPatchFormatter::new(true);
    let mut changes = Changes::new();

    changes.push(Change::Added { path: p("z_field"), value: s("z_value") });
    changes.push(Change::Added { path: p("a_field"), value: s("a_value") });

    let result = formatter.format(&changes).unwrap();
    let parsed: serde_json::Value = serde_json::from_str(&result).unwrap();

    let ops = parsed.as_array().unwrap();
    assert_eq!(ops.len(), 2);

    let op1_keys: Vec<&str> = ops[0].as_object().unwrap().keys().map(|k| k.as_str()).collect();
    assert_eq!(op1_keys, vec!["op", "path", "value"]);
}

#[test]
fn json_patch_test_format_with_sort_nested() {
    let formatter = JsonPatchFormatter::new(true);
    let mut changes = Changes::new();

    let nested = JsonValue::Obj(vec![
        ("z_key".to_string(), s("z_val")),
        ("a_key".to_string(), s("a_val")),
    ]);

    changes.push(Change::Added { path: p("obj"), value: nested });

    let result = formatter.format(&changes).unwrap();
    let parsed: serde_json::Value = serde_json::from_str(&result).unwrap();

    let ops = parsed.as_array().unwrap();
    let op = &ops[0];

    let value_obj = op["value"].as_object().unwrap();
    let nested_keys: Vec<&str> = value_obj.keys().map(|k| k.as_str()).collect();
    assert_eq!(nested_keys, vec!["a_key", "z_key"]);
}
