//! Tests for the after formatter: the filtered reconstruction of the new
//! document.

use rjd::formatter::after::AfterFormatter;
use rjd::formatter::Formatter;
use rjd::json_path::JsonPath;
use rjd::types::{Change, Changes};
use rjd::value::JsonValue;

fn s(v: &str) -> JsonValue {
    JsonValue::Str(v.to_string())
}

fn n(v: i64) -> JsonValue {
    JsonValue::Num(v.to_string())
}

fn obj(members: Vec<(&str, JsonValue)>) -> JsonValue {
    JsonValue::Obj(members.into_iter().map(|(k, v)| (k.to_string(), v)).collect())
}

fn p(text: &str) -> JsonPath {
    JsonPath::parse_str(text).unwrap()
}

#[test]
fn after_test_format_empty_changes() {
    let formatter = AfterFormatter::new(false);
    let changes = Changes::new();

    let result = formatter.format(&changes).unwrap();
    let parsed: serde_json::Value = serde_json::from_str(&result).unwrap();

    assert!(parsed.is_object());
    assert_eq!(parsed.as_object().unwrap().len(), 0);
}

#[test]
fn test_format_only_added() {
    let formatter = AfterFormatter::new(false);
    let mut changes = Changes::new();

    changes.after = Some(obj(vec![
        ("name", s("Alice")),
        ("age", n(30)),
        ("email", s("alice@example.com")),
    ]));

    changes.push(Change::Added { path: p("email"), value: s("alice@example.com") });

    let result = formatter.format(&changes).unwrap();
    let parsed: serde_json::Value = serde_json::from_str(&result).unwrap();

    assert!(parsed.is_object());
    let o = parsed.as_object().unwrap();
    assert_eq!(o.len(), 1);
    assert_eq!(o.get("email").unwrap(), "alice@example.com");
}

#[test]
fn test_format_only_modified() {
    let formatter = AfterFormatter::new(false);
    let mut changes = Changes::new();

    changes.after = Some(obj(vec![("name", s("Alice")), ("age", n(31))]));

    changes.push(Change::Modified { path: p("age"), old_value: n(30), new_value: n(31) });

    let result = formatter.format(&changes).unwrap();
    let parsed: serde_json::Value = serde_json::from_str(&result).unwrap();

    assert!(parsed.is_object());
    let o = parsed.as_object().unwrap();
    assert_eq!(o.len(), 1);
    assert_eq!(o.get("age").unwrap(), 31);
}

#[test]
fn test_format_mixed_added_and_modified() {
    let formatter = AfterFormatter::new(false);
    let mut changes = Changes::new();

    changes.after = Some(obj(vec![
        ("name", s("Alice")),
        ("age", n(31)),
        ("email", s("alice@example.com")),
    ]));

    changes.push(Change::Modified {
        path: p("name"),
        old_value: s("Bob"),
        new_value: s("Alice"),
    });
    changes.push(Change::Modified { path: p("age"), old_value: n(30), new_value: n(31) });
    changes.push(Change::Added { path: p("email"), value: s("alice@example.com") });

    let result = formatter.format(&changes).unwrap();
    let parsed: serde_json::Value = serde_json::from_str(&result).unwrap();

    assert!(parsed.is_object());
    let o = parsed.as_object().unwrap();
    assert_eq!(o.len(), 3);
    assert_eq!(o.get("name").unwrap(), "Alice");
    assert_eq!(o.get("age").unwrap(), 31);
    assert_eq!(o.get("email").unwrap(), "alice@example.com");
}

#[test]
fn test_format_nested_objects() {
    let formatter = AfterFormatter::new(false);
    let mut changes = Changes::new();

    let address = obj(vec![("city", s("NYC")), ("zip", s("10001"))]);
    let user = obj(vec![("name", s("Alice")), ("age", n(30)), ("address", address)]);
    changes.after = Some(obj(vec![("user", user)]));

    changes.push(Change::Modified {
        path: p("user.name"),
        old_value: s("Bob"),
        new_value: s("Alice"),
    });
    changes.push(Change::Added { path: p("user.address.city"), value: s("NYC") });

    let result = formatter.format(&changes).unwrap();
    let parsed: serde_json::Value = serde_json::from_str(&result).unwrap();

    assert!(parsed.is_object());
    let o = parsed.as_object().unwrap();
    assert!(o.contains_key("user"));

    let user = o.get("user").unwrap().as_object().unwrap();
    assert!(user.contains_key("name"));
    assert!(user.contains_key("address"));

    let address = user.get("address").unwrap().as_object().unwrap();
    assert!(address.contains_key("city"));
}

#[test]
fn test_format_with_removed_ignored() {
    let formatter = AfterFormatter::new(false);
    let mut changes = Changes::new();

    changes.after = Some(obj(vec![("name", s("Alice")), ("phone", s("555-1234"))]));

    changes.push(Change::Removed { path: p("phone"), value: s("555-1234") });
    changes.push(Change::Modified {
        path: p("name"),
        old_value: s("Bob"),
        new_value: s("Alice"),
    });

    let result = formatter.format(&changes).unwrap();
    let parsed: serde_json::Value = serde_json::from_str(&result).unwrap();

    assert!(parsed.is_object());
    let o = parsed.as_object().unwrap();
    assert_eq!(o.len(), 1);
    assert!(o.contains_key("name"));
    assert!(!o.contains_key("phone"));
}

#[test]
fn test_format_with_array_addition() {
    let formatter = AfterFormatter::new(false);
    let mut changes = Changes::new();

    let hobbies = JsonValue::Arr(vec![s("reading"), s("painting")]);
    changes.after = Some(obj(vec![("hobbies", hobbies)]));

    changes.push(Change::Added { path: p("hobbies[1]"), value: s("painting") });

    let result = formatter.format(&changes).unwrap();
    let parsed: serde_json::Value = serde_json::from_str(&result).unwrap();

    assert!(parsed.is_object());
    let o = parsed.as_object().unwrap();
    assert!(o.contains_key("hobbies"));
    assert!(!o.contains_key("hobbies[1]"));

    // Only the changed position carries a value; the untouched position
    // stays a placeholder so indices keep their meaning.
    let hobbies_array = o.get("hobbies").unwrap();
    assert!(hobbies_array.is_array());
    let hobbies_vec = hobbies_array.as_array().unwrap();
    assert_eq!(hobbies_vec.len(), 2);
    assert_eq!(hobbies_vec[0], serde_json::Value::Null);
    assert_eq!(hobbies_vec[1], "painting");
}

#[test]
fn after_test_format_with_sort() {
    let formatter = AfterFormatter::new(true);
    let mut changes = Changes::new();

    changes.after = Some(obj(vec![("z_field", s("z_value")), ("a_field", s("a_value"))]));

    changes.push(Change::Modified {
        path: p("z_field"),
        old_value: s("old_z"),
        new_value: s("z_value"),
    });
    changes.push(Change::Added { path: p("a_field"), value: s("a_value") });

    let result = formatter.format(&changes).unwrap();
    let parsed: serde_json::Value = serde_json::from_str(&result).unwrap();

    let o = parsed.as_object().unwrap();
    let keys: Vec<&str> = o.keys().map(|k| k.as_str()).collect();
    assert_eq!(keys, vec!["a_field", "z_field"]);
}

#[test]
fn after_test_format_with_sort_nested() {
    let formatter = AfterFormatter::new(true);
    let mut changes = Changes::new();

    let nested = obj(vec![("z_key", s("z_val")), ("a_key", s("a_val"))]);
    changes.after = Some(obj(vec![("nested", nested.clone())]));

    changes.push(Change::Added { path: p("nested"), value: nested });

    let result = formatter.format(&changes).unwrap();
    let parsed: serde_json::Value = serde_json::from_str(&result).unwrap();

    let o = parsed.as_object().unwrap();
    let nested_obj = o["nested"].as_object().unwrap();
    let nested_keys: Vec<&str> = nested_obj.keys().map(|k| k.as_str()).collect();
    assert_eq!(nested_keys, vec!["a_key", "z_key"]);
}
