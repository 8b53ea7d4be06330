//! Tests for the diff engine.

use rjd::diff::diff;
use rjd::types::Change;
use rjd::value::JsonValue;

fn s(v: &str) -> JsonValue {
    JsonValue::Str(v.to_string())
}

fn n(v: i64) -> JsonValue {
    JsonValue::Num(v.to_string())
}

fn b(v: bool) -> JsonValue {
    JsonValue::Bool(v)
}

fn obj(members: Vec<(&str, JsonValue)>) -> JsonValue {
    JsonValue::Obj(members.into_iter().map(|(k, v)| (k.to_string(), v)).collect())
}

fn arr(items: Vec<JsonValue>) -> JsonValue {
    JsonValue::Arr(items)
}

#[test]
fn test_equal_objects_no_changes() {
    let old = obj(vec![("name", s("John")), ("age", n(30))]);
    let new = obj(vec![("name", s("John")), ("age", n(30))]);
    let changes = diff(&old, &new);
    assert!(changes.is_empty());
}

#[test]
fn test_added_property() {
    let old = obj(vec![("name", s("John"))]);
    let new = obj(vec![("name", s("John")), ("age", n(30))]);
    let changes = diff(&old, &new);
    assert_eq!(changes.added.len(), 1);
    if let Change::Added { path, value } = &changes.added[0] {
        assert_eq!(path.to_string(), "age");
        assert_eq!(value, &n(30));
    } else {
        panic!("Expected Added change");
    }
}

#[test]
fn test_removed_property() {
    let old = obj(vec![("name", s("John")), ("age", n(30))]);
    let new = obj(vec![("name", s("John"))]);
    let changes = diff(&old, &new);
    assert_eq!(changes.removed.len(), 1);
    if let Change::Removed { path, value } = &changes.removed[0] {
        assert_eq!(path.to_string(), "age");
        assert_eq!(value, &n(30));
    } else {
        panic!("Expected Removed change");
    }
}

#[test]
fn test_modified_value() {
    let old = obj(vec![("name", s("John")), ("age", n(30))]);
    let new = obj(vec![("name", s("John")), ("age", n(31))]);
    let changes = diff(&old, &new);
    assert_eq!(changes.modified.len(), 1);
    if let Change::Modified { path, old_value, new_value } = &changes.modified[0] {
        assert_eq!(path.to_string(), "age");
        assert_eq!(old_value, &n(30));
        assert_eq!(new_value, &n(31));
    } else {
        panic!("Expected Modified change");
    }
}

#[test]
fn test_nested_added_property() {
    let old = obj(vec![("user", obj(vec![("name", s("John"))]))]);
    let new = obj(vec![(
        "user",
        obj(vec![("name", s("John")), ("email", s("john@example.com"))]),
    )]);
    let changes = diff(&old, &new);
    assert_eq!(changes.added.len(), 1);
    if let Change::Added { path, .. } = &changes.added[0] {
        assert_eq!(path.to_string(), "user.email");
    } else {
        panic!("Expected Added change");
    }
}

#[test]
fn test_nested_removed_property() {
    let old = obj(vec![(
        "user",
        obj(vec![("name", s("John")), ("email", s("john@example.com"))]),
    )]);
    let new = obj(vec![("user", obj(vec![("name", s("John"))]))]);
    let changes = diff(&old, &new);
    assert_eq!(changes.removed.len(), 1);
    if let Change::Removed { path, .. } = &changes.removed[0] {
        assert_eq!(path.to_string(), "user.email");
    } else {
        panic!("Expected Removed change");
    }
}

#[test]
fn test_deeply_nested_property() {
    let old = obj(vec![("a", obj(vec![("b", obj(vec![("c", obj(vec![("d", n(1))]))]))]))]);
    let new = obj(vec![("a", obj(vec![("b", obj(vec![("c", obj(vec![("d", n(2))]))]))]))]);
    let changes = diff(&old, &new);
    assert_eq!(changes.modified.len(), 1);
    if let Change::Modified { path, .. } = &changes.modified[0] {
        assert_eq!(path.to_string(), "a.b.c.d");
    } else {
        panic!("Expected Modified change");
    }
}

#[test]
fn test_type_mismatch_object_to_string() {
    let old = obj(vec![("key", obj(vec![("nested", s("value"))]))]);
    let new = obj(vec![("key", s("string_value"))]);
    let changes = diff(&old, &new);
    assert!(!changes.is_empty());
    let total_changes = changes.removed.len() + changes.added.len() + changes.modified.len();
    assert!(total_changes >= 1);
}

#[test]
fn test_empty_objects() {
    let old = obj(vec![]);
    let new = obj(vec![]);
    let changes = diff(&old, &new);
    assert!(changes.is_empty());
}

#[test]
fn test_empty_to_object() {
    let old = obj(vec![]);
    let new = obj(vec![("key", s("value"))]);
    let changes = diff(&old, &new);
    assert_eq!(changes.added.len(), 1);
    if let Change::Added { path, .. } = &changes.added[0] {
        assert_eq!(path.to_string(), "key");
    } else {
        panic!("Expected Added change");
    }
}

#[test]
fn test_object_to_empty() {
    let old = obj(vec![("key", s("value"))]);
    let new = obj(vec![]);
    let changes = diff(&old, &new);
    assert_eq!(changes.removed.len(), 1);
    if let Change::Removed { path, .. } = &changes.removed[0] {
        assert_eq!(path.to_string(), "key");
    } else {
        panic!("Expected Removed change");
    }
}

#[test]
fn test_array_element_modification() {
    let old = obj(vec![("items", arr(vec![n(1), n(2), n(3)]))]);
    let new = obj(vec![("items", arr(vec![n(1), n(10), n(3)]))]);
    let changes = diff(&old, &new);
    assert_eq!(changes.modified.len(), 1);
    if let Change::Modified { path, .. } = &changes.modified[0] {
        assert!(path.to_string().starts_with("items[1]"));
    } else {
        panic!("Expected Modified change");
    }
}

#[test]
fn test_multiple_changes() {
    let old = obj(vec![("a", n(1)), ("b", n(2)), ("c", n(3))]);
    let new = obj(vec![("a", n(10)), ("b", n(2)), ("d", n(4))]);
    let changes = diff(&old, &new);
    assert_eq!(changes.modified.len(), 1);
    assert_eq!(changes.added.len(), 1);
    assert_eq!(changes.removed.len(), 1);
}

#[test]
fn test_modified_string_value() {
    let old = obj(vec![("name", s("John"))]);
    let new = obj(vec![("name", s("Jane"))]);
    let changes = diff(&old, &new);
    assert_eq!(changes.modified.len(), 1);
    if let Change::Modified { path, old_value, new_value } = &changes.modified[0] {
        assert_eq!(path.to_string(), "name");
        assert_eq!(old_value, &s("John"));
        assert_eq!(new_value, &s("Jane"));
    } else {
        panic!("Expected Modified change");
    }
}

#[test]
fn test_modified_boolean_value() {
    let old = obj(vec![("active", b(false))]);
    let new = obj(vec![("active", b(true))]);
    let changes = diff(&old, &new);
    assert_eq!(changes.modified.len(), 1);
    if let Change::Modified { path, .. } = &changes.modified[0] {
        assert_eq!(path.to_string(), "active");
    } else {
        panic!("Expected Modified change");
    }
}

#[test]
fn test_modified_null_value() {
    let old = obj(vec![("field", JsonValue::Null)]);
    let new = obj(vec![("field", s("value"))]);
    let changes = diff(&old, &new);
    assert_eq!(changes.modified.len(), 1);
    if let Change::Modified { path, .. } = &changes.modified[0] {
        assert_eq!(path.to_string(), "field");
    } else {
        panic!("Expected Modified change");
    }
}

#[test]
fn test_root_scalar_replacement() {
    let old = s("value1");
    let new = s("value2");
    let changes = diff(&old, &new);
    assert_eq!(changes.modified.len(), 1);
    if let Change::Modified { path, old_value, new_value } = &changes.modified[0] {
        assert_eq!(path.to_string(), "");
        assert_eq!(old_value, &s("value1"));
        assert_eq!(new_value, &s("value2"));
    } else {
        panic!("Expected Modified change");
    }
}

#[test]
fn test_diff_same_value_is_empty() {
    let x = obj(vec![
        ("name", s("Alice")),
        ("tags", arr(vec![s("a"), s("b")])),
        ("nested", obj(vec![("k", n(1)), ("m", JsonValue::Null)])),
    ]);
    let changes = diff(&x, &x);
    assert!(changes.is_empty());
}

#[test]
fn test_diff_object_key_order_is_equal() {
    let old = obj(vec![("a", n(1)), ("b", n(2))]);
    let new = obj(vec![("b", n(2)), ("a", n(1))]);
    let changes = diff(&old, &new);
    assert!(changes.is_empty());
}

#[test]
fn test_diff_partition_no_path_twice() {
    let old = obj(vec![("a", n(1)), ("b", n(2)), ("c", n(3))]);
    let new = obj(vec![("a", n(10)), ("d", n(4))]);
    let changes = diff(&old, &new);
    let mut paths: Vec<String> = Vec::new();
    for c in changes.added.iter().chain(changes.removed.iter()).chain(changes.modified.iter()) {
        let p = match c {
            Change::Added { path, .. } => path.to_string(),
            Change::Removed { path, .. } => path.to_string(),
            Change::Modified { path, .. } => path.to_string(),
        };
        assert!(!paths.contains(&p));
        paths.push(p);
    }
}

#[test]
fn test_diff_array_length_difference() {
    let old = obj(vec![("items", arr(vec![n(1), n(2)]))]);
    let new = obj(vec![("items", arr(vec![n(1), n(2), n(3)]))]);
    let changes = diff(&old, &new);
    assert_eq!(changes.added.len(), 1);
    if let Change::Added { path, value } = &changes.added[0] {
        assert_eq!(path.to_string(), "items[2]");
        assert_eq!(value, &n(3));
    } else {
        panic!("Expected Added change");
    }
}
