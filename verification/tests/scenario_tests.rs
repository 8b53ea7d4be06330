//! End-to-end scenarios: diffing, filtering by ignore patterns, reading
//! ignore documents, and the fixed patch output order.

use rjd::cli::OutputFormat;
use rjd::diff::diff;
use rjd::formatter::{create_formatter, Formatter};
use rjd::ignore::{ignore_patterns_from_value, should_ignore, IgnoreError};
use rjd::json_path::JsonPath;
use rjd::types::Change;
use rjd::value::JsonValue;

fn s(v: &str) -> JsonValue {
    JsonValue::Str(v.to_string())
}

fn n(v: i64) -> JsonValue {
    JsonValue::Num(v.to_string())
}

fn obj(members: Vec<(&str, JsonValue)>) -> JsonValue {
    JsonValue::Obj(members.into_iter().map(|(k, v)| (k.to_string(), v)).collect())
}

fn arr(items: Vec<JsonValue>) -> JsonValue {
    JsonValue::Arr(items)
}

#[test]
fn test_scenario_added_age() {
    let old = obj(vec![("name", s("John"))]);
    let new = obj(vec![("name", s("John")), ("age", n(30))]);
    let changes = diff(&old, &new);
    assert_eq!(changes.added.len(), 1);
    assert_eq!(changes.removed.len(), 0);
    assert_eq!(changes.modified.len(), 0);
    if let Change::Added { path, value } = &changes.added[0] {
        assert_eq!(path.to_string(), "age");
        assert_eq!(value, &n(30));
    } else {
        panic!("Expected Added change");
    }
}

#[test]
fn test_scenario_array_item_modified() {
    let old = obj(vec![("items", arr(vec![n(1), n(2), n(3)]))]);
    let new = obj(vec![("items", arr(vec![n(1), n(4), n(3)]))]);
    let changes = diff(&old, &new);
    assert_eq!(changes.modified.len(), 1);
    if let Change::Modified { path, old_value, new_value } = &changes.modified[0] {
        assert_eq!(path.to_string(), "items[1]");
        assert_eq!(old_value, &n(2));
        assert_eq!(new_value, &n(4));
    } else {
        panic!("Expected Modified change");
    }
}

#[test]
fn test_scenario_root_replacement() {
    let changes = diff(&s("value1"), &s("value2"));
    assert_eq!(changes.modified.len(), 1);
    if let Change::Modified { path, .. } = &changes.modified[0] {
        assert_eq!(path.to_string(), "");
        assert_eq!(path.to_json_pointer(), "");
    } else {
        panic!("Expected Modified change");
    }
}

#[test]
fn test_scenario_ignore_pattern_drops_subtree() {
    let old = obj(vec![("user", obj(vec![("id", n(1)), ("name", s("a"))]))]);
    let new = obj(vec![("user", obj(vec![("id", n(2)), ("name", s("b"))]))]);
    let changes = diff(&old, &new);
    assert_eq!(changes.modified.len(), 2);

    let patterns = vec![JsonPath::parse_pointer("/user/id").unwrap()];
    let filtered = changes.filter_ignore_patterns(&patterns);
    assert_eq!(filtered.modified.len(), 1);
    if let Change::Modified { path, .. } = &filtered.modified[0] {
        assert_eq!(path.to_string(), "user.name");
    } else {
        panic!("Expected Modified change");
    }
}

#[test]
fn test_scenario_after_excludes_unchanged() {
    let old = obj(vec![("name", s("Alice"))]);
    let new = obj(vec![("name", s("Alice")), ("email", s("a@x.com"))]);
    let changes = diff(&old, &new);

    let formatter = create_formatter(OutputFormat::After, false);
    let output = formatter.format(&changes).unwrap();
    let parsed: serde_json::Value = serde_json::from_str(&output).unwrap();
    let o = parsed.as_object().unwrap();
    assert_eq!(o.len(), 1);
    assert_eq!(o.get("email").unwrap(), "a@x.com");
    assert!(!o.contains_key("name"));
}

#[test]
fn test_scenario_patch_add_then_remove() {
    let old = obj(vec![("phone", s("555"))]);
    let new = obj(vec![("email", s("a@x.com"))]);
    let changes = diff(&old, &new);

    let formatter = create_formatter(OutputFormat::Rfc6902, false);
    let output = formatter.format(&changes).unwrap();
    let parsed: serde_json::Value = serde_json::from_str(&output).unwrap();
    let ops = parsed.as_array().unwrap();
    assert_eq!(ops.len(), 2);
    assert_eq!(ops[0]["op"], "add");
    assert_eq!(ops[0]["path"], "/email");
    assert_eq!(ops[1]["op"], "remove");
    assert_eq!(ops[1]["path"], "/phone");
    assert!(ops[1].get("value").is_none());
}

#[test]
fn test_patch_output_grouped_by_kind() {
    // Many interleaved differences still come out add-then-remove-then-replace.
    let old = obj(vec![("a", n(1)), ("b", n(2)), ("c", n(3)), ("d", n(4))]);
    let new = obj(vec![("b", n(20)), ("d", n(4)), ("e", n(5)), ("f", n(6))]);
    let changes = diff(&old, &new);

    let formatter = create_formatter(OutputFormat::Rfc6902, false);
    let output = formatter.format(&changes).unwrap();
    let parsed: serde_json::Value = serde_json::from_str(&output).unwrap();
    let ops = parsed.as_array().unwrap();
    let rank = |op: &serde_json::Value| -> usize {
        match op["op"].as_str().unwrap() {
            "add" => 0,
            "remove" => 1,
            _ => 2,
        }
    };
    for w in ops.windows(2) {
        assert!(rank(&w[0]) <= rank(&w[1]));
    }
}

#[test]
fn test_ignore_monotonicity_on_lists() {
    let old = obj(vec![("user", obj(vec![("id", n(1)), ("name", s("a"))])), ("x", n(1))]);
    let new = obj(vec![("user", obj(vec![("id", n(2)), ("name", s("b"))])), ("x", n(2))]);
    let changes = diff(&old, &new);

    let small = vec![JsonPath::parse_pointer("/user/id").unwrap()];
    let large = vec![
        JsonPath::parse_pointer("/user/id").unwrap(),
        JsonPath::parse_pointer("/x").unwrap(),
    ];
    let kept_small = changes.filter_ignore_patterns(&small);
    let kept_large = changes.filter_ignore_patterns(&large);
    for c in kept_large.modified.iter() {
        assert!(kept_small.modified.contains(c));
    }
    assert!(kept_small.modified.len() >= kept_large.modified.len());
}

#[test]
fn test_ignore_prefix_is_segment_wise() {
    let user = JsonPath::parse_pointer("/user").unwrap();
    let username = JsonPath::parse_str("username").unwrap();
    let user_name = JsonPath::parse_str("user.name").unwrap();
    let patterns = vec![user];
    assert!(!should_ignore(&username, &patterns));
    assert!(should_ignore(&user_name, &patterns));
    assert!(should_ignore(&JsonPath::parse_str("user").unwrap(), &patterns));
}

#[test]
fn test_ignore_patterns_from_string_array() {
    let doc = arr(vec![s("/user/id"), s("/config/password"), s("/a/b/c")]);
    let patterns = ignore_patterns_from_value(&doc).unwrap();
    assert_eq!(patterns.len(), 3);
    assert_eq!(patterns[0], "/user/id");
}

#[test]
fn test_ignore_patterns_empty_array() {
    let doc = arr(vec![]);
    let patterns = ignore_patterns_from_value(&doc).unwrap();
    assert!(patterns.is_empty());
}

#[test]
fn test_ignore_patterns_missing_slash() {
    let doc = arr(vec![s("user/id"), s("/config/password")]);
    assert_eq!(
        ignore_patterns_from_value(&doc),
        Err(IgnoreError::MissingLeadingSlash)
    );
}

#[test]
fn test_ignore_patterns_non_string_entry() {
    let doc = arr(vec![s("/a"), n(5)]);
    assert_eq!(ignore_patterns_from_value(&doc), Err(IgnoreError::NotStringArray));
}

#[test]
fn test_ignore_patterns_scalar_document() {
    assert_eq!(
        ignore_patterns_from_value(&s("nope")),
        Err(IgnoreError::NotArrayOrObject)
    );
}

#[test]
fn test_ignore_patterns_object_format() {
    let doc = obj(vec![
        ("user", obj(vec![("id", JsonValue::Bool(true)), ("name", JsonValue::Bool(true))])),
        ("tags", JsonValue::Bool(true)),
    ]);
    let patterns = ignore_patterns_from_value(&doc).unwrap();
    assert_eq!(patterns.len(), 3);
    assert!(patterns.contains(&"/user/id".to_string()));
    assert!(patterns.contains(&"/user/name".to_string()));
    assert!(patterns.contains(&"/tags".to_string()));
}

#[test]
fn test_ignore_patterns_object_nested() {
    let doc = obj(vec![("a", obj(vec![("b", obj(vec![("c", JsonValue::Bool(true))]))]))]);
    let patterns = ignore_patterns_from_value(&doc).unwrap();
    assert_eq!(patterns.len(), 1);
    assert!(patterns.contains(&"/a/b/c".to_string()));
}

#[test]
fn test_ignore_patterns_object_empty() {
    let doc = obj(vec![]);
    let patterns = ignore_patterns_from_value(&doc).unwrap();
    assert!(patterns.is_empty());
}

#[test]
fn test_ignore_patterns_false_values_dropped() {
    let doc = obj(vec![
        ("user", obj(vec![("id", JsonValue::Bool(true)), ("skip", JsonValue::Bool(false))])),
        ("tags", JsonValue::Bool(true)),
    ]);
    let patterns = ignore_patterns_from_value(&doc).unwrap();
    assert_eq!(patterns.len(), 2);
    assert!(patterns.contains(&"/user/id".to_string()));
    assert!(patterns.contains(&"/tags".to_string()));
    assert!(!patterns.contains(&"/user/skip".to_string()));
}

#[test]
fn test_ignore_patterns_string_values_dropped() {
    let doc = obj(vec![("key", s("value"))]);
    let patterns = ignore_patterns_from_value(&doc).unwrap();
    assert!(patterns.is_empty());
}

#[test]
fn test_dot_round_trip_various() {
    for text in ["name", "user.profile.email", "items[0]", "users[0].email", "[3][4]", "a-b.c_d"] {
        let path = JsonPath::parse_str(text).unwrap();
        assert_eq!(path.to_string(), text);
    }
}

#[test]
fn test_number_rendering_kept_verbatim() {
    let old = obj(vec![("x", JsonValue::Num("1".to_string()))]);
    let new = obj(vec![("x", JsonValue::Num("1.0".to_string()))]);
    let changes = diff(&old, &new);
    assert_eq!(changes.modified.len(), 1);
}
