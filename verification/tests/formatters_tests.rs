//! Integration tests over diff plus the formatters.

use rjd::cli::OutputFormat;
use rjd::diff::diff;
use rjd::formatter::{create_formatter, Formatter};
use rjd::value::JsonValue;

fn s(v: &str) -> JsonValue {
    JsonValue::Str(v.to_string())
}

fn n(v: i64) -> JsonValue {
    JsonValue::Num(v.to_string())
}

fn obj(members: Vec<(&str, JsonValue)>) -> JsonValue {
    JsonValue::Obj(members.into_iter().map(|(k, v)| (k.to_string(), v)).collect())
}

#[test]
fn test_changes_formatter_output() {
    let old = obj(vec![("name", s("John")), ("age", n(30))]);
    let new = obj(vec![("name", s("Jane")), ("age", n(30))]);
    let changes = diff(&old, &new);

    let formatter = create_formatter(OutputFormat::Changes, false);
    let output = formatter.format(&changes).unwrap();

    let parsed: serde_json::Value = serde_json::from_str(&output).unwrap();
    assert!(parsed.get("added").is_some());
    assert!(parsed.get("removed").is_some());
    assert!(parsed.get("modified").is_some());
    assert_eq!(parsed["modified"].as_array().unwrap().len(), 1);
}

#[test]
fn test_after_formatter_output() {
    let old = obj(vec![("name", s("John"))]);
    let new = obj(vec![("name", s("John")), ("age", n(30)), ("city", s("NYC"))]);
    let changes = diff(&old, &new);

    let formatter = create_formatter(OutputFormat::After, false);
    let output = formatter.format(&changes).unwrap();

    let parsed: serde_json::Value = serde_json::from_str(&output).unwrap();
    assert_eq!(parsed["age"], 30);
    assert_eq!(parsed["city"], "NYC");
}

#[test]
fn test_rfc6902_formatter_output() {
    let old = obj(vec![("name", s("John"))]);
    let new = obj(vec![("name", s("Jane"))]);
    let changes = diff(&old, &new);

    let formatter = create_formatter(OutputFormat::Rfc6902, false);
    let output = formatter.format(&changes).unwrap();

    let parsed: serde_json::Value = serde_json::from_str(&output).unwrap();
    assert!(parsed.is_array());
    let ops = parsed.as_array().unwrap();
    assert!(!ops.is_empty());
    assert!(ops.iter().any(|op| op["op"] == "replace"));
}

#[test]
fn test_changes_formatter_with_sort() {
    let old = obj(vec![("z", n(1)), ("a", n(2)), ("m", n(3))]);
    let new = obj(vec![("z", n(10)), ("a", n(2)), ("m", n(3))]);
    let changes = diff(&old, &new);

    let formatter = create_formatter(OutputFormat::Changes, true);
    let output = formatter.format(&changes).unwrap();

    assert!(output.contains("\"z\""));
}

#[test]
fn test_after_formatter_with_sort() {
    let old = obj(vec![]);
    let new = obj(vec![("c", n(3)), ("a", n(1)), ("b", n(2))]);
    let changes = diff(&old, &new);

    let formatter = create_formatter(OutputFormat::After, true);
    let output = formatter.format(&changes).unwrap();

    let parsed: serde_json::Value = serde_json::from_str(&output).unwrap();
    assert_eq!(parsed["a"], 1);
    assert_eq!(parsed["b"], 2);
    assert_eq!(parsed["c"], 3);
}

#[test]
fn test_rfc6902_add_operation() {
    let old = obj(vec![]);
    let new = obj(vec![("key", s("value"))]);
    let changes = diff(&old, &new);

    let formatter = create_formatter(OutputFormat::Rfc6902, false);
    let output = formatter.format(&changes).unwrap();

    let parsed: serde_json::Value = serde_json::from_str(&output).unwrap();
    let ops = parsed.as_array().unwrap();
    assert!(ops.iter().any(|op| op["op"] == "add"));
}

#[test]
fn test_rfc6902_remove_operation() {
    let old = obj(vec![("key", s("value"))]);
    let new = obj(vec![]);
    let changes = diff(&old, &new);

    let formatter = create_formatter(OutputFormat::Rfc6902, false);
    let output = formatter.format(&changes).unwrap();

    let parsed: serde_json::Value = serde_json::from_str(&output).unwrap();
    let ops = parsed.as_array().unwrap();
    assert!(ops.iter().any(|op| op["op"] == "remove"));
}

#[test]
fn test_empty_changes_all_formats() {
    let old = obj(vec![("name", s("John"))]);
    let new = obj(vec![("name", s("John"))]);

    for format in [OutputFormat::Changes, OutputFormat::After, OutputFormat::Rfc6902] {
        let changes = diff(&old, &new);
        let formatter = create_formatter(format, false);
        let output = formatter.format(&changes).unwrap();
        assert!(!output.is_empty());
    }
}

#[test]
fn test_nested_object_formatter() {
    let old = obj(vec![("user", obj(vec![("name", s("John"))]))]);
    let new = obj(vec![(
        "user",
        obj(vec![("name", s("Jane")), ("email", s("john@example.com"))]),
    )]);
    let changes = diff(&old, &new);

    let formatter = create_formatter(OutputFormat::Changes, false);
    let output = formatter.format(&changes).unwrap();

    let parsed: serde_json::Value = serde_json::from_str(&output).unwrap();
    assert!(parsed["added"].is_array());
    assert!(parsed["modified"].is_array());
}

#[test]
fn test_output_format_names() {
    assert_eq!(OutputFormat::Changes.to_string(), "changes");
    assert_eq!(OutputFormat::After.to_string(), "after");
    assert_eq!(OutputFormat::Rfc6902.to_string(), "rfc6902");
}
