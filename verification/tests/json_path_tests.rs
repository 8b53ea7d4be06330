//! Tests for the typed path model: parsing, rendering, and queries.

use rjd::json_path::{JsonPath, ParseError, PathSegment};
use std::collections::HashSet;

#[test]
fn test_empty_path() {
    let path = JsonPath::new();
    assert!(path.is_empty());
    assert_eq!(path.len(), 0);
    assert_eq!(path.to_string(), "");
    assert_eq!(path.to_json_pointer(), "");
}

#[test]
fn test_parse_root_key() {
    let path = JsonPath::parse_str("name").unwrap();
    assert_eq!(path.segments().as_slice(), &[PathSegment::Key("name".to_string())]);
    assert_eq!(path.to_string(), "name");
}

#[test]
fn test_parse_nested_keys() {
    let path = JsonPath::parse_str("user.profile.email").unwrap();
    assert_eq!(
        path.segments().as_slice(),
        &[
            PathSegment::Key("user".to_string()),
            PathSegment::Key("profile".to_string()),
            PathSegment::Key("email".to_string())
        ]
    );
    assert_eq!(path.to_string(), "user.profile.email");
}

#[test]
fn json_path_test_parse_array_index() {
    let path = JsonPath::parse_str("items[0]").unwrap();
    assert_eq!(
        path.segments().as_slice(),
        &[PathSegment::Key("items".to_string()), PathSegment::Index(0)]
    );
    assert_eq!(path.to_string(), "items[0]");
}

#[test]
fn test_parse_combined() {
    let path = JsonPath::parse_str("users[0].email").unwrap();
    assert_eq!(
        path.segments().as_slice(),
        &[
            PathSegment::Key("users".to_string()),
            PathSegment::Index(0),
            PathSegment::Key("email".to_string())
        ]
    );
    assert_eq!(path.to_string(), "users[0].email");
}

#[test]
fn test_parse_deep_nesting() {
    let path = JsonPath::parse_str("a.b.c.d.e").unwrap();
    assert_eq!(path.len(), 5);
    assert_eq!(path.to_string(), "a.b.c.d.e");
}

#[test]
fn test_to_json_pointer_simple() {
    let path = JsonPath::parse_str("name").unwrap();
    assert_eq!(path.to_json_pointer(), "/name");
}

#[test]
fn test_to_json_pointer_nested() {
    let path = JsonPath::parse_str("user.name").unwrap();
    assert_eq!(path.to_json_pointer(), "/user/name");
}

#[test]
fn test_to_json_pointer_array() {
    let path = JsonPath::parse_str("users[0]").unwrap();
    assert_eq!(path.to_json_pointer(), "/users/0");
}

#[test]
fn test_to_json_pointer_combined() {
    let path = JsonPath::parse_str("users[0].email").unwrap();
    assert_eq!(path.to_json_pointer(), "/users/0/email");
}

#[test]
fn test_to_json_pointer_special_chars() {
    let path = JsonPath::parse_str("user/name").unwrap();
    assert_eq!(path.to_json_pointer(), "/user~1name");

    let path = JsonPath::parse_str("user~name").unwrap();
    assert_eq!(path.to_json_pointer(), "/user~0name");
}

#[test]
fn test_parent() {
    let path = JsonPath::parse_str("user.profile.email").unwrap();
    let parent = path.parent().unwrap();
    assert_eq!(parent.to_string(), "user.profile");

    // A one-segment path still has a parent: the root.  Only the root
    // itself has none.
    let single = JsonPath::parse_str("name").unwrap();
    let root = single.parent().unwrap();
    assert!(root.is_empty());
    assert!(JsonPath::new().parent().is_none());
}

#[test]
fn test_matches_prefix() {
    let path = JsonPath::parse_str("user.profile.email").unwrap();
    let prefix = JsonPath::parse_str("user.profile").unwrap();

    assert!(path.matches_prefix(&prefix));
    assert!(!prefix.matches_prefix(&path));
}

#[test]
fn test_push_segment() {
    let mut path = JsonPath::new();
    path.push(PathSegment::Key("users".to_string()));
    path.push(PathSegment::Index(0));
    path.push(PathSegment::Key("email".to_string()));

    assert_eq!(path.to_string(), "users[0].email");
}

#[test]
fn test_round_trip() {
    let original = "users[0].profile.email";
    let path = JsonPath::parse_str(original).unwrap();
    assert_eq!(path.to_string(), original);
}

#[test]
fn json_path_test_parse_empty_string() {
    let path = JsonPath::parse_str("");
    assert!(path.is_ok());
    assert!(path.unwrap().is_empty());
}

#[test]
fn test_parse_invalid_array_no_digits() {
    let path = JsonPath::parse_str("items[]");
    assert!(path.is_err());
}

#[test]
fn json_path_test_parse_unclosed_bracket() {
    let path = JsonPath::parse_str("items[0");
    assert!(path.is_err());
}

#[test]
fn test_equality() {
    let path1 = JsonPath::parse_str("users[0].email").unwrap();
    let path2 = JsonPath::parse_str("users[0].email").unwrap();
    assert_eq!(path1, path2);
}

#[test]
fn test_hash() {
    let path1 = JsonPath::parse_str("users[0].email").unwrap();
    let path2 = JsonPath::parse_str("users[0].email").unwrap();
    let path3 = JsonPath::parse_str("users[1].email").unwrap();

    let mut set = HashSet::new();
    set.insert(path1.clone());
    set.insert(path2);
    set.insert(path3.clone());

    assert_eq!(set.len(), 2);
    assert!(set.contains(&path1));
    assert!(set.contains(&path3));
}

#[test]
fn test_pointer_round_trip_strings() {
    for ptr in ["", "/name", "/user/name", "/users/0/email", "/a~0b/c~1d", "/x//y", "/007"] {
        let path = JsonPath::parse_pointer(ptr).unwrap();
        assert_eq!(path.to_json_pointer(), ptr);
    }
}

#[test]
fn test_pointer_missing_slash_rejected() {
    assert!(JsonPath::parse_pointer("user/id").is_err());
    assert!(JsonPath::parse_pointer("x").is_err());
}

#[test]
fn test_parse_error_kinds() {
    assert!(matches!(JsonPath::parse_str("."), Err(ParseError::EmptyPath)));
    assert!(matches!(
        JsonPath::parse_str("items[]"),
        Err(ParseError::InvalidArrayIndex { .. })
    ));
    assert!(matches!(
        JsonPath::parse_str("items[0"),
        Err(ParseError::UnclosedBracket { .. })
    ));
    assert!(matches!(
        JsonPath::parse_str("]x"),
        Err(ParseError::UnexpectedCharacter(']', 0))
    ));
    assert!(matches!(
        JsonPath::parse_str("items[0x]"),
        Err(ParseError::UnexpectedCharacter('x', _))
    ));
    assert!(matches!(
        JsonPath::parse_str("items[99999999999999999999999999]"),
        Err(ParseError::InvalidArrayIndex { found: '9', .. })
    ));
}

#[test]
fn test_prefix_method() {
    let path = JsonPath::parse_str("a.b.c").unwrap();
    assert!(path.prefix(0).is_none());
    assert!(path.prefix(4).is_none());
    assert_eq!(path.prefix(2).unwrap().to_string(), "a.b");
    let from_segments = JsonPath::from_segments(vec![
        PathSegment::Key("a".to_string()),
        PathSegment::Key("b".to_string()),
    ]);
    assert_eq!(path.prefix(2).unwrap(), from_segments);
}

#[test]
fn test_parse_large_index() {
    let path = JsonPath::parse_str("items[123]").unwrap();
    assert_eq!(
        path.segments().as_slice(),
        &[PathSegment::Key("items".to_string()), PathSegment::Index(123)]
    );
    assert_eq!(path.to_string(), "items[123]");
    assert_eq!(path.to_json_pointer(), "/items/123");
}
