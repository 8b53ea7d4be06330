//! Tests for the structured path-expression parser.

use rjd::formatter::path_parser::{ParseError, PathParser};
use rjd::json_path::PathSegment;

#[test]
fn test_parse_simple_property() {
    let parser = PathParser::parse("user.name").unwrap();
    let segments = parser.into_segments();
    assert_eq!(segments.len(), 2);
    assert!(matches!(segments[0], PathSegment::Key(ref k) if k == "user"));
    assert!(matches!(segments[1], PathSegment::Key(ref k) if k == "name"));
}

#[test]
fn path_parser_test_parse_array_index() {
    let parser = PathParser::parse("items[0]").unwrap();
    let segments = parser.into_segments();
    assert_eq!(segments.len(), 2);
    assert!(matches!(segments[0], PathSegment::Key(ref k) if k == "items"));
    assert!(matches!(segments[1], PathSegment::Index(0)));
}

#[test]
fn test_parse_nested_with_array() {
    let parser = PathParser::parse("items[0].name").unwrap();
    let segments = parser.into_segments();
    assert_eq!(segments.len(), 3);
    assert!(matches!(segments[0], PathSegment::Key(ref k) if k == "items"));
    assert!(matches!(segments[1], PathSegment::Index(0)));
    assert!(matches!(segments[2], PathSegment::Key(ref k) if k == "name"));
}

#[test]
fn test_parse_invalid_array_index() {
    let result = PathParser::parse("items[abc]");
    assert!(result.is_err());
    match result {
        Err(ParseError::InvalidArrayIndex { found, .. }) => {
            assert_eq!(found, "abc");
        }
        _ => panic!("Expected InvalidArrayIndex error"),
    }
}

#[test]
fn path_parser_test_parse_unclosed_bracket() {
    let result = PathParser::parse("items[0");
    assert!(result.is_err());
    match result {
        Err(ParseError::UnclosedBracket { .. }) => {}
        _ => panic!("Expected UnclosedBracket error"),
    }
}

#[test]
fn path_parser_test_parse_empty_string() {
    let parser = PathParser::parse("").unwrap();
    let segments = parser.into_segments();
    assert_eq!(segments.len(), 0);
}

#[test]
fn test_parse_unicode_keys() {
    let parser = PathParser::parse("user.名前.email").unwrap();
    let segments = parser.into_segments();
    assert_eq!(segments.len(), 3);
    assert!(matches!(segments[1], PathSegment::Key(ref k) if k == "名前"));
}

#[test]
fn test_parse_special_chars() {
    let parser = PathParser::parse("user-info.field_name").unwrap();
    let segments = parser.into_segments();
    assert_eq!(segments.len(), 2);
    assert!(matches!(segments[0], PathSegment::Key(ref k) if k == "user-info"));
    assert!(matches!(segments[1], PathSegment::Key(ref k) if k == "field_name"));
}

#[test]
fn test_parse_stray_close_bracket() {
    let result = PathParser::parse("ab]cd");
    assert!(matches!(result, Err(ParseError::UnclosedBracket { position: 2 })));
}
