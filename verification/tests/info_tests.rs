//! Tests for tag information slicing and namespace errors.

use brik::ns::NsError;
use brik::preamble::HtmlTagInfo;

#[test]
fn test_get_namespace_methods() {
    let html =
        r#"<html xmlns:svg="http://www.w3.org/2000/svg" xmlns:custom="http://example.com">"#;

    let info = HtmlTagInfo {
        tag_start: 0,
        tag_close_start: html.len() - 1,
        tag_end: html.len(),
        existing_xmlns: vec![
            ((12, 15), (17, 43)),
            ((51, 57), (59, 77)),
        ],
    };

    assert_eq!(info.get_prefix(0, html).unwrap(), "svg");
    assert_eq!(info.get_prefix(1, html).unwrap(), "custom");

    assert_eq!(info.get_uri(0, html).unwrap(), "http://www.w3.org/2000/svg");
    assert_eq!(info.get_uri(1, html).unwrap(), "http://example.com");

    let (prefix, uri) = info.get_namespace(0, html).unwrap();
    assert_eq!(prefix, "svg");
    assert_eq!(uri, "http://www.w3.org/2000/svg");

    let (prefix, uri) = info.get_namespace(1, html).unwrap();
    assert_eq!(prefix, "custom");
    assert_eq!(uri, "http://example.com");

    assert!(info.get_prefix(2, html).is_err());
    assert!(info.get_uri(2, html).is_err());
    assert!(info.get_namespace(2, html).is_err());
}

#[test]
fn test_get_namespace_invalid_position() {
    let html = "<html>";

    let info = HtmlTagInfo {
        tag_start: 0,
        tag_close_start: 5,
        tag_end: 6,
        existing_xmlns: vec![
            ((50, 60), (70, 80)),
        ],
    };

    let result = info.get_namespace(0, html);
    assert!(result.is_err());

    match result {
        Err(NsError::InvalidSlice(_)) => {}
        _ => panic!("Expected InvalidSlice error"),
    }
}

#[test]
fn test_xmlns_count_empty() {
    let info = HtmlTagInfo {
        tag_start: 0,
        tag_close_start: 5,
        tag_end: 6,
        existing_xmlns: vec![],
    };

    assert_eq!(info.xmlns_count(), 0);
}

#[test]
fn test_xmlns_count_multiple() {
    let info = HtmlTagInfo {
        tag_start: 0,
        tag_close_start: 5,
        tag_end: 6,
        existing_xmlns: vec![((1, 2), (3, 4)), ((5, 6), (7, 8)), ((9, 10), (11, 12))],
    };

    assert_eq!(info.xmlns_count(), 3);
}

#[test]
fn test_get_prefix_invalid_position() {
    let html = "<html>";

    let info = HtmlTagInfo {
        tag_start: 0,
        tag_close_start: 5,
        tag_end: 6,
        existing_xmlns: vec![
            ((10, 15), (20, 30)),
        ],
    };

    let result = info.get_prefix(0, html);
    assert!(result.is_err());

    match result {
        Err(NsError::InvalidSlice(msg)) => {
            assert!(msg.contains("Invalid prefix position"));
        }
        _ => panic!("Expected InvalidSlice error"),
    }
}

#[test]
fn test_get_uri_invalid_position() {
    let html = "<html>";

    let info = HtmlTagInfo {
        tag_start: 0,
        tag_close_start: 5,
        tag_end: 6,
        existing_xmlns: vec![
            ((1, 2), (100, 200)),
        ],
    };

    let result = info.get_uri(0, html);
    assert!(result.is_err());

    match result {
        Err(NsError::InvalidSlice(msg)) => {
            assert!(msg.contains("Invalid URI position"));
        }
        _ => panic!("Expected InvalidSlice error"),
    }
}

#[test]
fn test_display_parse_error() {
    let error = NsError::ParseError("Failed to parse HTML".to_string());
    let display = error.message();
    assert_eq!(display, "NS Parse error: Failed to parse HTML");
}

#[test]
fn test_display_invalid_slice() {
    let error = NsError::InvalidSlice("Index out of bounds".to_string());
    let display = error.message();
    assert_eq!(display, "NS Invalid slice: Index out of bounds");
}
