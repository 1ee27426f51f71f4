//! Tests for the markup preamble scanner.

use brik::preamble::{parse_preamble, HtmlPreamble};

#[test]
fn preamble_parse_simple_html() {
    let html = r#"<!DOCTYPE html>
<html lang="en">
<body>Hello</body>
</html>"#;

    let result = HtmlPreamble::parse(html);
    assert!(result.is_ok());
}

#[test]
fn preamble_parse_with_pi() {
    let html = r#"<?xml version="1.0"?>
<!DOCTYPE html>
<html>
<body>Hello</body>
</html>"#;

    let result = HtmlPreamble::parse(html);
    assert!(result.is_ok());
}

#[test]
fn preamble_parse_with_comment() {
    let html = r#"<!-- This is a comment with <html> inside -->
<!DOCTYPE html>
<html>
<body>Hello</body>
</html>"#;

    let result = HtmlPreamble::parse(html);
    assert!(result.is_ok());
}

#[test]
fn parse_case_insensitive() {
    let html = r#"<!DOCTYPE html>
<HTML lang="en">
<body>Hello</body>
</HTML>"#;

    let result = HtmlPreamble::parse(html);
    assert!(result.is_ok());
}

#[test]
fn parse_self_closing() {
    let html = r#"<!DOCTYPE html>
<html lang="en"/>"#;

    let result = HtmlPreamble::parse(html);
    assert!(result.is_ok());
}

#[test]
fn preamble_parse_with_xmlns() {
    let html = r#"<!DOCTYPE html>
<html xmlns:custom="http://example.com/ns" lang="en">
<body>Hello</body>
</html>"#;

    let result = HtmlPreamble::parse(html);
    assert!(result.is_ok());
}

#[test]
fn parse_boolean_attribute() {
    let html = r#"<!DOCTYPE html>
<html lang="en" data-custom>
<body>Hello</body>
</html>"#;

    let result = HtmlPreamble::parse(html);
    assert!(result.is_ok());
}

#[test]
fn parse_empty_attribute_value() {
    let html = r#"<!DOCTYPE html>
<html class=>
<body>Hello</body>
</html>"#;

    let result = HtmlPreamble::parse(html);
    assert!(result.is_ok());
}

#[test]
fn parse_unquoted_attribute() {
    let html = r#"<!DOCTYPE html>
<html lang=en>
<body>Hello</body>
</html>"#;

    let result = HtmlPreamble::parse(html);
    assert!(result.is_ok());
}

#[test]
fn parse_simple_html() {
    let html = r#"<!DOCTYPE html>
<html lang="en">
<body>Hello</body>
</html>"#;

    let result = parse_preamble(html);
    assert!(result.is_ok());

    let info = result.unwrap();
    assert!(info.existing_xmlns.is_empty());
    assert!(info.tag_start < info.tag_close_start);
    assert!(info.tag_close_start < info.tag_end);
}

#[test]
fn parser_parse_with_xmlns() {
    let html = r#"<!DOCTYPE html>
<html xmlns:custom="http://example.com/ns" xmlns:other="http://other.com" lang="en">
<body>Hello</body>
</html>"#;

    let result = parse_preamble(html);
    assert!(result.is_ok());

    let info = result.unwrap();
    assert_eq!(info.existing_xmlns.len(), 2);

    let ((prefix_start, prefix_end), (uri_start, uri_end)) = info.existing_xmlns[0];
    assert_eq!(&html[prefix_start..prefix_end], "custom");
    assert_eq!(&html[uri_start..uri_end], "http://example.com/ns");

    let ((prefix_start, prefix_end), (uri_start, uri_end)) = info.existing_xmlns[1];
    assert_eq!(&html[prefix_start..prefix_end], "other");
    assert_eq!(&html[uri_start..uri_end], "http://other.com");
}

#[test]
fn parser_parse_with_comment() {
    let html = r#"<!-- This has <html> in it -->
<!DOCTYPE html>
<html>
<body>Hello</body>
</html>"#;

    let result = parse_preamble(html);
    assert!(result.is_ok());
}

#[test]
fn parse_missing_html_tag() {
    let html = r#"<!DOCTYPE html>
<body>Hello</body>"#;

    let result = parse_preamble(html);
    assert!(result.is_err());
}

#[test]
fn parser_parse_with_pi() {
    let html = r#"<?xml version="1.0"?>
<!DOCTYPE html>
<html>
<body>Hello</body>
</html>"#;

    let result = parse_preamble(html);
    assert!(result.is_ok());
}

#[test]
fn parse_doctype_internal_subset() {
    let html = "<!DOCTYPE html [ <!ENTITY x \"y\"> ]>\n<html><body>Hello</body></html>";

    let result = parse_preamble(html);
    assert!(result.is_ok());
}

#[test]
fn parse_prefix_and_uri_via_methods() {
    let html = r#"<html xmlns:svg="http://www.w3.org/2000/svg">"#;

    let info = parse_preamble(html).unwrap();
    assert_eq!(info.xmlns_count(), 1);
    assert_eq!(info.get_prefix(0, html).unwrap(), "svg");
    assert_eq!(info.get_uri(0, html).unwrap(), "http://www.w3.org/2000/svg");
}

#[test]
fn parse_unclosed_quote_is_error() {
    let html = r#"<html lang="en>"#;

    let result = parse_preamble(html);
    assert!(result.is_err());
}
