//! Tests for the selector adapter surface.

use brik::{Attribute, Attributes, AttrValue, NodeData, PseudoClass, QualName, Tree};
use brik::select::{class_value_matches, has_class, has_id, is_empty_element, is_link, is_root};

fn html_name(local: &str) -> QualName {
    QualName::new(
        None,
        "http://www.w3.org/1999/xhtml".to_string(),
        local.to_string(),
    )
}

#[test]
fn is_active_or_hover() {
    assert!(PseudoClass::Active.is_active_or_hover());
    assert!(PseudoClass::Hover.is_active_or_hover());
    assert!(!PseudoClass::Focus.is_active_or_hover());
    assert!(!PseudoClass::Link.is_active_or_hover());
    assert!(!PseudoClass::Visited.is_active_or_hover());
    assert!(!PseudoClass::AnyLink.is_active_or_hover());
    assert!(!PseudoClass::Enabled.is_active_or_hover());
    assert!(!PseudoClass::Disabled.is_active_or_hover());
    assert!(!PseudoClass::Checked.is_active_or_hover());
    assert!(!PseudoClass::Indeterminate.is_active_or_hover());
}

#[test]
fn is_user_action_state() {
    assert!(PseudoClass::Active.is_user_action_state());
    assert!(PseudoClass::Hover.is_user_action_state());
    assert!(PseudoClass::Focus.is_user_action_state());
    assert!(!PseudoClass::Link.is_user_action_state());
    assert!(!PseudoClass::Visited.is_user_action_state());
    assert!(!PseudoClass::AnyLink.is_user_action_state());
    assert!(!PseudoClass::Enabled.is_user_action_state());
    assert!(!PseudoClass::Disabled.is_user_action_state());
    assert!(!PseudoClass::Checked.is_user_action_state());
    assert!(!PseudoClass::Indeterminate.is_user_action_state());
}

#[test]
fn pseudo_class_eq() {
    assert_eq!(PseudoClass::Active, PseudoClass::Active);
    assert_ne!(PseudoClass::Active, PseudoClass::Hover);
}

#[test]
fn pseudo_class_debug() {
    let pc = PseudoClass::Active;
    let debug_str = format!("{pc:?}");
    assert_eq!(debug_str, "Active");
}

#[test]
fn pseudo_class_css_text() {
    assert_eq!(PseudoClass::AnyLink.css_text(), ":any-link");
    assert_eq!(PseudoClass::Indeterminate.css_text(), ":indeterminate");
}

#[test]
fn pseudo_class_parse_name() {
    assert_eq!(PseudoClass::parse_name("any-link"), Some(PseudoClass::AnyLink));
    assert_eq!(PseudoClass::parse_name("HOVER"), Some(PseudoClass::Hover));
    assert_eq!(PseudoClass::parse_name("unsupported"), None);
}

#[test]
fn from_string() {
    let s = String::from("test");
    let attr_val = AttrValue::from(s);
    assert_eq!(attr_val.0, "test");
}

#[test]
fn attr_value_from_str() {
    let attr_val = AttrValue::from("test");
    assert_eq!(attr_val.0, "test");
}

#[test]
fn attr_value_deref() {
    let attr_val = AttrValue::from("test");
    let s: &String = &attr_val.0;
    assert_eq!(s, "test");
}

#[test]
fn attr_value_borrow() {
    let attr_val = AttrValue::from("test");
    let s: &str = attr_val.as_str();
    assert_eq!(s, "test");
}

#[test]
fn attr_value_as_ref() {
    let attr_val = AttrValue::from("test");
    let s: &str = attr_val.as_str();
    assert_eq!(s, "test");
}

#[test]
fn attr_value_eq() {
    let attr_val1 = AttrValue::from("test");
    let attr_val2 = AttrValue::from("test");
    let attr_val3 = AttrValue::from("other");
    assert_eq!(attr_val1, attr_val2);
    assert_ne!(attr_val1, attr_val3);
}

#[test]
fn attr_value_debug() {
    let attr_val = AttrValue::from("test");
    let debug_str = format!("{attr_val:?}");
    assert_eq!(debug_str, "AttrValue(\"test\")");
}

#[test]
fn class_matching_words() {
    assert!(class_value_matches("foo Foo bar", "foo", false));
    assert!(class_value_matches("foo Foo bar", "Foo", false));
    assert!(!class_value_matches("foo Foo bar", "FOO", false));
    assert!(class_value_matches("foo Foo bar", "FOO", true));
    assert!(class_value_matches("foo Foo bar", "fOo", true));
    assert!(class_value_matches("  spaced\tout  ", "out", false));
    assert!(!class_value_matches("foobar", "foo", false));
}

#[test]
fn class_matching_empty_name_never_matches() {
    assert!(!class_value_matches("foo Foo bar", "", false));
    assert!(!class_value_matches("foo Foo bar", "", true));
    assert!(!class_value_matches("", "", true));
}

#[test]
fn has_class_on_element() {
    let mut t = Tree::new();
    let mut attrs = Attributes::new();
    attrs.insert_ns("", "class", None, "foo Foo bar".to_string());
    let el = t.new_element(html_name("div"), attrs);

    assert!(has_class(&t, el, "foo", false));
    assert!(has_class(&t, el, "bar", false));
    assert!(!has_class(&t, el, "baz", false));
    assert!(has_class(&t, el, "FOO", true));
    assert!(!has_class(&t, el, "", true));
}

#[test]
fn has_id_on_element() {
    let mut t = Tree::new();
    let mut attrs = Attributes::new();
    attrs.insert_ns("", "id", None, "main".to_string());
    let el = t.new_element(html_name("div"), attrs);

    assert!(has_id(&t, el, "main", false));
    assert!(!has_id(&t, el, "Main", false));
    assert!(has_id(&t, el, "Main", true));
}

#[test]
fn is_link_detection() {
    let mut t = Tree::new();
    let mut attrs = Attributes::new();
    attrs.insert_ns("", "href", None, "https://example.com".to_string());
    let a = t.new_element(html_name("a"), attrs);
    let plain_a = t.new_element(html_name("a"), Attributes::new());
    let mut attrs2 = Attributes::new();
    attrs2.insert_ns("", "href", None, "x".to_string());
    let div = t.new_element(html_name("div"), attrs2);

    assert!(is_link(&t, a));
    assert!(!is_link(&t, plain_a));
    assert!(!is_link(&t, div));
}

#[test]
fn is_root_and_is_empty() {
    let mut t = Tree::new();
    let doc = t.new_document();
    let html = t.new_element(html_name("html"), Attributes::new());
    let body = t.new_element(html_name("body"), Attributes::new());
    t.append(doc, html);
    t.append(html, body);
    let empty_text = t.new_text(String::new());
    t.append(body, empty_text);

    assert!(is_root(&t, html));
    assert!(!is_root(&t, body));
    assert!(is_empty_element(&t, body));

    let full_text = t.new_text("hi".to_string());
    t.append(body, full_text);
    assert!(!is_empty_element(&t, body));
}
