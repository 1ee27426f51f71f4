//! Tests for the attribute store.

use brik::{Attribute, Attributes, ExpandedName};

#[test]
fn insert_ns_adds_attribute() {
    let mut attrs = Attributes::new();

    let custom_ns = "http://example.com/ns";
    attrs.insert_ns(custom_ns, "custom", Some("ex".to_string()), "value".to_string());

    assert!(attrs.has_ns(custom_ns, "custom"));
    assert_eq!(attrs.get_ns(custom_ns, "custom"), Some("value"));
}

#[test]
fn insert_ns_replaces_existing() {
    let mut attrs = Attributes::new();

    attrs.insert_ns("", "test", None, "first".to_string());
    let old = attrs.insert_ns("", "test", None, "second".to_string());

    assert_eq!(old.as_ref().map(|a| a.value.as_str()), Some("first"));
    assert_eq!(attrs.get_ns("", "test"), Some("second"));
    assert_eq!(attrs.len(), 1);
}

#[test]
fn remove_ns_removes_attribute() {
    let mut attrs = Attributes::new();
    attrs.insert_ns("", "class", None, "test".to_string());

    assert!(attrs.has_ns("", "class"));

    let removed = attrs.remove_ns("", "class");
    assert_eq!(removed.as_ref().map(|a| a.value.as_str()), Some("test"));

    assert!(!attrs.has_ns("", "class"));
    assert_eq!(attrs.get_ns("", "class"), None);
}

#[test]
fn remove_ns_returns_none_when_missing() {
    let mut attrs = Attributes::new();
    let removed = attrs.remove_ns("", "nonexistent");
    assert!(removed.is_none());
}

#[test]
fn get_and_contains_null_namespace() {
    let mut attrs = Attributes::new();
    attrs.insert("class", "test".to_string());
    attrs.insert("id", "main".to_string());

    assert_eq!(attrs.get("class"), Some("test"));
    assert_eq!(attrs.get("id"), Some("main"));
    assert_eq!(attrs.get("missing"), None);
    assert!(attrs.contains("class"));
    assert!(!attrs.contains("missing"));
    assert!(!attrs.has_ns("http://www.w3.org/1999/xhtml", "class"));
}

#[test]
fn attrs_in_ns_custom_namespace() {
    let mut attrs = Attributes::new();

    let custom_ns = "http://example.com/ns";
    attrs.insert_ns(custom_ns, "attr1", None, "value1".to_string());
    attrs.insert_ns(custom_ns, "attr2", None, "value2".to_string());
    attrs.insert_ns("", "regular", None, "value3".to_string());

    let custom_attrs = attrs.attrs_in_ns(custom_ns);
    assert_eq!(custom_attrs.len(), 2);
    assert_eq!(custom_attrs[0].0, "attr1");
    assert_eq!(custom_attrs[0].1, "value1");
    assert_eq!(custom_attrs[1].0, "attr2");
    assert_eq!(custom_attrs[1].1, "value2");
}

#[test]
fn attrs_in_ns_empty_when_no_match() {
    let mut attrs = Attributes::new();
    attrs.insert("class", "test".to_string());

    let html_ns_attrs = attrs.attrs_in_ns("http://www.w3.org/1999/xhtml");
    assert_eq!(html_ns_attrs.len(), 0);
}

#[test]
fn expanded_name_identity() {
    let a = ExpandedName::new("", "class");
    let b = ExpandedName::new("", "class");
    let c = ExpandedName::new("ns", "class");
    assert!(a.same_name(&b));
    assert!(!a.same_name(&c));
}

#[test]
fn attribute_parts() {
    let attr = Attribute { prefix: Some("ex".to_string()), value: "v".to_string() };
    let copy = attr.duplicate();
    assert_eq!(copy.prefix.as_deref(), Some("ex"));
    assert_eq!(copy.value, "v");
}

#[test]
fn entries_keep_insertion_order() {
    let mut attrs = Attributes::new();
    attrs.insert("b", "2".to_string());
    attrs.insert("a", "1".to_string());
    attrs.insert("b", "3".to_string());

    assert_eq!(attrs.len(), 2);
    assert_eq!(attrs.entry_at(0).0.local, "b");
    assert_eq!(attrs.entry_at(0).1.value, "3");
    assert_eq!(attrs.entry_at(1).0.local, "a");
}
