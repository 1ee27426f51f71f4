//! Tests for the namespace-normalization pass.

use brik::ns::{apply_xmlns, apply_xmlns_opts, NsError, NsOptions};
use brik::{Attributes, NodeData, QualName, Tree};

fn raw_name(local: &str) -> QualName {
    // Before normalization the tokenizer leaves the whole token in the
    // local name, with the null namespace.
    QualName::new(None, String::new(), local.to_string())
}

/// Builds the tree for `<html ...attrs...><body><c:widget id="x">hi</c:widget></body></html>`.
fn widget_document(xmlns_decl: bool) -> (Tree, usize) {
    let mut t = Tree::new();
    let doc = t.new_document();
    let mut html_attrs = Attributes::new();
    if xmlns_decl {
        html_attrs.insert_ns("", "xmlns:c", None, "urn:c".to_string());
    }
    let html = t.new_element(raw_name("html"), html_attrs);
    let body = t.new_element(raw_name("body"), Attributes::new());
    let mut widget_attrs = Attributes::new();
    widget_attrs.insert_ns("", "id", None, "x".to_string());
    let widget = t.new_element(raw_name("c:widget"), widget_attrs);
    let hi = t.new_text("hi".to_string());
    t.append(doc, html);
    t.append(html, body);
    t.append(body, widget);
    t.append(widget, hi);
    (t, doc)
}

fn find_element_by_local(t: &Tree, root: usize, local: &str) -> Option<usize> {
    for i in brik::iter::inclusive_descendants(t, root) {
        if let NodeData::Element(e) = t.data(i) {
            if e.name.local == local {
                return Some(i);
            }
        }
    }
    None
}

#[test]
fn widget_gains_namespace_from_declaration() {
    let (t, doc) = widget_document(true);
    let result = apply_xmlns(&t, doc).unwrap();

    let widget = find_element_by_local(&result, doc, "widget").expect("widget should be found");
    match result.data(widget) {
        NodeData::Element(e) => {
            assert_eq!(e.name.local, "widget");
            assert_eq!(e.name.prefix.as_deref(), Some("c"));
            assert_eq!(e.name.ns, "urn:c");
            assert_eq!(e.attributes.get("id"), Some("x"));
        }
        _ => panic!("expected an element"),
    }

    // No rebuilt element carries an xmlns declaration attribute.
    for i in brik::iter::inclusive_descendants(&result, doc) {
        if let NodeData::Element(e) = result.data(i) {
            for k in 0..e.attributes.len() {
                let local = &e.attributes.entry_at(k).0.local;
                assert!(!local.starts_with("xmlns:") && local != "xmlns");
            }
        }
    }
}

#[test]
fn lenient_without_declaration_keeps_prefix_with_null_namespace() {
    let (t, doc) = widget_document(false);
    let result = apply_xmlns(&t, doc).unwrap();

    let widget = find_element_by_local(&result, doc, "widget").expect("widget should be found");
    match result.data(widget) {
        NodeData::Element(e) => {
            assert_eq!(e.name.local, "widget");
            assert_eq!(e.name.prefix.as_deref(), Some("c"));
            assert_eq!(e.name.ns, "");
        }
        _ => panic!("expected an element"),
    }
}

#[test]
fn strict_without_declaration_reports_prefixes_and_tree() {
    let (t, doc) = widget_document(false);
    let mut options = NsOptions::new();
    options.strict = true;
    let err = apply_xmlns_opts(&t, doc, &options)
        .expect_err("should report the undefined prefix");

    match err {
        NsError::UndefinedPrefix(rebuilt, prefixes) => {
            assert_eq!(prefixes, vec!["c".to_string()]);
            // The attached tree is still usable and holds the widget.
            let widget =
                find_element_by_local(&rebuilt, doc, "widget").expect("widget should be found");
            match rebuilt.data(widget) {
                NodeData::Element(e) => assert_eq!(e.name.ns, ""),
                _ => panic!("expected an element"),
            }
        }
        _ => panic!("expected an undefined-prefix error"),
    }
}

#[test]
fn options_provide_base_bindings_and_declarations_override() {
    let mut t = Tree::new();
    let doc = t.new_document();
    let mut html_attrs = Attributes::new();
    html_attrs.insert_ns("", "xmlns:custom", None, "urn:from-markup".to_string());
    let html = t.new_element(raw_name("html"), html_attrs);
    let w1 = t.new_element(raw_name("custom:widget"), Attributes::new());
    let w2 = t.new_element(raw_name("svg:rect"), Attributes::new());
    t.append(doc, html);
    t.append(html, w1);
    t.append(html, w2);

    let mut options = NsOptions::new();
    options.namespaces.push(("custom".to_string(), "urn:from-options".to_string()));
    options.namespaces.push(("svg".to_string(), "http://www.w3.org/2000/svg".to_string()));

    let result = apply_xmlns_opts(&t, doc, &options).unwrap();

    let widget = find_element_by_local(&result, doc, "widget").unwrap();
    match result.data(widget) {
        // The declaration in the markup wins over the base binding.
        NodeData::Element(e) => assert_eq!(e.name.ns, "urn:from-markup"),
        _ => panic!("expected an element"),
    }
    let rect = find_element_by_local(&result, doc, "rect").unwrap();
    match result.data(rect) {
        NodeData::Element(e) => assert_eq!(e.name.ns, "http://www.w3.org/2000/svg"),
        _ => panic!("expected an element"),
    }
}

#[test]
fn prefixed_attributes_are_split_too() {
    let mut t = Tree::new();
    let doc = t.new_document();
    let mut html_attrs = Attributes::new();
    html_attrs.insert_ns("", "xmlns:data", None, "urn:data".to_string());
    let html = t.new_element(raw_name("html"), html_attrs);
    let mut div_attrs = Attributes::new();
    div_attrs.insert_ns("", "data:id", None, "123".to_string());
    div_attrs.insert_ns("", "class", None, "keep".to_string());
    let div = t.new_element(raw_name("div"), div_attrs);
    t.append(doc, html);
    t.append(html, div);

    let result = apply_xmlns(&t, doc).unwrap();
    let div2 = find_element_by_local(&result, doc, "div").unwrap();
    match result.data(div2) {
        NodeData::Element(e) => {
            assert_eq!(e.attributes.get_ns("urn:data", "id"), Some("123"));
            assert_eq!(e.attributes.get("class"), Some("keep"));
            match e.attributes.get_ns("urn:data", "id") {
                Some(_) => {}
                None => panic!("attribute should be namespaced"),
            }
        }
        _ => panic!("expected an element"),
    }
}

#[test]
fn normalization_without_prefixes_is_a_noop_except_xmlns() {
    // A document with no colon-prefixed names: normalization only strips
    // the declaration attributes.
    let mut t = Tree::new();
    let doc = t.new_document();
    let mut html_attrs = Attributes::new();
    html_attrs.insert_ns("", "xmlns:unused", None, "urn:u".to_string());
    html_attrs.insert_ns("", "lang", None, "en".to_string());
    let html = t.new_element(raw_name("html"), html_attrs);
    let body = t.new_element(raw_name("body"), Attributes::new());
    let text = t.new_text("content".to_string());
    let comment = t.new_comment("note".to_string());
    t.append(doc, html);
    t.append(html, body);
    t.append(body, text);
    t.append(body, comment);

    let result = apply_xmlns(&t, doc).unwrap();

    // Same shape, same content.
    assert_eq!(result.len(), t.len());
    for i in 0..t.len() {
        assert_eq!(result.parent(i), t.parent(i));
        assert_eq!(result.children(i), t.children(i));
    }
    let html2 = find_element_by_local(&result, doc, "html").unwrap();
    match result.data(html2) {
        NodeData::Element(e) => {
            assert_eq!(e.attributes.len(), 1);
            assert_eq!(e.attributes.get("lang"), Some("en"));
            assert_eq!(e.name.local, "html");
            assert_eq!(e.name.prefix, None);
        }
        _ => panic!("expected an element"),
    }
    match result.data(t.children(body)[0]) {
        NodeData::Text(v) => assert_eq!(v, "content"),
        _ => panic!("expected the text node"),
    }
    match result.data(t.children(body)[1]) {
        NodeData::Comment(v) => assert_eq!(v, "note"),
        _ => panic!("expected the comment"),
    }
}

#[test]
fn strict_reports_sorted_deduplicated_prefixes() {
    let mut t = Tree::new();
    let doc = t.new_document();
    let html = t.new_element(raw_name("html"), Attributes::new());
    let a = t.new_element(raw_name("zz:one"), Attributes::new());
    let mut b_attrs = Attributes::new();
    b_attrs.insert_ns("", "aa:x", None, "1".to_string());
    let b = t.new_element(raw_name("zz:two"), b_attrs);
    t.append(doc, html);
    t.append(html, a);
    t.append(html, b);

    let mut options = NsOptions::new();
    options.strict = true;
    let err = apply_xmlns_opts(&t, doc, &options).expect_err("prefixes are undefined");
    match err {
        NsError::UndefinedPrefix(_, prefixes) => {
            assert_eq!(prefixes, vec!["aa".to_string(), "zz".to_string()]);
        }
        _ => panic!("expected an undefined-prefix error"),
    }
}

#[test]
fn template_contents_are_rewritten_too() {
    let mut t = Tree::new();
    let doc = t.new_document();
    let mut html_attrs = Attributes::new();
    html_attrs.insert_ns("", "xmlns:c", None, "urn:c".to_string());
    let html = t.new_element(raw_name("html"), html_attrs);
    let tpl = t.new_element(
        QualName::new(
            None,
            "http://www.w3.org/1999/xhtml".to_string(),
            "template".to_string(),
        ),
        Attributes::new(),
    );
    t.append(doc, html);
    t.append(html, tpl);
    let frag = match t.data(tpl) {
        NodeData::Element(e) => e.template_contents.unwrap(),
        _ => panic!("expected an element"),
    };
    let inner = t.new_element(raw_name("c:widget"), Attributes::new());
    t.append(frag, inner);

    let result = apply_xmlns(&t, doc).unwrap();
    match result.data(inner) {
        NodeData::Element(e) => {
            assert_eq!(e.name.local, "widget");
            assert_eq!(e.name.ns, "urn:c");
        }
        _ => panic!("expected an element"),
    }
    // The rebuilt template still points at its contents.
    match result.data(tpl) {
        NodeData::Element(e) => assert_eq!(e.template_contents, Some(frag)),
        _ => panic!("expected an element"),
    }
}

#[test]
fn strict_convenience_matches_options_form() {
    let (t, doc) = widget_document(false);
    let err = brik::ns::apply_xmlns_strict(&t, doc).expect_err("prefix is undefined");
    match err {
        NsError::UndefinedPrefix(_, prefixes) => {
            assert_eq!(prefixes, vec!["c".to_string()]);
        }
        _ => panic!("expected an undefined-prefix error"),
    }

    let (t2, doc2) = widget_document(true);
    assert!(brik::ns::apply_xmlns_strict(&t2, doc2).is_ok());
}

#[test]
fn message_for_undefined_prefix() {
    let t = Tree::new();
    let error = NsError::UndefinedPrefix(t, vec!["c".to_string()]);
    assert_eq!(error.message(), "NS Undefined prefix");
}
