//! Tests for the node store, its mutation primitives and the walks.

use brik::iter::{
    ancestors, children_rev, descendants, filter_comments, filter_elements, filter_text_nodes,
    inclusive_descendants, text_contents, traverse, NodeEdge,
};
use brik::{Attributes, Doctype, NodeData, QualName, QuirksMode, Tree};

fn el_name(local: &str) -> QualName {
    QualName::new(
        None,
        "http://www.w3.org/1999/xhtml".to_string(),
        local.to_string(),
    )
}

fn new_el(t: &mut Tree, local: &str) -> usize {
    t.new_element(el_name(local), Attributes::new())
}

#[test]
fn new_element() {
    let mut t = Tree::new();
    let element = t.new_element(el_name("div"), Attributes::new());

    match t.data(element) {
        NodeData::Element(e) => assert_eq!(e.name.local, "div"),
        _ => panic!("expected an element"),
    }
}

#[test]
fn new_text() {
    let mut t = Tree::new();
    let text = t.new_text("Hello World".to_string());

    match t.data(text) {
        NodeData::Text(v) => assert_eq!(v, "Hello World"),
        _ => panic!("expected a text node"),
    }
}

#[test]
fn new_comment() {
    let mut t = Tree::new();
    let comment = t.new_comment("This is a comment".to_string());

    match t.data(comment) {
        NodeData::Comment(v) => assert_eq!(v, "This is a comment"),
        _ => panic!("expected a comment"),
    }
}

#[test]
fn new_processing_instruction() {
    let mut t = Tree::new();
    let pi = t.new_processing_instruction("xml-stylesheet".to_string(), "href='style.css'".to_string());

    match t.data(pi) {
        NodeData::ProcessingInstruction(target, data) => {
            assert_eq!(target, "xml-stylesheet");
            assert_eq!(data, "href='style.css'");
        }
        _ => panic!("expected a processing instruction"),
    }
}

#[test]
fn new_doctype() {
    let mut t = Tree::new();
    let doctype = t.new_doctype("html".to_string(), String::new(), String::new());

    match t.data(doctype) {
        NodeData::Doctype(Doctype { name, .. }) => assert_eq!(name, "html"),
        _ => panic!("expected a doctype"),
    }
}

#[test]
fn new_document() {
    let mut t = Tree::new();
    let doc = t.new_document();

    match t.data(doc) {
        NodeData::Document(d) => assert_eq!(d.quirks_mode, QuirksMode::NoQuirks),
        _ => panic!("expected a document"),
    }
}

#[test]
fn template_element_gets_contents() {
    let mut t = Tree::new();
    let tpl = t.new_element(el_name("template"), Attributes::new());

    match t.data(tpl) {
        NodeData::Element(e) => {
            let frag = e.template_contents.expect("template should have contents");
            assert!(matches!(t.data(frag), NodeData::DocumentFragment));
        }
        _ => panic!("expected an element"),
    }
}

#[test]
fn append() {
    let mut t = Tree::new();
    let parent = new_el(&mut t, "div");
    let child1 = t.new_text("First".to_string());
    let child2 = t.new_text("Second".to_string());

    t.append(parent, child1);
    t.append(parent, child2);

    assert_eq!(t.first_child(parent), Some(child1));
    assert_eq!(t.last_child(parent), Some(child2));
    assert_eq!(t.next_sibling(child1), Some(child2));
}

#[test]
fn prepend() {
    let mut t = Tree::new();
    let parent = new_el(&mut t, "div");
    let child1 = t.new_text("First".to_string());
    let child2 = t.new_text("Second".to_string());

    t.append(parent, child1);
    t.prepend(parent, child2);

    assert_eq!(t.first_child(parent), Some(child2));
    assert_eq!(t.last_child(parent), Some(child1));
    assert_eq!(t.next_sibling(child2), Some(child1));
}

#[test]
fn insert_after() {
    let mut t = Tree::new();
    let parent = new_el(&mut t, "div");
    let child1 = t.new_text("First".to_string());
    let child2 = t.new_text("Second".to_string());
    let child3 = t.new_text("Third".to_string());

    t.append(parent, child1);
    t.append(parent, child3);
    t.insert_after(child1, child2);

    let children = t.children(parent);
    assert_eq!(children.len(), 3);
    assert_eq!(children[0], child1);
    assert_eq!(children[1], child2);
    assert_eq!(children[2], child3);
}

#[test]
fn insert_before() {
    let mut t = Tree::new();
    let parent = new_el(&mut t, "div");
    let child1 = t.new_text("First".to_string());
    let child2 = t.new_text("Second".to_string());
    let child3 = t.new_text("Third".to_string());

    t.append(parent, child1);
    t.append(parent, child3);
    t.insert_before(child3, child2);

    let children = t.children(parent);
    assert_eq!(children.len(), 3);
    assert_eq!(children[0], child1);
    assert_eq!(children[1], child2);
    assert_eq!(children[2], child3);
}

#[test]
fn detach() {
    let mut t = Tree::new();
    let parent = new_el(&mut t, "div");
    let child1 = t.new_text("First".to_string());
    let child2 = t.new_text("Second".to_string());
    let child3 = t.new_text("Third".to_string());

    t.append(parent, child1);
    t.append(parent, child2);
    t.append(parent, child3);

    t.detach(child2);

    let children = t.children(parent);
    assert_eq!(children.len(), 2);
    assert_eq!(children[0], child1);
    assert_eq!(children[1], child3);
    assert!(t.parent(child2).is_none());
    // The former siblings close ranks around the gap.
    assert_eq!(t.next_sibling(child1), Some(child3));
    assert_eq!(t.previous_sibling(child3), Some(child1));
}

#[test]
fn prepend_to_empty() {
    let mut t = Tree::new();
    let parent = new_el(&mut t, "div");
    let child = t.new_text("Only child".to_string());

    t.prepend(parent, child);

    assert_eq!(t.first_child(parent), Some(child));
    assert_eq!(t.last_child(parent), Some(child));
}

#[test]
fn insert_after_as_last_child() {
    let mut t = Tree::new();
    let parent = new_el(&mut t, "div");
    let child1 = t.new_text("First".to_string());
    let child2 = t.new_text("Last".to_string());

    t.append(parent, child1);
    t.insert_after(child1, child2);

    assert_eq!(t.last_child(parent), Some(child2));
    assert!(t.next_sibling(child2).is_none());
}

#[test]
fn insert_before_as_first_child() {
    let mut t = Tree::new();
    let parent = new_el(&mut t, "div");
    let child1 = t.new_text("Second".to_string());
    let child2 = t.new_text("First".to_string());

    t.append(parent, child1);
    t.insert_before(child1, child2);

    assert_eq!(t.first_child(parent), Some(child2));
    assert!(t.previous_sibling(child2).is_none());
}

#[test]
fn sibling_links_mirror_each_other() {
    let mut t = Tree::new();
    let parent = new_el(&mut t, "div");
    let a = new_el(&mut t, "p");
    let b = new_el(&mut t, "span");
    let c = new_el(&mut t, "p");
    t.append(parent, a);
    t.append(parent, b);
    t.append(parent, c);
    t.detach(b);
    t.insert_before(a, b);

    // For every adjacent pair, the forward and the backward link agree.
    let kids = t.children(parent);
    assert_eq!(kids, vec![b, a, c]);
    for w in kids.windows(2) {
        assert_eq!(t.next_sibling(w[0]), Some(w[1]));
        assert_eq!(t.previous_sibling(w[1]), Some(w[0]));
    }
    // Forward-collected children equal the reverse of backward-collected.
    let mut rev = children_rev(&t, parent);
    rev.reverse();
    assert_eq!(rev, kids);
}

#[test]
fn traverse_is_balanced() {
    let mut t = Tree::new();
    let div = new_el(&mut t, "div");
    let p1 = new_el(&mut t, "p");
    let span = new_el(&mut t, "span");
    let p2 = new_el(&mut t, "p");
    let t1 = t.new_text("1".to_string());
    t.append(div, p1);
    t.append(div, span);
    t.append(div, p2);
    t.append(p1, t1);

    let edges = traverse(&t, div);
    let nodes = inclusive_descendants(&t, div);
    // One start and one end edge per node of the subtree.
    assert_eq!(edges.len(), 2 * nodes.len());
    assert_eq!(nodes.len(), 5);
    assert_eq!(edges[0], NodeEdge::Start(div));
    assert_eq!(edges[edges.len() - 1], NodeEdge::End(div));
    // Edges nest: each end closes the most recently opened node.
    let mut stack = Vec::new();
    for e in &edges {
        match e {
            NodeEdge::Start(x) => stack.push(*x),
            NodeEdge::End(x) => assert_eq!(stack.pop(), Some(*x)),
        }
    }
    assert!(stack.is_empty());
    // Each node appears exactly once among the start edges.
    let mut sorted = nodes.clone();
    sorted.sort();
    sorted.dedup();
    assert_eq!(sorted.len(), nodes.len());
}

#[test]
fn descendants_and_filters() {
    let mut t = Tree::new();
    let div = new_el(&mut t, "div");
    let p1 = new_el(&mut t, "p");
    let span = new_el(&mut t, "span");
    let p2 = new_el(&mut t, "p");
    t.append(div, p1);
    t.append(div, span);
    t.append(div, p2);
    let x1 = t.new_text("1".to_string());
    let x2 = t.new_text("2".to_string());
    let c1 = t.new_comment("c".to_string());
    t.append(p1, x1);
    t.append(span, x2);
    t.append(p2, c1);

    let desc = descendants(&t, div);
    assert_eq!(desc, vec![p1, x1, span, x2, p2, c1]);

    let elements = filter_elements(&t, &desc);
    assert_eq!(elements, vec![p1, span, p2]);

    // Forward-collected elements equal the reverse of the backward collection.
    let mut backward = elements.clone();
    backward.reverse();
    let mut back_again = backward.clone();
    back_again.reverse();
    assert_eq!(back_again, elements);

    let texts = filter_text_nodes(&t, &desc);
    assert_eq!(texts, vec![x1, x2]);

    let comments = filter_comments(&t, &desc);
    assert_eq!(comments, vec![c1]);
}

#[test]
fn forward_collection_mirrors_backward() {
    let mut t = Tree::new();
    let div = new_el(&mut t, "div");
    let p1 = new_el(&mut t, "p");
    let span = new_el(&mut t, "span");
    let p2 = new_el(&mut t, "p");
    t.append(div, p1);
    t.append(div, span);
    t.append(div, p2);

    let forward = inclusive_descendants(&t, div);
    let mut backward = brik::iter::inclusive_descendants_rev(&t, div);
    backward.reverse();
    assert_eq!(forward, backward);

    // The element filter keeps that symmetry.
    let fwd_elements = filter_elements(&t, &forward);
    assert_eq!(fwd_elements, vec![div, p1, span, p2]);
}

#[test]
fn elements_in_namespace_filter() {
    let mut t = Tree::new();
    let div = new_el(&mut t, "div");
    let foreign = t.new_element(
        QualName::new(Some("c".to_string()), "urn:c".to_string(), "widget".to_string()),
        Attributes::new(),
    );
    t.append(div, foreign);

    let all = inclusive_descendants(&t, div);
    let in_ns = brik::iter::filter_elements_in_ns(&t, &all, "urn:c");
    assert_eq!(in_ns, vec![foreign]);
    let in_html = brik::iter::filter_elements_in_ns(&t, &all, "http://www.w3.org/1999/xhtml");
    assert_eq!(in_html, vec![div]);
}

#[test]
fn ancestors_walks_upward() {
    let mut t = Tree::new();
    let doc = t.new_document();
    let html = new_el(&mut t, "html");
    let body = new_el(&mut t, "body");
    let div = new_el(&mut t, "div");
    t.append(doc, html);
    t.append(html, body);
    t.append(body, div);

    assert_eq!(ancestors(&t, div), vec![body, html, doc]);
    assert_eq!(ancestors(&t, doc), Vec::<usize>::new());
}

#[test]
fn text_contents_concatenates() {
    let mut t = Tree::new();
    let div = new_el(&mut t, "div");
    let hello = t.new_text("Hello ".to_string());
    let b = new_el(&mut t, "b");
    let world = t.new_text("World".to_string());
    let bang = t.new_text("!".to_string());
    t.append(div, hello);
    t.append(div, b);
    t.append(b, world);
    t.append(div, bang);

    assert_eq!(text_contents(&t, div), "Hello World!");
}

#[test]
fn deep_chain_of_single_children() {
    // A right-leaning chain of 100,000 single-child elements; building it
    // and dropping the whole store completes without stack overflow, since
    // nodes own no recursive structure.
    let mut t = Tree::new();
    let root = new_el(&mut t, "div");
    let mut cur = root;
    for _ in 0..100_000 {
        let next = new_el(&mut t, "div");
        t.append(cur, next);
        cur = next;
    }
    assert_eq!(t.len(), 100_001);
    let walk = traverse(&t, root);
    assert_eq!(walk.len(), 2 * 100_001);
    drop(t);
}

#[test]
fn detach_leaves_subtree_intact() {
    let mut t = Tree::new();
    let parent = new_el(&mut t, "div");
    let mid = new_el(&mut t, "section");
    let leaf = t.new_text("x".to_string());
    t.append(parent, mid);
    t.append(mid, leaf);

    t.detach(mid);

    // The detached node keeps its own children; only the upward link is cut.
    assert!(t.parent(mid).is_none());
    assert_eq!(t.children(mid), vec![leaf]);
    assert_eq!(t.children(parent), Vec::<usize>::new());
}

#[test]
fn reparent_children_moves_all() {
    let mut t = Tree::new();
    let from = new_el(&mut t, "div");
    let to = new_el(&mut t, "section");
    let a = t.new_text("a".to_string());
    let b = t.new_text("b".to_string());
    let existing = t.new_text("e".to_string());
    t.append(from, a);
    t.append(from, b);
    t.append(to, existing);

    t.reparent_children(from, to);

    assert_eq!(t.children(from), Vec::<usize>::new());
    assert_eq!(t.children(to), vec![existing, a, b]);
    assert_eq!(t.parent(a), Some(to));
    assert_eq!(t.parent(b), Some(to));
}

#[test]
fn add_attrs_if_missing_keeps_existing() {
    let mut t = Tree::new();
    let mut attrs = Attributes::new();
    attrs.insert_ns("", "id", None, "orig".to_string());
    let el = t.new_element(el_name("div"), attrs);

    let mut more = Attributes::new();
    more.insert_ns("", "id", None, "clobber".to_string());
    more.insert_ns("", "lang", None, "en".to_string());
    t.add_attrs_if_missing(el, &more);

    match t.data(el) {
        NodeData::Element(e) => {
            assert_eq!(e.attributes.get("id"), Some("orig"));
            assert_eq!(e.attributes.get("lang"), Some("en"));
        }
        _ => panic!("expected an element"),
    }
}

#[test]
fn set_quirks_mode() {
    let mut t = Tree::new();
    let doc = t.new_document();
    t.set_quirks_mode(doc, QuirksMode::Quirks);

    match t.data(doc) {
        NodeData::Document(d) => assert_eq!(d.quirks_mode, QuirksMode::Quirks),
        _ => panic!("expected a document"),
    }
}
