//! The capability surface handed to a selector-matching engine: the
//! predicates it may ask of an element — names, classes, identifiers,
//! attribute values, link-ness, rootness and emptiness — computed over the
//! node store.
//!
//! The selector grammar, specificity ordering and cascade are an external
//! engine's business; only these predicates are this crate's logic.

use vstd::prelude::*;

verus! {

use crate::text::str_eq;
use crate::tree::NodeData;
use crate::tree::Tree;
use vstd::string::StrSliceExecFns;

/// Supported pseudo-classes for element matching.
#[derive(PartialEq, Eq, Clone, Debug, Hash)]
pub enum PseudoClass {
    /// `:any-link`.
    AnyLink,
    /// `:link`.
    Link,
    /// `:visited`.
    Visited,
    /// `:active`.
    Active,
    /// `:focus`.
    Focus,
    /// `:hover`.
    Hover,
    /// `:enabled`.
    Enabled,
    /// `:disabled`.
    Disabled,
    /// `:checked`.
    Checked,
    /// `:indeterminate`.
    Indeterminate,
}

impl PseudoClass {
    /// Whether this is one of the active or hover states.
    pub fn is_active_or_hover(&self) -> (r: bool)
        ensures
            r == (*self is Active || *self is Hover),
    {
        match self {
            PseudoClass::Active => true,
            PseudoClass::Hover => true,
            _ => false,
        }
    }

    /// Whether this is a user action state: active, hover, or focus.
    pub fn is_user_action_state(&self) -> (r: bool)
        ensures
            r == (*self is Active || *self is Hover || *self is Focus),
    {
        match self {
            PseudoClass::Active => true,
            PseudoClass::Hover => true,
            PseudoClass::Focus => true,
            _ => false,
        }
    }

    /// The selector text of this pseudo-class.
    pub fn css_text(&self) -> (r: String)
        ensures
            r@ == match self {
                PseudoClass::AnyLink => ":any-link"@,
                PseudoClass::Link => ":link"@,
                PseudoClass::Visited => ":visited"@,
                PseudoClass::Active => ":active"@,
                PseudoClass::Focus => ":focus"@,
                PseudoClass::Hover => ":hover"@,
                PseudoClass::Enabled => ":enabled"@,
                PseudoClass::Disabled => ":disabled"@,
                PseudoClass::Checked => ":checked"@,
                PseudoClass::Indeterminate => ":indeterminate"@,
            },
    {
        let mut s = String::new();
        match self {
            PseudoClass::AnyLink => s.append(":any-link"),
            PseudoClass::Link => s.append(":link"),
            PseudoClass::Visited => s.append(":visited"),
            PseudoClass::Active => s.append(":active"),
            PseudoClass::Focus => s.append(":focus"),
            PseudoClass::Hover => s.append(":hover"),
            PseudoClass::Enabled => s.append(":enabled"),
            PseudoClass::Disabled => s.append(":disabled"),
            PseudoClass::Checked => s.append(":checked"),
            PseudoClass::Indeterminate => s.append(":indeterminate"),
        }
        s
    }

    /// The pseudo-class a selector names, compared without regard to ASCII
    /// case; `None` for an unsupported name.
    pub fn parse_name(name: &str) -> (r: Option<PseudoClass>)
        ensures
            r == spec_parse_pseudo_class(name@),
    {
        if str_eq_ascii_ci(name, "any-link") {
            Some(PseudoClass::AnyLink)
        } else if str_eq_ascii_ci(name, "link") {
            Some(PseudoClass::Link)
        } else if str_eq_ascii_ci(name, "visited") {
            Some(PseudoClass::Visited)
        } else if str_eq_ascii_ci(name, "active") {
            Some(PseudoClass::Active)
        } else if str_eq_ascii_ci(name, "focus") {
            Some(PseudoClass::Focus)
        } else if str_eq_ascii_ci(name, "hover") {
            Some(PseudoClass::Hover)
        } else if str_eq_ascii_ci(name, "enabled") {
            Some(PseudoClass::Enabled)
        } else if str_eq_ascii_ci(name, "disabled") {
            Some(PseudoClass::Disabled)
        } else if str_eq_ascii_ci(name, "checked") {
            Some(PseudoClass::Checked)
        } else if str_eq_ascii_ci(name, "indeterminate") {
            Some(PseudoClass::Indeterminate)
        } else {
            None
        }
    }
}

/// The pseudo-class each supported name denotes, without regard to ASCII
/// case.
pub open spec fn spec_parse_pseudo_class(name: Seq<char>) -> Option<PseudoClass> {
    if chars_eq_ci(name, "any-link"@, true) {
        Some(PseudoClass::AnyLink)
    } else if chars_eq_ci(name, "link"@, true) {
        Some(PseudoClass::Link)
    } else if chars_eq_ci(name, "visited"@, true) {
        Some(PseudoClass::Visited)
    } else if chars_eq_ci(name, "active"@, true) {
        Some(PseudoClass::Active)
    } else if chars_eq_ci(name, "focus"@, true) {
        Some(PseudoClass::Focus)
    } else if chars_eq_ci(name, "hover"@, true) {
        Some(PseudoClass::Hover)
    } else if chars_eq_ci(name, "enabled"@, true) {
        Some(PseudoClass::Enabled)
    } else if chars_eq_ci(name, "disabled"@, true) {
        Some(PseudoClass::Disabled)
    } else if chars_eq_ci(name, "checked"@, true) {
        Some(PseudoClass::Checked)
    } else if chars_eq_ci(name, "indeterminate"@, true) {
        Some(PseudoClass::Indeterminate)
    } else {
        None
    }
}

/// Pseudo-elements; none are supported.
#[derive(PartialEq, Eq, Clone, Debug, Hash)]
pub enum PseudoElement {
    /// Never constructed; the engine is told no pseudo-element exists.
    Unsupported,
}

/// The specificity of one selector, as packed by the selector engine.
#[derive(Debug, Clone, Copy, PartialEq, Eq, PartialOrd, Ord, Structural)]
pub struct Specificity(pub u32);

/// A string wrapper for attribute values handed to the selector engine.
#[derive(Debug, Clone, Eq, PartialEq)]
pub struct AttrValue(pub String);

impl AttrValue {
    /// The held characters.
    pub fn as_str(&self) -> (r: &str)
        ensures
            r@ == self.0@,
    {
        self.0.as_str()
    }
}

impl From<String> for AttrValue {
    /// Wraps an owned string.
    fn from(s: String) -> (r: AttrValue)
        ensures
            r.0@ == s@,
    {
        AttrValue(s)
    }
}

impl vstd::std_specs::convert::FromSpecImpl<String> for AttrValue {
    open spec fn obeys_from_spec() -> bool {
        true
    }

    open spec fn from_spec(s: String) -> AttrValue {
        AttrValue(s)
    }
}

impl<'a> From<&'a str> for AttrValue {
    /// Copies a string slice.
    fn from(s: &'a str) -> (r: AttrValue)
        ensures
            r.0@ == s@,
    {
        AttrValue(s.to_owned())
    }
}

impl<'a> vstd::std_specs::convert::FromSpecImpl<&'a str> for AttrValue {
    open spec fn obeys_from_spec() -> bool {
        false
    }

    open spec fn from_spec(s: &'a str) -> AttrValue {
        vstd::pervasive::arbitrary()
    }
}

/// ASCII lower-casing of a character's scalar value.
pub open spec fn lower_u32(c: u32) -> u32 {
    if 65 <= c <= 90 {
        (c + 32) as u32
    } else {
        c
    }
}

/// Whether two character sequences are equal, optionally without regard to
/// ASCII case.
pub open spec fn chars_eq_ci(a: Seq<char>, b: Seq<char>, ci: bool) -> bool {
    a.len() == b.len() && forall|i: int|
        0 <= i < a.len() ==> (if ci {
            lower_u32((#[trigger] a[i]) as u32) == lower_u32(b[i] as u32)
        } else {
            a[i] == b[i]
        })
}

/// Whether two strings are equal without regard to ASCII case.
pub fn str_eq_ascii_ci(a: &str, b: &str) -> (r: bool)
    ensures
        r == chars_eq_ci(a@, b@, true),
{
    let alen = a.unicode_len();
    let blen = b.unicode_len();
    if alen != blen {
        return false;
    }
    let mut i: usize = 0;
    while i < alen
        invariant
            alen == a@.len(),
            blen == b@.len(),
            alen == blen,
            i <= alen,
            forall|j: int| 0 <= j < i ==> lower_u32((#[trigger] a@[j]) as u32) == lower_u32(
                b@[j] as u32,
            ),
        decreases alen - i,
    {
        let ca = a.get_char(i) as u32;
        let cb = b.get_char(i) as u32;
        let la = if 65 <= ca && ca <= 90 {
            ca + 32
        } else {
            ca
        };
        let lb = if 65 <= cb && cb <= 90 {
            cb + 32
        } else {
            cb
        };
        if la != lb {
            return false;
        }
        i = i + 1;
    }
    true
}

/// Whether two strings are equal under the given case sensitivity: exact,
/// or without regard to ASCII case.
pub fn str_eq_cs(a: &str, b: &str, ci: bool) -> (r: bool)
    ensures
        r == chars_eq_ci(a@, b@, ci),
{
    if ci {
        str_eq_ascii_ci(a, b)
    } else {
        let r = str_eq(a, b);
        proof {
            if a@ == b@ {
                assert(chars_eq_ci(a@, b@, false));
            }
            if chars_eq_ci(a@, b@, false) {
                assert(a@ =~= b@);
            }
        }
        r
    }
}

/// Whether `c` is selector whitespace: space, tab, line feed, carriage
/// return, or form feed.
pub open spec fn sel_ws(c: char) -> bool {
    c == ' ' || c == '\t' || c == '\n' || c == '\r' || c == '\x0C'
}

/// The first non-whitespace position in `s` at or after `pos`.
pub open spec fn class_skip_ws(s: Seq<char>, pos: int) -> int
    decreases s.len() - pos,
    when 0 <= pos
{
    if pos >= s.len() {
        s.len() as int
    } else if sel_ws(s[pos]) {
        class_skip_ws(s, pos + 1)
    } else {
        pos
    }
}

/// The end of the class word starting at `pos`: the next whitespace.
pub open spec fn class_word_end(s: Seq<char>, pos: int) -> int
    decreases s.len() - pos,
    when 0 <= pos
{
    if pos >= s.len() {
        s.len() as int
    } else if sel_ws(s[pos]) {
        pos
    } else {
        class_word_end(s, pos + 1)
    }
}

/// Whether some whitespace-separated word of `s` at or after `pos` equals
/// `name` under the given case sensitivity.
pub open spec fn class_match_from(s: Seq<char>, pos: int, name: Seq<char>, ci: bool) -> bool
    decreases s.len() - pos,
    when 0 <= pos
{
    let p = class_skip_ws(s, pos);
    if p >= s.len() {
        false
    } else {
        let e = class_word_end(s, p);
        if chars_eq_ci(s.subrange(p, e), name, ci) {
            true
        } else if e <= pos || e > s.len() {
            false
        } else {
            class_match_from(s, e, name, ci)
        }
    }
}

/// Law: class matching. A class attribute value matches a queried name
/// exactly when the name is non-empty and one of the value's
/// whitespace-separated words equals it under the chosen case sensitivity;
/// the empty name never matches.
pub open spec fn class_matches(value: Seq<char>, name: Seq<char>, ci: bool) -> bool {
    name.len() > 0 && class_match_from(value, 0, name, ci)
}

proof fn lemma_class_skip_ws_bounds(s: Seq<char>, pos: int)
    requires
        0 <= pos <= s.len(),
    ensures
        pos <= class_skip_ws(s, pos) <= s.len(),
    decreases s.len() - pos,
{
    if pos < s.len() && sel_ws(s[pos]) {
        lemma_class_skip_ws_bounds(s, pos + 1);
    }
}

proof fn lemma_class_word_end_bounds(s: Seq<char>, pos: int)
    requires
        0 <= pos <= s.len(),
    ensures
        pos <= class_word_end(s, pos) <= s.len(),
    decreases s.len() - pos,
{
    if pos < s.len() && !sel_ws(s[pos]) {
        lemma_class_word_end_bounds(s, pos + 1);
    }
}

/// Law: under case-insensitive comparison, any two casings of a name match
/// the same class attribute values.
pub proof fn lemma_class_matching_case_insensitive(value: Seq<char>, n1: Seq<char>, n2: Seq<char>)
    requires
        chars_eq_ci(n1, n2, true),
    ensures
        class_matches(value, n1, true) == class_matches(value, n2, true),
{
    lemma_class_match_from_ci(value, 0, n1, n2);
}

proof fn lemma_class_match_from_ci(value: Seq<char>, pos: int, n1: Seq<char>, n2: Seq<char>)
    requires
        0 <= pos,
        chars_eq_ci(n1, n2, true),
    ensures
        class_match_from(value, pos, n1, true) == class_match_from(value, pos, n2, true),
    decreases value.len() - pos,
{
    let p = class_skip_ws(value, pos);
    if pos <= value.len() {
        lemma_class_skip_ws_bounds(value, pos);
        if p < value.len() {
            let e = class_word_end(value, p);
            lemma_class_word_end_bounds(value, p);
            let w = value.subrange(p, e);
            assert(chars_eq_ci(w, n1, true) == chars_eq_ci(w, n2, true));
            if !chars_eq_ci(w, n1, true) && e > pos {
                lemma_class_match_from_ci(value, e, n1, n2);
            }
        }
    } else {
        assert(p == class_skip_ws(value, pos));
    }
}

/// Law: the empty name matches no class attribute value.
pub proof fn lemma_empty_class_never_matches(value: Seq<char>, ci: bool)
    ensures
        !class_matches(value, Seq::<char>::empty(), ci),
{
}

fn cls_skip_ws(value: &str, pos: usize) -> (r: usize)
    requires
        pos <= value@.len(),
    ensures
        r == class_skip_ws(value@, pos as int),
        pos <= r <= value@.len(),
        r < value@.len() ==> !sel_ws(value@[r as int]),
{
    let n = value.unicode_len();
    let mut p = pos;
    while p < n
        invariant
            n == value@.len(),
            pos <= p <= n,
            class_skip_ws(value@, pos as int) == class_skip_ws(value@, p as int),
        decreases n - p,
    {
        let c = value.get_char(p);
        if !(c == ' ' || c == '\t' || c == '\n' || c == '\r' || c == '\x0C') {
            proof {
                assert(class_skip_ws(value@, p as int) == p);
            }
            return p;
        }
        p = p + 1;
    }
    p
}

fn cls_word_end(value: &str, pos: usize) -> (r: usize)
    requires
        pos <= value@.len(),
    ensures
        r == class_word_end(value@, pos as int),
        pos <= r <= value@.len(),
{
    let n = value.unicode_len();
    let mut p = pos;
    while p < n
        invariant
            n == value@.len(),
            pos <= p <= n,
            class_word_end(value@, pos as int) == class_word_end(value@, p as int),
        decreases n - p,
    {
        let c = value.get_char(p);
        if c == ' ' || c == '\t' || c == '\n' || c == '\r' || c == '\x0C' {
            proof {
                assert(class_word_end(value@, p as int) == p);
            }
            return p;
        }
        p = p + 1;
    }
    p
}

fn word_matches(value: &str, p: usize, e: usize, name: &str, ci: bool) -> (r: bool)
    requires
        p <= e <= value@.len(),
    ensures
        r == chars_eq_ci(value@.subrange(p as int, e as int), name@, ci),
{
    let ghost w = value@.subrange(p as int, e as int);
    let nlen = name.unicode_len();
    if e - p != nlen {
        return false;
    }
    let mut j: usize = 0;
    while j < nlen
        invariant
            nlen == name@.len(),
            p <= e <= value@.len(),
            e - p == nlen,
            j <= nlen,
            w == value@.subrange(p as int, e as int),
            forall|m: int|
                0 <= m < j ==> (if ci {
                    lower_u32((#[trigger] w[m]) as u32) == lower_u32(name@[m] as u32)
                } else {
                    w[m] == name@[m]
                }),
        decreases nlen - j,
    {
        let cv = value.get_char(p + j) as u32;
        let cn = name.get_char(j) as u32;
        proof {
            assert(w[j as int] == value@[p + j]);
        }
        if ci {
            let lv = if 65 <= cv && cv <= 90 {
                cv + 32
            } else {
                cv
            };
            let ln = if 65 <= cn && cn <= 90 {
                cn + 32
            } else {
                cn
            };
            if lv != ln {
                return false;
            }
        } else {
            if cv != cn {
                return false;
            }
            proof {
                vstd::utf8::char_u32_cast(w[j as int], cv);
                vstd::utf8::char_u32_cast(name@[j as int], cn);
            }
        }
        j = j + 1;
    }
    proof {
        assert(chars_eq_ci(w, name@, ci));
    }
    true
}

/// Whether some whitespace-separated word of the class attribute value
/// equals `name` under the given case sensitivity; the empty name never
/// matches.
pub fn class_value_matches(value: &str, name: &str, ci: bool) -> (r: bool)
    ensures
        r == class_matches(value@, name@, ci),
{
    let nlen = name.unicode_len();
    if nlen == 0 {
        return false;
    }
    let vlen = value.unicode_len();
    let mut pos: usize = 0;
    loop
        invariant
            vlen == value@.len(),
            nlen == name@.len(),
            nlen > 0,
            pos <= vlen,
            class_match_from(value@, 0, name@, ci) == class_match_from(
                value@,
                pos as int,
                name@,
                ci,
            ),
        decreases vlen - pos,
    {
        let p = cls_skip_ws(value, pos);
        if p >= vlen {
            return false;
        }
        let e = cls_word_end(value, p);
        proof {
            assert(e > p) by {
                assert(class_word_end(value@, p as int) == class_word_end(value@, p + 1));
                lemma_class_word_end_bounds(value@, p + 1);
            }
        }
        if word_matches(value, p, e, name, ci) {
            return true;
        }
        proof {
            assert(class_match_from(value@, pos as int, name@, ci) == class_match_from(
                value@,
                e as int,
                name@,
                ci,
            ));
        }
        pos = e;
    }
}

/// Whether node `i` is an element whose attributes hold one entry per name.
pub open spec fn element_wf(t: Tree, i: int) -> bool {
    match t.data_of(i) {
        NodeData::Element(e) => e.attributes.wf(),
        _ => false,
    }
}

/// The value of the attribute of element `i` with key `k`, when present.
pub open spec fn attr_of(t: Tree, i: int, k: (Seq<char>, Seq<char>)) -> Option<Seq<char>> {
    match t.data_of(i) {
        NodeData::Element(e) => if e.attributes.contains_key(k) {
            let j = choose|j: int|
                0 <= j < e.attributes@.len() && (#[trigger] e.attributes@[j]).0.key() == k;
            Some(e.attributes@[j].1.value@)
        } else {
            None
        },
        _ => None,
    }
}

/// Whether element `i` has the given local name.
pub fn has_local_name(t: &Tree, i: usize, name: &str) -> (r: bool)
    requires
        t.in_range(i as int),
        t.data_of(i as int) is Element,
    ensures
        r == match t.data_of(i as int) {
            NodeData::Element(e) => e.name.local@ == name@,
            _ => false,
        },
{
    match t.data(i) {
        NodeData::Element(e) => str_eq(e.name.local.as_str(), name),
        _ => false,
    }
}

/// Whether element `i` lies in the given namespace.
pub fn has_namespace(t: &Tree, i: usize, ns: &str) -> (r: bool)
    requires
        t.in_range(i as int),
        t.data_of(i as int) is Element,
    ensures
        r == match t.data_of(i as int) {
            NodeData::Element(e) => e.name.ns@ == ns@,
            _ => false,
        },
{
    match t.data(i) {
        NodeData::Element(e) => str_eq(e.name.ns.as_str(), ns),
        _ => false,
    }
}

/// Whether two elements have the same qualified name.
pub fn is_same_type(t: &Tree, i: usize, j: usize) -> (r: bool)
    requires
        t.in_range(i as int),
        t.in_range(j as int),
        t.data_of(i as int) is Element,
        t.data_of(j as int) is Element,
    ensures
        r == match (t.data_of(i as int), t.data_of(j as int)) {
            (NodeData::Element(a), NodeData::Element(b)) => a.name.expanded() == b.name.expanded(),
            _ => false,
        },
{
    let da = t.data(i);
    let db = t.data(j);
    match (da, db) {
        (NodeData::Element(a), NodeData::Element(b)) => str_eq(
            a.name.ns.as_str(),
            b.name.ns.as_str(),
        ) && str_eq(a.name.local.as_str(), b.name.local.as_str()),
        _ => false,
    }
}

/// Whether element `i` carries a class equal to `name` under the given
/// case sensitivity. The empty name matches no element.
pub fn has_class(t: &Tree, i: usize, name: &str, ci: bool) -> (r: bool)
    requires
        t.in_range(i as int),
        element_wf(*t, i as int),
    ensures
        r == match attr_of(*t, i as int, (Seq::empty(), "class"@)) {
            Some(v) => class_matches(v, name@, ci),
            None => false,
        },
{
    match t.data(i) {
        NodeData::Element(e) => {
            match e.attributes.get("class") {
                Some(v) => {
                    proof {
                        reveal_strlit("");
                        assert(""@ =~= Seq::<char>::empty());
                    }
                    class_value_matches(v, name, ci)
                },
                None => {
                    proof {
                        reveal_strlit("");
                        assert(""@ =~= Seq::<char>::empty());
                    }
                    false
                },
            }
        },
        _ => false,
    }
}

/// Whether element `i` has an `id` attribute equal to `id` under the given
/// case sensitivity.
pub fn has_id(t: &Tree, i: usize, id: &str, ci: bool) -> (r: bool)
    requires
        t.in_range(i as int),
        element_wf(*t, i as int),
    ensures
        r == match attr_of(*t, i as int, (Seq::empty(), "id"@)) {
            Some(v) => chars_eq_ci(v, id@, ci),
            None => false,
        },
{
    match t.data(i) {
        NodeData::Element(e) => {
            match e.attributes.get("id") {
                Some(v) => {
                    proof {
                        reveal_strlit("");
                        assert(""@ =~= Seq::<char>::empty());
                    }
                    str_eq_cs(v, id, ci)
                },
                None => {
                    proof {
                        reveal_strlit("");
                        assert(""@ =~= Seq::<char>::empty());
                    }
                    false
                },
            }
        },
        _ => false,
    }
}

/// Whether element `i` is a link: an `a`, `area` or `link` element in the
/// HTML namespace carrying an `href` attribute in the null namespace.
pub fn is_link(t: &Tree, i: usize) -> (r: bool)
    requires
        t.in_range(i as int),
        t.data_of(i as int) is Element,
    ensures
        r == match t.data_of(i as int) {
            NodeData::Element(e) => {
                &&& e.name.ns@ == "http://www.w3.org/1999/xhtml"@
                &&& (e.name.local@ == "a"@ || e.name.local@ == "area"@ || e.name.local@
                    == "link"@)
                &&& e.attributes.contains_key((Seq::empty(), "href"@))
            },
            _ => false,
        },
{
    match t.data(i) {
        NodeData::Element(e) => {
            let r = str_eq(e.name.ns.as_str(), "http://www.w3.org/1999/xhtml") && (str_eq(
                e.name.local.as_str(),
                "a",
            ) || str_eq(e.name.local.as_str(), "area") || str_eq(e.name.local.as_str(), "link"))
                && e.attributes.contains("href");
            proof {
                reveal_strlit("");
                assert(""@ =~= Seq::<char>::empty());
            }
            r
        },
        _ => false,
    }
}

/// Whether element `i` is the document's root element: its parent is the
/// document node.
pub fn is_root(t: &Tree, i: usize) -> (r: bool)
    requires
        t.wf(),
        t.in_range(i as int),
    ensures
        r == match t.parent_of(i as int) {
            Some(p) => t.data_of(p as int) is Document,
            None => false,
        },
{
    match t.parent(i) {
        None => false,
        Some(p) => {
            match t.data(p) {
                NodeData::Document(_) => true,
                _ => false,
            }
        },
    }
}

/// Whether element `i` is empty in the selector sense: every child is
/// either an element (which disqualifies) or a text node whose string is
/// empty; comments and other kinds do not count.
pub fn is_empty_element(t: &Tree, i: usize) -> (r: bool)
    requires
        t.wf(),
        t.in_range(i as int),
    ensures
        r == (forall|k: int|
            0 <= k < t.children_of(i as int).len() ==> match t.data_of(
                (#[trigger] t.children_of(i as int)[k]) as int,
            ) {
                NodeData::Element(_) => false,
                NodeData::Text(v) => v@.len() == 0,
                _ => true,
            }),
{
    let n = t.child_count(i);
    let mut k: usize = 0;
    while k < n
        invariant
            t.wf(),
            t.in_range(i as int),
            n == t.children_of(i as int).len(),
            k <= n,
            forall|m: int|
                0 <= m < k ==> match t.data_of((#[trigger] t.children_of(i as int)[m]) as int) {
                    NodeData::Element(_) => false,
                    NodeData::Text(v) => v@.len() == 0,
                    _ => true,
                },
        decreases n - k,
    {
        let c = t.child_at(i, k);
        match t.data(c) {
            NodeData::Element(_) => {
                return false;
            },
            NodeData::Text(v) => {
                if v.as_str().unicode_len() > 0 {
                    return false;
                }
            },
            _ => {},
        }
        k = k + 1;
    }
    true
}

/// The values of every attribute of element `i` whose local name is
/// `local`, across all namespaces, in attribute order.
pub fn attr_values_with_local(t: &Tree, i: usize, local: &str) -> (r: Vec<String>)
    requires
        t.in_range(i as int),
        t.data_of(i as int) is Element,
    ensures
        match t.data_of(i as int) {
            NodeData::Element(e) => r@.map_values(|v: String| v@) == values_with_local(
                e.attributes@,
                local@,
            ),
            _ => false,
        },
{
    match t.data(i) {
        NodeData::Element(e) => {
            let n = e.attributes.len();
            let mut out: Vec<String> = Vec::new();
            let mut k: usize = 0;
            proof {
                assert(out@.map_values(|v: String| v@) =~= values_with_local(
                    e.attributes@.subrange(0, 0),
                    local@,
                ));
            }
            while k < n
                invariant
                    n == e.attributes@.len(),
                    k <= n,
                    out@.map_values(|v: String| v@) == values_with_local(
                        e.attributes@.subrange(0, k as int),
                        local@,
                    ),
                decreases n - k,
            {
                let ghost prefix = e.attributes@.subrange(0, k as int);
                let ghost out0 = out@;
                let entry = e.attributes.entry_at(k);
                if str_eq(entry.0.local.as_str(), local) {
                    out.push(entry.1.value.clone());
                    proof {
                        assert(out@.map_values(|v: String| v@) =~= out0.map_values(
                            |v: String| v@,
                        ).push(entry.1.value@));
                    }
                }
                proof {
                    let ext = e.attributes@.subrange(0, k + 1 as int);
                    assert(ext =~= prefix.push(e.attributes@[k as int]));
                    assert(ext.drop_last() =~= prefix);
                }
                k = k + 1;
            }
            proof {
                assert(e.attributes@.subrange(0, n as int) =~= e.attributes@);
            }
            out
        },
        _ => Vec::new(),
    }
}

/// The values of the attributes among `s` whose local name is `local`, in
/// order.
pub open spec fn values_with_local(
    s: Seq<(crate::attributes::ExpandedName, crate::attributes::Attribute)>,
    local: Seq<char>,
) -> Seq<Seq<char>>
    decreases s.len(),
{
    if s.len() == 0 {
        Seq::empty()
    } else {
        let rest = values_with_local(s.drop_last(), local);
        if s.last().0.local@ == local {
            rest.push(s.last().1.value@)
        } else {
            rest
        }
    }
}

/// The value of the attribute of element `i` with the given namespace and
/// local name, if any.
pub fn attr_value_in_ns(t: &Tree, i: usize, ns: &str, local: &str) -> (r: Option<String>)
    requires
        t.in_range(i as int),
        t.data_of(i as int) is Element,
    ensures
        match t.data_of(i as int) {
            NodeData::Element(e) => match r {
                Some(v) => exists|j: int|
                    0 <= j < e.attributes@.len() && (#[trigger] e.attributes@[j]).0.key() == (
                    ns@,
                    local@,
                ) && v@ == e.attributes@[j].1.value@,
                None => !e.attributes.contains_key((ns@, local@)),
            },
            _ => false,
        },
{
    match t.data(i) {
        NodeData::Element(e) => {
            match e.attributes.get_ns(ns, local) {
                Some(v) => Some(v.to_owned()),
                None => None,
            }
        },
        _ => None,
    }
}

} // verus!