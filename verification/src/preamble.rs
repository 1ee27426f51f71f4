//! A minimal scanner that locates and analyzes the `html` tag at the top of
//! a markup document.
//!
//! The scanner reads only the beginning of a document: it skips processing
//! instructions, doctypes (with an optional internal subset), comments, and
//! stray content, until it finds the case-insensitive `html` tag, whose
//! attributes must then be well-formed. It records byte positions of the
//! tag and of every `xmlns:*` declaration on it, so that callers can slice
//! prefixes and URIs out of the original text without copying the document.

use vstd::prelude::*;

verus! {

use crate::ns::NsError;
use crate::ns::NsResult;
use vstd::string::StringSliceAdditionalSpecFns;
use vstd::string::StrSliceExecFns;

/// A byte position span in the source markup: start and end.
pub type Span = (usize, usize);

/// Positions for one `xmlns:*` attribute: the prefix span and the URI span.
pub type XmlnsPositions = (Span, Span);

/// Whether `c` is markup whitespace: space, tab, line feed, carriage
/// return, or form feed.
pub open spec fn is_ws(c: u8) -> bool {
    c == 32 || c == 9 || c == 10 || c == 13 || c == 12
}

/// ASCII lower-casing of one byte.
pub open spec fn lower(c: u8) -> u8 {
    if 65 <= c <= 90 {
        (c + 32) as u8
    } else {
        c
    }
}

/// The first position at or after `from` where `pat` occurs in `b`, or `-1`.
pub open spec fn find_sub(b: Seq<u8>, pat: Seq<u8>, from: int) -> int
    decreases b.len() - from,
    when 0 <= from && pat.len() > 0
{
    if from + pat.len() > b.len() {
        -1
    } else if b.subrange(from, from + pat.len() as int) == pat {
        from
    } else {
        find_sub(b, pat, from + 1)
    }
}

/// The first non-whitespace position at or after `pos`, or the length.
pub open spec fn skip_ws(b: Seq<u8>, pos: int) -> int
    decreases b.len() - pos,
    when 0 <= pos
{
    if pos >= b.len() {
        b.len() as int
    } else if is_ws(b[pos]) {
        skip_ws(b, pos + 1)
    } else {
        pos
    }
}

/// Whether `c` ends an attribute name: whitespace, `=`, `>`, or `/`.
pub open spec fn ends_name(c: u8) -> bool {
    is_ws(c) || c == 61 || c == 62 || c == 47
}

/// The end of the attribute name starting at `pos`.
pub open spec fn name_end(b: Seq<u8>, pos: int) -> int
    decreases b.len() - pos,
    when 0 <= pos
{
    if pos >= b.len() {
        b.len() as int
    } else if ends_name(b[pos]) {
        pos
    } else {
        name_end(b, pos + 1)
    }
}

/// The end of the unquoted attribute value starting at `pos`: the next
/// whitespace or `>`.
pub open spec fn unquoted_end(b: Seq<u8>, pos: int) -> int
    decreases b.len() - pos,
    when 0 <= pos
{
    if pos >= b.len() {
        b.len() as int
    } else if is_ws(b[pos]) || b[pos] == 62 {
        pos
    } else {
        unquoted_end(b, pos + 1)
    }
}

proof fn lemma_skip_ws_bounds(b: Seq<u8>, pos: int)
    requires
        0 <= pos <= b.len(),
    ensures
        pos <= skip_ws(b, pos) <= b.len(),
    decreases b.len() - pos,
{
    if pos < b.len() && is_ws(b[pos]) {
        lemma_skip_ws_bounds(b, pos + 1);
    }
}

proof fn lemma_name_end_bounds(b: Seq<u8>, pos: int)
    requires
        0 <= pos <= b.len(),
    ensures
        pos <= name_end(b, pos) <= b.len(),
    decreases b.len() - pos,
{
    if pos < b.len() && !ends_name(b[pos]) {
        lemma_name_end_bounds(b, pos + 1);
    }
}

proof fn lemma_unquoted_end_bounds(b: Seq<u8>, pos: int)
    requires
        0 <= pos <= b.len(),
    ensures
        pos <= unquoted_end(b, pos) <= b.len(),
    decreases b.len() - pos,
{
    if pos < b.len() && !(is_ws(b[pos]) || b[pos] == 62) {
        lemma_unquoted_end_bounds(b, pos + 1);
    }
}

proof fn lemma_find_sub_bounds(b: Seq<u8>, pat: Seq<u8>, from: int)
    requires
        0 <= from,
        pat.len() > 0,
    ensures
        find_sub(b, pat, from) == -1 || from <= find_sub(b, pat, from) && find_sub(b, pat, from)
            + pat.len() <= b.len(),
    decreases b.len() - from,
{
    if from + pat.len() > b.len() {
    } else if b.subrange(from, from + pat.len() as int) == pat {
    } else {
        lemma_find_sub_bounds(b, pat, from + 1);
    }
}

/// The byte sequence `xmlns:`.
pub open spec fn xmlns_colon() -> Seq<u8> {
    seq![120u8, 109u8, 108u8, 110u8, 115u8, 58u8]
}

/// One step of the attribute scan: where the scan continues after the
/// attribute at `p` (with name ending at `ne`), and the value span if the
/// attribute has a value. `None` when the attribute is malformed.
pub open spec fn attr_step(b: Seq<u8>, p: int, ne: int) -> Option<(int, Option<(int, int)>)> {
    if ne < b.len() && b[ne] == 61 {
        if ne + 1 < b.len() && (b[ne + 1] == 34 || b[ne + 1] == 39) {
            let q = b[ne + 1];
            let close = find_byte(b, q, ne + 2);
            if close < 0 {
                None
            } else {
                Some((close + 1, Some((ne + 2, close))))
            }
        } else {
            let ve = unquoted_end(b, ne + 1);
            Some((ve, Some((ne + 1, ve))))
        }
    } else {
        Some((ne, None))
    }
}

/// The first position at or after `from` holding byte `c`, or `-1`.
pub open spec fn find_byte(b: Seq<u8>, c: u8, from: int) -> int
    decreases b.len() - from,
    when 0 <= from
{
    if from >= b.len() {
        -1
    } else if b[from] == c {
        from
    } else {
        find_byte(b, c, from + 1)
    }
}

proof fn lemma_find_byte_bounds(b: Seq<u8>, c: u8, from: int)
    requires
        0 <= from,
    ensures
        find_byte(b, c, from) == -1 || from <= find_byte(b, c, from) < b.len(),
    decreases b.len() - from,
{
    if from < b.len() && b[from] != c {
        lemma_find_byte_bounds(b, c, from + 1);
    }
}

/// The result of scanning the attribute list of the `html` tag from `pos`:
/// the position where the tag close starts, the position after it, and the
/// recorded `xmlns:*` spans; or `None` when the tag is malformed.
pub open spec fn scan_attrs(b: Seq<u8>, pos: int) -> Option<(int, int, Seq<((int, int), (int, int))>)>
    decreases b.len() - pos,
    when 0 <= pos
    via scan_attrs_decreases
{
    let p = skip_ws(b, pos);
    if p >= b.len() {
        None
    } else if b[p] == 62 {
        Some((p, p + 1, Seq::empty()))
    } else if b[p] == 47 {
        if p + 1 < b.len() && b[p + 1] == 62 {
            Some((p, p + 2, Seq::empty()))
        } else {
            None
        }
    } else {
        let ne = name_end(b, p);
        if ne == p {
            None
        } else {
            match attr_step(b, p, ne) {
                None => None,
                Some((next, vspan)) => if next <= pos || next > b.len() {
                    None
                } else {
                    match scan_attrs(b, next) {
                        None => None,
                        Some((c, e, list)) => {
                            let rec = match vspan {
                                Some(vs) => if ne - p >= 6 && b.subrange(p, p + 6)
                                    == xmlns_colon() {
                                    Some(((p + 6, ne), vs))
                                } else {
                                    None
                                },
                                None => None,
                            };
                            match rec {
                                Some(entry) => Some((c, e, seq![entry] + list)),
                                None => Some((c, e, list)),
                            }
                        },
                    }
                },
            }
        }
    }
}

#[via_fn]
proof fn scan_attrs_decreases(b: Seq<u8>, pos: int) {
}

/// Whether the case-insensitive `html` tag opens at position `i`, followed
/// by whitespace, `>`, `/`, or the end of the input.
pub open spec fn is_html_tag_at(b: Seq<u8>, i: int) -> bool {
    &&& i + 5 <= b.len()
    &&& b[i] == 60
    &&& lower(b[i + 1]) == 104
    &&& lower(b[i + 2]) == 116
    &&& lower(b[i + 3]) == 109
    &&& lower(b[i + 4]) == 108
    &&& (i + 5 == b.len() || is_ws(b[i + 5]) || b[i + 5] == 62 || b[i + 5] == 47)
}

/// Where the scan continues after the preamble construct at `i`: past a
/// comment, processing instruction or doctype, or one byte onward for
/// anything else. Always beyond `i`.
pub open spec fn skip_construct(b: Seq<u8>, i: int) -> int {
    if i + 4 <= b.len() && b.subrange(i, i + 4) == seq![60u8, 33u8, 45u8, 45u8] {
        let k = find_sub(b, seq![45u8, 45u8, 62u8], i + 4);
        if k < 0 {
            b.len() as int
        } else {
            k + 3
        }
    } else if i + 2 <= b.len() && b.subrange(i, i + 2) == seq![60u8, 63u8] {
        let k = find_sub(b, seq![63u8, 62u8], i + 2);
        if k < 0 {
            b.len() as int
        } else {
            k + 2
        }
    } else if i + 2 <= b.len() && b.subrange(i, i + 2) == seq![60u8, 33u8] {
        let k = doctype_end(b, i + 2, false);
        k
    } else {
        i + 1
    }
}

/// The position just past the `>` that closes a doctype opened before
/// `pos`, skipping an internal subset in square brackets; or the length.
pub open spec fn doctype_end(b: Seq<u8>, pos: int, in_subset: bool) -> int
    decreases b.len() - pos,
    when 0 <= pos
{
    if pos >= b.len() {
        b.len() as int
    } else if in_subset {
        if b[pos] == 93 {
            doctype_end(b, pos + 1, false)
        } else {
            doctype_end(b, pos + 1, true)
        }
    } else {
        if b[pos] == 62 {
            pos + 1
        } else if b[pos] == 91 {
            doctype_end(b, pos + 1, true)
        } else {
            doctype_end(b, pos + 1, false)
        }
    }
}

proof fn lemma_doctype_end_bounds(b: Seq<u8>, pos: int, in_subset: bool)
    requires
        0 <= pos <= b.len(),
    ensures
        pos < doctype_end(b, pos, in_subset) <= b.len() || (pos == b.len() && doctype_end(
            b,
            pos,
            in_subset,
        ) == b.len()),
    decreases b.len() - pos,
{
    if pos < b.len() {
        if in_subset {
            lemma_doctype_end_bounds(b, pos + 1, b[pos] != 93);
        } else if b[pos] == 62 {
        } else {
            lemma_doctype_end_bounds(b, pos + 1, b[pos] == 91);
        }
    }
}

proof fn lemma_skip_construct_bounds(b: Seq<u8>, i: int)
    requires
        0 <= i < b.len(),
    ensures
        i < skip_construct(b, i) <= b.len(),
{
    if i + 4 <= b.len() && b.subrange(i, i + 4) == seq![60u8, 33u8, 45u8, 45u8] {
        lemma_find_sub_bounds(b, seq![45u8, 45u8, 62u8], i + 4);
    } else if i + 2 <= b.len() && b.subrange(i, i + 2) == seq![60u8, 63u8] {
        lemma_find_sub_bounds(b, seq![63u8, 62u8], i + 2);
    } else if i + 2 <= b.len() && b.subrange(i, i + 2) == seq![60u8, 33u8] {
        lemma_doctype_end_bounds(b, i + 2, false);
    }
}

/// The position of the `html` tag in the document, skipping over preamble
/// constructs; or `None` when the input ends first.
pub open spec fn scan_doc(b: Seq<u8>, i: int) -> Option<int>
    decreases b.len() - i,
    when 0 <= i
    via scan_doc_decreases
{
    if i >= b.len() {
        None
    } else if is_html_tag_at(b, i) {
        Some(i)
    } else {
        scan_doc(b, skip_construct(b, i))
    }
}

#[via_fn]
proof fn scan_doc_decreases(b: Seq<u8>, i: int) {
    if 0 <= i < b.len() && !is_html_tag_at(b, i) {
        lemma_skip_construct_bounds(b, i);
    }
}

proof fn lemma_scan_doc_found(b: Seq<u8>, i: int)
    requires
        0 <= i,
        scan_doc(b, i).is_some(),
    ensures
        is_html_tag_at(b, scan_doc(b, i).unwrap()),
    decreases b.len() - i,
{
    if i < b.len() && !is_html_tag_at(b, i) {
        lemma_skip_construct_bounds(b, i);
        lemma_scan_doc_found(b, skip_construct(b, i));
    }
}

fn e_skip_ws(b: &Vec<u8>, pos: usize) -> (r: usize)
    requires
        pos <= b@.len(),
    ensures
        r == skip_ws(b@, pos as int),
        pos <= r <= b@.len(),
{
    let n = b.len();
    let mut i = pos;
    while i < n
        invariant
            n == b@.len(),
            pos <= i <= n,
            skip_ws(b@, pos as int) == skip_ws(b@, i as int),
        decreases n - i,
    {
        if !is_ws_byte(b[i]) {
            return i;
        }
        i = i + 1;
    }
    i
}

fn is_ws_byte(c: u8) -> (r: bool)
    ensures
        r == is_ws(c),
{
    c == 32 || c == 9 || c == 10 || c == 13 || c == 12
}

fn lower_byte(c: u8) -> (r: u8)
    ensures
        r == lower(c),
{
    if 65 <= c && c <= 90 {
        c + 32
    } else {
        c
    }
}

fn e_name_end(b: &Vec<u8>, pos: usize) -> (r: usize)
    requires
        pos <= b@.len(),
    ensures
        r == name_end(b@, pos as int),
        pos <= r <= b@.len(),
{
    let n = b.len();
    let mut i = pos;
    while i < n
        invariant
            n == b@.len(),
            pos <= i <= n,
            name_end(b@, pos as int) == name_end(b@, i as int),
        decreases n - i,
    {
        let c = b[i];
        if is_ws_byte(c) || c == 61 || c == 62 || c == 47 {
            return i;
        }
        i = i + 1;
    }
    i
}

fn e_unquoted_end(b: &Vec<u8>, pos: usize) -> (r: usize)
    requires
        pos <= b@.len(),
    ensures
        r == unquoted_end(b@, pos as int),
        pos <= r <= b@.len(),
{
    let n = b.len();
    let mut i = pos;
    while i < n
        invariant
            n == b@.len(),
            pos <= i <= n,
            unquoted_end(b@, pos as int) == unquoted_end(b@, i as int),
        decreases n - i,
    {
        let c = b[i];
        if is_ws_byte(c) || c == 62 {
            return i;
        }
        i = i + 1;
    }
    i
}

fn e_find_byte(b: &Vec<u8>, c: u8, from: usize) -> (r: Option<usize>)
    requires
        from <= b@.len(),
    ensures
        match r {
            Some(i) => from <= i < b@.len() && find_byte(b@, c, from as int) == i,
            None => find_byte(b@, c, from as int) == -1,
        },
{
    let n = b.len();
    let mut i = from;
    while i < n
        invariant
            n == b@.len(),
            from <= i <= n,
            find_byte(b@, c, from as int) == find_byte(b@, c, i as int),
        decreases n - i,
    {
        if b[i] == c {
            return Some(i);
        }
        i = i + 1;
    }
    None
}

/// Whether the four bytes of `pat4` occur at position `i` of `b`.
fn matches4(b: &Vec<u8>, i: usize, c0: u8, c1: u8, c2: u8, c3: u8) -> (r: bool)
    requires
        i <= b@.len(),
    ensures
        r == (i + 4 <= b@.len() && b@.subrange(i as int, i + 4) == seq![c0, c1, c2, c3]),
{
    if b.len() - i >= 4 && b[i] == c0 && b[i + 1] == c1 && b[i + 2] == c2 && b[i + 3] == c3 {
        proof {
            assert(b@.subrange(i as int, i + 4) =~= seq![c0, c1, c2, c3]);
        }
        true
    } else {
        proof {
            if i + 4 <= b@.len() {
                if b@.subrange(i as int, i + 4) == seq![c0, c1, c2, c3] {
                    assert(b@.subrange(i as int, i + 4)[0] == c0);
                    assert(b@.subrange(i as int, i + 4)[1] == c1);
                    assert(b@.subrange(i as int, i + 4)[2] == c2);
                    assert(b@.subrange(i as int, i + 4)[3] == c3);
                }
            }
        }
        false
    }
}

/// Whether the two bytes of `pat2` occur at position `i` of `b`.
fn matches2(b: &Vec<u8>, i: usize, c0: u8, c1: u8) -> (r: bool)
    requires
        i <= b@.len(),
    ensures
        r == (i + 2 <= b@.len() && b@.subrange(i as int, i + 2) == seq![c0, c1]),
{
    if b.len() - i >= 2 && b[i] == c0 && b[i + 1] == c1 {
        proof {
            assert(b@.subrange(i as int, i + 2) =~= seq![c0, c1]);
        }
        true
    } else {
        proof {
            if i + 2 <= b@.len() {
                if b@.subrange(i as int, i + 2) == seq![c0, c1] {
                    assert(b@.subrange(i as int, i + 2)[0] == c0);
                    assert(b@.subrange(i as int, i + 2)[1] == c1);
                }
            }
        }
        false
    }
}

/// Finds a two-byte pattern at or after `from`.
fn e_find_sub2(b: &Vec<u8>, c0: u8, c1: u8, from: usize) -> (r: Option<usize>)
    requires
        from <= b@.len(),
    ensures
        ({
            let k = find_sub(b@, seq![c0, c1], from as int);
            match r {
                Some(i) => k == i && from <= i && i + 2 <= b@.len(),
                None => k == -1,
            }
        }),
{
    let n = b.len();
    let mut i = from;
    while i < n
        invariant
            n == b@.len(),
            from <= i <= n,
            find_sub(b@, seq![c0, c1], from as int) == find_sub(b@, seq![c0, c1], i as int),
        decreases n - i,
    {
        if matches2(b, i, c0, c1) {
            return Some(i);
        }
        i = i + 1;
    }
    proof {
        assert(find_sub(b@, seq![c0, c1], n as int) == -1);
    }
    None
}

/// Finds a three-byte pattern at or after `from`.
fn e_find_sub3(b: &Vec<u8>, c0: u8, c1: u8, c2: u8, from: usize) -> (r: Option<usize>)
    requires
        from <= b@.len(),
    ensures
        ({
            let k = find_sub(b@, seq![c0, c1, c2], from as int);
            match r {
                Some(i) => k == i && from <= i && i + 3 <= b@.len(),
                None => k == -1,
            }
        }),
{
    let n = b.len();
    let mut i = from;
    while i < n
        invariant
            n == b@.len(),
            from <= i <= n,
            find_sub(b@, seq![c0, c1, c2], from as int) == find_sub(b@, seq![c0, c1, c2], i as int),
        decreases n - i,
    {
        let hit = if n - i >= 3 && b[i] == c0 && b[i + 1] == c1 && b[i + 2] == c2 {
            proof {
                assert(b@.subrange(i as int, i + 3) =~= seq![c0, c1, c2]);
            }
            true
        } else {
            proof {
                if i + 3 <= b@.len() {
                    if b@.subrange(i as int, i + 3) == seq![c0, c1, c2] {
                        assert(b@.subrange(i as int, i + 3)[0] == c0);
                        assert(b@.subrange(i as int, i + 3)[1] == c1);
                        assert(b@.subrange(i as int, i + 3)[2] == c2);
                    }
                }
            }
            false
        };
        if hit {
            return Some(i);
        }
        i = i + 1;
    }
    proof {
        assert(find_sub(b@, seq![c0, c1, c2], n as int) == -1);
    }
    None
}

fn e_doctype_end(b: &Vec<u8>, pos: usize) -> (r: usize)
    requires
        pos <= b@.len(),
    ensures
        r == doctype_end(b@, pos as int, false),
        pos <= r <= b@.len(),
{
    proof {
        lemma_doctype_end_bounds(b@, pos as int, false);
    }
    let n = b.len();
    let mut i = pos;
    let mut in_subset = false;
    while i < n
        invariant
            n == b@.len(),
            pos <= i <= n,
            doctype_end(b@, pos as int, false) == doctype_end(b@, i as int, in_subset),
            pos <= doctype_end(b@, pos as int, false) <= b@.len() || pos == n,
        decreases n - i,
    {
        let c = b[i];
        if in_subset {
            if c == 93 {
                in_subset = false;
            }
        } else {
            if c == 62 {
                return i + 1;
            }
            if c == 91 {
                in_subset = true;
            }
        }
        i = i + 1;
    }
    i
}

fn e_is_html_at(b: &Vec<u8>, i: usize) -> (r: bool)
    requires
        i < b@.len(),
    ensures
        r == is_html_tag_at(b@, i as int),
{
    if b.len() - i < 5 {
        return false;
    }
    let ok = b[i] == 60 && lower_byte(b[i + 1]) == 104 && lower_byte(b[i + 2]) == 116 && lower_byte(
        b[i + 3],
    ) == 109 && lower_byte(b[i + 4]) == 108;
    if !ok {
        return false;
    }
    if b.len() - i == 5 {
        return true;
    }
    let c = b[i + 5];
    is_ws_byte(c) || c == 62 || c == 47
}

fn e_skip_construct(b: &Vec<u8>, i: usize) -> (r: usize)
    requires
        i < b@.len(),
    ensures
        r == skip_construct(b@, i as int),
        i < r <= b@.len(),
{
    proof {
        lemma_skip_construct_bounds(b@, i as int);
    }
    let n = b.len();
    if matches4(b, i, 60, 33, 45, 45) {
        match e_find_sub3(b, 45, 45, 62, i + 4) {
            Some(k) => k + 3,
            None => n,
        }
    } else if matches2(b, i, 60, 63) {
        match e_find_sub2(b, 63, 62, i + 2) {
            Some(k) => k + 2,
            None => n,
        }
    } else if matches2(b, i, 60, 33) {
        e_doctype_end(b, i + 2)
    } else {
        i + 1
    }
}

/// Information about the parsed `html` tag: its byte positions and the
/// positions of every `xmlns:*` declaration found among its attributes.
#[derive(Debug)]
pub struct HtmlTagInfo {
    /// Position where the tag starts, at its `<`.
    pub tag_start: usize,
    /// Position where the tag close (`>` or `/>`) starts.
    pub tag_close_start: usize,
    /// Position after the tag close.
    pub tag_end: usize,
    /// The `xmlns:*` attributes, each as a prefix span and a URI span.
    pub existing_xmlns: Vec<XmlnsPositions>,
}

/// The integer view of the recorded spans.
pub open spec fn spans_view(s: Seq<XmlnsPositions>) -> Seq<((int, int), (int, int))> {
    s.map_values(
        |e: XmlnsPositions| ((e.0.0 as int, e.0.1 as int), (e.1.0 as int, e.1.1 as int)),
    )
}

fn e_scan_attrs(b: &Vec<u8>, pos: usize) -> (r: Option<(usize, usize, Vec<XmlnsPositions>)>)
    requires
        pos <= b@.len(),
    ensures
        match r {
            Some(t) => scan_attrs(b@, pos as int) == Some(
                (t.0 as int, t.1 as int, spans_view(t.2@)),
            ),
            None => scan_attrs(b@, pos as int) == None::<(int, int, Seq<((int, int), (int, int))>)>,
        },
{
    let n = b.len();
    let mut cur = pos;
    let mut out: Vec<XmlnsPositions> = Vec::new();
    proof {
        assert(spans_view(out@) =~= Seq::<((int, int), (int, int))>::empty());
    }
    loop
        invariant
            n == b@.len(),
            pos <= cur <= n,
            ({
                let full = scan_attrs(b@, pos as int);
                let sub = scan_attrs(b@, cur as int);
                match sub {
                    None => full == None::<(int, int, Seq<((int, int), (int, int))>)>,
                    Some(t) => full == Some((t.0, t.1, spans_view(out@) + t.2)),
                }
            }),
        decreases n - cur,
    {
        let p = e_skip_ws(b, cur);
        if p >= n {
            return None;
        }
        let c = b[p];
        if c == 62 {
            proof {
                assert(spans_view(out@) + Seq::<((int, int), (int, int))>::empty() =~= spans_view(
                    out@,
                ));
            }
            return Some((p, p + 1, out));
        }
        if c == 47 {
            if p + 1 < n && b[p + 1] == 62 {
                proof {
                    assert(spans_view(out@) + Seq::<((int, int), (int, int))>::empty()
                        =~= spans_view(out@));
                }
                return Some((p, p + 2, out));
            }
            return None;
        }
        let ne = e_name_end(b, p);
        if ne == p {
            return None;
        }
        let ghost pre_out = out@;
        let mut next: usize = ne;
        let mut vspan: Option<(usize, usize)> = None;
        if ne < n && b[ne] == 61 {
            if ne + 1 < n && (b[ne + 1] == 34 || b[ne + 1] == 39) {
                let q = b[ne + 1];
                match e_find_byte(b, q, ne + 2) {
                    Some(close) => {
                        next = close + 1;
                        vspan = Some((ne + 2, close));
                    },
                    None => {
                        return None;
                    },
                }
            } else {
                let ve = e_unquoted_end(b, ne + 1);
                next = ve;
                vspan = Some((ne + 1, ve));
            }
        }
        proof {
            assert(attr_step(b@, p as int, ne as int) == Some(
                (
                    next as int,
                    match vspan {
                        Some(vs) => Some((vs.0 as int, vs.1 as int)),
                        None => None::<(int, int)>,
                    },
                ),
            ));
        }
        let mut recorded = false;
        if let Some(vs) = vspan {
            if ne - p >= 6 && b[p] == 120 && b[p + 1] == 109 && b[p + 2] == 108 && b[p + 3] == 110
                && b[p + 4] == 115 && b[p + 5] == 58 {
                proof {
                    assert(b@.subrange(p as int, p + 6) =~= xmlns_colon());
                }
                out.push(((p + 6, ne), vs));
                recorded = true;
                proof {
                    assert(spans_view(out@) =~= spans_view(pre_out).push(
                        (((p + 6) as int, ne as int), (vs.0 as int, vs.1 as int)),
                    ));
                }
            } else {
                proof {
                    if ne - p >= 6 && b@.subrange(p as int, p + 6) == xmlns_colon() {
                        assert(b@.subrange(p as int, p + 6)[0] == 120);
                        assert(b@.subrange(p as int, p + 6)[1] == 109);
                        assert(b@.subrange(p as int, p + 6)[2] == 108);
                        assert(b@.subrange(p as int, p + 6)[3] == 110);
                        assert(b@.subrange(p as int, p + 6)[4] == 115);
                        assert(b@.subrange(p as int, p + 6)[5] == 58);
                    }
                }
            }
        }
        proof {
            let sub = scan_attrs(b@, cur as int);
            let subn = scan_attrs(b@, next as int);
            match subn {
                None => {},
                Some(t) => {
                    if recorded {
                        assert(spans_view(out@) + t.2 =~= spans_view(pre_out) + (seq![
                            (((p + 6) as int, ne as int), (
                                vspan.unwrap().0 as int,
                                vspan.unwrap().1 as int,
                            )),
                        ] + t.2));
                    }
                },
            }
        }
        cur = next;
    }
}

/// Parses the top of a markup document to locate and analyze the `html`
/// tag: its position, where its close starts and ends, and the positions
/// of its `xmlns:*` declarations.
///
/// The preamble may hold comments, doctypes, processing instructions and
/// stray text, all of which are skipped, even when they contain the letters
/// of the tag name; the `html` tag itself must be well-formed.
pub fn parse_preamble(html: &str) -> (r: NsResult<HtmlTagInfo>)
    ensures
        ({
            let b = html.spec_bytes();
            match r {
                Ok(info) => {
                    &&& scan_doc(b, 0) == Some(info.tag_start as int)
                    &&& scan_attrs(b, info.tag_start + 5) == Some(
                        (
                            info.tag_close_start as int,
                            info.tag_end as int,
                            spans_view(info.existing_xmlns@),
                        ),
                    )
                },
                Err(e) => match e {
                    NsError::ParseError(msg) => (scan_doc(b, 0) == None::<int> && msg@
                        == "No <html> tag found in document"@) || (exists|s: int|
                        scan_doc(b, 0) == Some(s) && scan_attrs(b, s + 5) == None::<
                            (int, int, Seq<((int, int), (int, int))>),
                        > && msg@ == "Failed to parse HTML"@),
                    _ => false,
                },
            }
        }),
{
    let b = html.as_bytes_vec();
    let n = b.len();
    let mut i: usize = 0;
    let mut found: Option<usize> = None;
    while i < n
        invariant_except_break
            found == None::<usize>,
            scan_doc(b@, 0) == scan_doc(b@, i as int),
        invariant
            n == b@.len(),
            b@ == html.spec_bytes(),
            i <= n,
        ensures
            match found {
                Some(s) => scan_doc(b@, 0) == Some(s as int) && s < n,
                None => scan_doc(b@, 0) == None::<int>,
            },
        decreases n - i,
    {
        if e_is_html_at(&b, i) {
            found = Some(i);
            break;
        }
        i = e_skip_construct(&b, i);
    }
    match found {
        None => Err(
            NsError::ParseError(
                {
                    let mut s = String::new();
                    s.append("No <html> tag found in document");
                    s
                },
            ),
        ),
        Some(start) => {
            proof {
                lemma_scan_doc_found(b@, 0);
            }
            match e_scan_attrs(&b, start + 5) {
                None => Err(
                    NsError::ParseError(
                        {
                            let mut s = String::new();
                            s.append("Failed to parse HTML");
                            s
                        },
                    ),
                ),
                Some(t) => Ok(
                    HtmlTagInfo {
                        tag_start: start,
                        tag_close_start: t.0,
                        tag_end: t.1,
                        existing_xmlns: t.2,
                    },
                ),
            }
        },
    }
}

/// Whether the byte range `[start, end)` addresses whole characters of a
/// string with these bytes.
pub open spec fn valid_slice(b: Seq<u8>, start: int, end: int) -> bool {
    &&& 0 <= start <= end <= b.len()
    &&& vstd::utf8::is_char_boundary(b, start)
    &&& vstd::utf8::is_char_boundary(b, end)
}

/// The characters of `html` in the byte range `[start, end)`, when the
/// range falls on character boundaries.
fn slice_range(html: &str, start: usize, end: usize) -> (r: Option<String>)
    ensures
        match r {
            Some(p) => valid_slice(html.spec_bytes(), start as int, end as int)
                && vstd::utf8::encode_utf8(p@) == html.spec_bytes().subrange(
                start as int,
                end as int,
            ),
            None => !valid_slice(html.spec_bytes(), start as int, end as int),
        },
{
    proof {
        vstd::utf8::encode_utf8_valid_utf8(html@);
    }
    let bv = html.as_bytes_vec();
    let n = bv.len();
    if start > end || end > n {
        return None;
    }
    if !html.is_char_boundary(start) || !html.is_char_boundary(end) {
        return None;
    }
    let ghost whole = html.spec_bytes();
    proof {
        vstd::utf8::valid_utf8_split(whole, start as int);
    }
    let pair = html.split_at(start);
    let rest = pair.1;
    proof {
        assert(rest.spec_bytes() =~= whole.subrange(start as int, whole.len() as int));
        if end < whole.len() {
            vstd::utf8::is_char_boundary_iff_not_is_continuation_byte(whole, end as int);
            assert(rest.spec_bytes()[end - start] == whole[end as int]);
            vstd::utf8::is_char_boundary_iff_not_is_continuation_byte(
                rest.spec_bytes(),
                end - start,
            );
        } else {
            vstd::utf8::is_char_boundary_start_end_of_seq(rest.spec_bytes());
        }
    }
    let pair2 = rest.split_at(end - start);
    let piece = pair2.0;
    proof {
        assert(piece.spec_bytes() =~= whole.subrange(start as int, end as int));
    }
    Some(piece.to_owned())
}

impl HtmlTagInfo {
    /// The number of recorded `xmlns:*` declarations.
    pub fn xmlns_count(&self) -> (r: usize)
        ensures
            r == self.existing_xmlns@.len(),
    {
        self.existing_xmlns.len()
    }

    /// The namespace prefix recorded at `index`, sliced out of the markup
    /// text the positions were taken from.
    pub fn get_prefix(&self, index: usize, html: &str) -> (r: NsResult<String>)
        ensures
            match r {
                Ok(p) => index < self.existing_xmlns@.len() && ({
                    let span = self.existing_xmlns@[index as int].0;
                    valid_slice(html.spec_bytes(), span.0 as int, span.1 as int)
                        && vstd::utf8::encode_utf8(p@) == html.spec_bytes().subrange(
                        span.0 as int,
                        span.1 as int,
                    )
                }),
                Err(e) => e is InvalidSlice && (index >= self.existing_xmlns@.len() || ({
                    let span = self.existing_xmlns@[index as int].0;
                    !valid_slice(html.spec_bytes(), span.0 as int, span.1 as int)
                })),
            },
    {
        if index >= self.existing_xmlns.len() {
            let mut s = String::new();
            s.append("Index out of bounds");
            return Err(NsError::InvalidSlice(s));
        }
        let span = self.existing_xmlns[index].0;
        match slice_range(html, span.0, span.1) {
            Some(p) => Ok(p),
            None => {
                let mut s = String::new();
                s.append("Invalid prefix position");
                Err(NsError::InvalidSlice(s))
            },
        }
    }

    /// The namespace URI recorded at `index`, sliced out of the markup text
    /// the positions were taken from.
    pub fn get_uri(&self, index: usize, html: &str) -> (r: NsResult<String>)
        ensures
            match r {
                Ok(p) => index < self.existing_xmlns@.len() && ({
                    let span = self.existing_xmlns@[index as int].1;
                    valid_slice(html.spec_bytes(), span.0 as int, span.1 as int)
                        && vstd::utf8::encode_utf8(p@) == html.spec_bytes().subrange(
                        span.0 as int,
                        span.1 as int,
                    )
                }),
                Err(e) => e is InvalidSlice && (index >= self.existing_xmlns@.len() || ({
                    let span = self.existing_xmlns@[index as int].1;
                    !valid_slice(html.spec_bytes(), span.0 as int, span.1 as int)
                })),
            },
    {
        if index >= self.existing_xmlns.len() {
            let mut s = String::new();
            s.append("Index out of bounds");
            return Err(NsError::InvalidSlice(s));
        }
        let span = self.existing_xmlns[index].1;
        match slice_range(html, span.0, span.1) {
            Some(p) => Ok(p),
            None => {
                let mut s = String::new();
                s.append("Invalid URI position");
                Err(NsError::InvalidSlice(s))
            },
        }
    }

    /// The namespace prefix and URI recorded at `index`.
    pub fn get_namespace(&self, index: usize, html: &str) -> (r: NsResult<(String, String)>)
        ensures
            match r {
                Ok(pu) => index < self.existing_xmlns@.len() && ({
                    let spans = self.existing_xmlns@[index as int];
                    &&& valid_slice(html.spec_bytes(), spans.0.0 as int, spans.0.1 as int)
                    &&& vstd::utf8::encode_utf8(pu.0@) == html.spec_bytes().subrange(
                        spans.0.0 as int,
                        spans.0.1 as int,
                    )
                    &&& valid_slice(html.spec_bytes(), spans.1.0 as int, spans.1.1 as int)
                    &&& vstd::utf8::encode_utf8(pu.1@) == html.spec_bytes().subrange(
                        spans.1.0 as int,
                        spans.1.1 as int,
                    )
                }),
                Err(e) => e is InvalidSlice,
            },
    {
        let prefix = match self.get_prefix(index, html) {
            Ok(p) => p,
            Err(e) => {
                return Err(e);
            },
        };
        let uri = match self.get_uri(index, html) {
            Ok(u) => u,
            Err(e) => {
                return Err(e);
            },
        };
        Ok((prefix, uri))
    }
}

/// The scanner for the top of a markup document.
pub struct HtmlPreamble {}

impl HtmlPreamble {
    /// Parses the document's preamble; see [`parse_preamble`].
    pub fn parse(html: &str) -> (r: NsResult<HtmlTagInfo>)
        ensures
            r.is_ok() == parse_succeeds(html.spec_bytes()),
    {
        parse_preamble(html)
    }
}

/// Whether the scan finds an `html` tag with a well-formed attribute list.
pub open spec fn parse_succeeds(b: Seq<u8>) -> bool {
    match scan_doc(b, 0) {
        None => false,
        Some(s) => scan_attrs(b, s + 5).is_some(),
    }
}

} // verus!
