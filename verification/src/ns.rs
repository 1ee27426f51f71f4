//! Namespace handling: the post-parse pass that rewrites colon-prefixed
//! element and attribute names into properly namespaced qualified names.
//!
//! An HTML tokenizer treats `prefix:name` as a literal, non-namespaced name.
//! This pass resolves such names against the `xmlns:*` declarations found on
//! the document's `html` element, merged over a caller-supplied base map,
//! and rebuilds the whole node store with the corrected names. Declaration
//! attributes themselves are stripped from the rebuilt attribute sets.

use vstd::prelude::*;

verus! {

use crate::attributes::attr_view_one;
use crate::attributes::attrs_view;
use crate::attributes::Attributes;
use crate::attributes::AttrV;
use crate::text::find_char;
use crate::text::lex_lt;
use crate::text::spec_has_prefix;
use crate::text::str_eq;
use crate::text::str_find_char;
use crate::text::str_has_prefix;
use crate::text::str_lt;
use crate::tree::data_like;
use crate::tree::qual_view;
use crate::tree::ElementData;
use crate::tree::NodeData;
use crate::tree::QualName;
use crate::tree::QualNameV;
use crate::tree::Tree;
use vstd::string::StrSliceExecFns;

/// The view of an association list as a map; a later entry for the same key
/// overrides an earlier one.
pub open spec fn assoc_map(s: Seq<(String, String)>) -> Map<Seq<char>, Seq<char>>
    decreases s.len(),
{
    if s.len() == 0 {
        Map::empty()
    } else {
        assoc_map(s.drop_last()).insert(s.last().0@, s.last().1@)
    }
}

/// A prefix-to-namespace-URI mapping.
struct PrefixMap {
    entries: Vec<(String, String)>,
}

impl View for PrefixMap {
    type V = Map<Seq<char>, Seq<char>>;

    closed spec fn view(&self) -> Map<Seq<char>, Seq<char>> {
        assoc_map(self.entries@)
    }
}

proof fn lemma_assoc_lookup(s: Seq<(String, String)>, key: Seq<char>, k: int)
    requires
        0 <= k < s.len(),
        s[k].0@ == key,
        forall|m: int| k < m < s.len() ==> (#[trigger] s[m]).0@ != key,
    ensures
        assoc_map(s).dom().contains(key),
        assoc_map(s)[key] == s[k].1@,
    decreases s.len(),
{
    if k == s.len() - 1 {
    } else {
        lemma_assoc_lookup(s.drop_last(), key, k);
    }
}

proof fn lemma_assoc_none(s: Seq<(String, String)>, key: Seq<char>)
    requires
        forall|m: int| 0 <= m < s.len() ==> (#[trigger] s[m]).0@ != key,
    ensures
        !assoc_map(s).dom().contains(key),
    decreases s.len(),
{
    if s.len() > 0 {
        lemma_assoc_none(s.drop_last(), key);
    }
}

impl PrefixMap {
    fn new() -> (r: PrefixMap)
        ensures
            r@ == Map::<Seq<char>, Seq<char>>::empty(),
    {
        let r = PrefixMap { entries: Vec::new() };
        proof {
            assert(r.entries@.len() == 0);
        }
        r
    }

    /// Binds `prefix` to `uri`, overriding any earlier binding.
    fn insert(&mut self, prefix: String, uri: String)
        ensures
            final(self)@ == old(self)@.insert(prefix@, uri@),
    {
        self.entries.push((prefix, uri));
        proof {
            assert(self.entries@.drop_last() =~= old(self).entries@);
        }
    }

    /// The namespace URI bound to `prefix`, if any.
    fn get(&self, prefix: &str) -> (r: Option<String>)
        ensures
            match r {
                Some(v) => self@.dom().contains(prefix@) && v@ == self@[prefix@],
                None => !self@.dom().contains(prefix@),
            },
    {
        let n = self.entries.len();
        let mut k: usize = n;
        while k > 0
            invariant
                n == self.entries@.len(),
                k <= n,
                forall|m: int| k <= m < n ==> (#[trigger] self.entries@[m]).0@ != prefix@,
            decreases k,
        {
            k = k - 1;
            if str_eq(self.entries[k].0.as_str(), prefix) {
                let v = self.entries[k].1.clone();
                proof {
                    lemma_assoc_lookup(self.entries@, prefix@, k as int);
                }
                return Some(v);
            }
        }
        proof {
            lemma_assoc_none(self.entries@, prefix@);
        }
        None
    }
}

/// The set of character sequences held by a list of strings.
pub open spec fn str_seq_set(s: Seq<String>) -> Set<Seq<char>>
    decreases s.len(),
{
    if s.len() == 0 {
        Set::empty()
    } else {
        str_seq_set(s.drop_last()).insert(s.last()@)
    }
}

/// Whether the strings are strictly increasing in lexicographic order; such
/// a list is sorted and free of duplicates.
pub open spec fn strictly_sorted(s: Seq<String>) -> bool {
    forall|m: int| 0 <= m && m + 1 < s.len() ==> lex_lt((#[trigger] s[m])@, s[m + 1]@)
}

/// One of `lex_lt(a, b)`, `a == b`, `lex_lt(b, a)` holds, and only one.
proof fn lemma_lex_trichotomy(a: Seq<char>, b: Seq<char>)
    ensures
        lex_lt(a, b) || lex_lt(b, a) || a == b,
        !(lex_lt(a, b) && lex_lt(b, a)),
        lex_lt(a, b) ==> a != b,
    decreases a.len(),
{
    if a.len() > 0 && b.len() > 0 {
        if a[0] == b[0] {
            lemma_lex_trichotomy(a.drop_first(), b.drop_first());
            if a.drop_first() == b.drop_first() {
                assert(seq![a[0]] + a.drop_first() =~= a);
                assert(seq![b[0]] + b.drop_first() =~= b);
                assert(a == b);
            }
            if a == b {
                assert(a.drop_first() =~= b.drop_first());
            }
        } else {
            assert((a[0] as u32) != (b[0] as u32)) by {
                if (a[0] as u32) == (b[0] as u32) {
                    vstd::utf8::char_u32_cast(a[0], a[0] as u32);
                    vstd::utf8::char_u32_cast(b[0], b[0] as u32);
                }
            }
        }
    } else {
        if a.len() == 0 && b.len() == 0 {
            assert(a =~= b);
        }
    }
}

proof fn lemma_str_seq_set_insert(s: Seq<String>, j: int, p: String)
    requires
        0 <= j <= s.len(),
    ensures
        str_seq_set(s.insert(j, p)) =~= str_seq_set(s).insert(p@),
    decreases s.len(),
{
    let s2 = s.insert(j, p);
    if j == s.len() {
        assert(s2.drop_last() =~= s);
    } else {
        assert(s2.last() == s.last());
        assert(s2.drop_last() =~= s.drop_last().insert(j, p));
        lemma_str_seq_set_insert(s.drop_last(), j, p);
    }
}

/// The undefined prefixes found so far, kept strictly sorted.
struct UndefList {
    entries: Vec<String>,
}

impl UndefList {
    spec fn set_view(&self) -> Set<Seq<char>> {
        str_seq_set(self.entries@)
    }

    spec fn sorted(&self) -> bool {
        strictly_sorted(self.entries@)
    }

    fn new() -> (r: UndefList)
        ensures
            r.set_view() == Set::<Seq<char>>::empty(),
            r.sorted(),
    {
        let r = UndefList { entries: Vec::new() };
        proof {
            assert(r.entries@.len() == 0);
            assert(r.set_view() =~= Set::<Seq<char>>::empty());
        }
        r
    }

    /// Records `p` among the undefined prefixes.
    fn insert(&mut self, p: String)
        requires
            old(self).sorted(),
        ensures
            final(self).sorted(),
            final(self).set_view() == old(self).set_view().insert(p@),
    {
        let n = self.entries.len();
        let mut j: usize = 0;
        loop
            invariant
                old(self) == self,
                n == self.entries@.len(),
                j <= n,
                forall|m: int| 0 <= m < j ==> lex_lt((#[trigger] self.entries@[m])@, p@),
            ensures
                j <= n,
                forall|m: int| 0 <= m < j ==> lex_lt((#[trigger] self.entries@[m])@, p@),
                j == n || !lex_lt(self.entries@[j as int]@, p@),
            decreases n - j,
        {
            if j >= n {
                break;
            }
            if str_lt(self.entries[j].as_str(), p.as_str()) {
                j = j + 1;
            } else {
                break;
            }
        }
        if j < n {
            if str_eq(self.entries[j].as_str(), p.as_str()) {
                proof {
                    assert(self.entries@[j as int]@ == p@);
                    lemma_contains_of_set(self.entries@, j as int);
                    assert(self.set_view().insert(p@) =~= self.set_view());
                }
                return;
            }
        }
        let ghost pre = self.entries@;
        self.entries.insert(j, p);
        proof {
            lemma_str_seq_set_insert(pre, j as int, p);
            assert forall|m: int| 0 <= m && m + 1 < self.entries@.len() implies lex_lt(
                (#[trigger] self.entries@[m])@,
                self.entries@[m + 1]@,
            ) by {
                if m + 1 < j {
                    assert(self.entries@[m] == pre[m]);
                    assert(self.entries@[m + 1] == pre[m + 1]);
                } else if m + 1 == j {
                    assert(self.entries@[m] == pre[m]);
                    assert(self.entries@[m + 1] == p);
                } else if m == j {
                    assert(self.entries@[m] == p);
                    assert(self.entries@[m + 1] == pre[m]);
                    lemma_lex_trichotomy(p@, pre[m]@);
                } else {
                    assert(self.entries@[m] == pre[m - 1]);
                    assert(self.entries@[m + 1] == pre[m]);
                }
            }
        }
    }

    /// Hands the sorted list out.
    fn into_vec(self) -> (r: Vec<String>)
        ensures
            r@ == self.entries@,
    {
        self.entries
    }
}

proof fn lemma_contains_of_set(s: Seq<String>, j: int)
    requires
        0 <= j < s.len(),
    ensures
        str_seq_set(s).contains(s[j]@),
    decreases s.len(),
{
    if j == s.len() - 1 {
    } else {
        lemma_contains_of_set(s.drop_last(), j);
    }
}

/// Options for the namespace pass.
pub struct NsOptions {
    /// Base prefix-to-namespace bindings, merged below the declarations
    /// found in the document: a declaration on the `html` element overrides
    /// a base binding for the same prefix. A later pair overrides an
    /// earlier one for the same prefix.
    pub namespaces: Vec<(String, String)>,
    /// Whether an undefined prefix is an error. When false, an undefined
    /// prefix gets the null namespace and the pass still succeeds.
    pub strict: bool,
}

impl NsOptions {
    /// Lenient options with no base bindings.
    pub fn new() -> (r: NsOptions)
        ensures
            r.namespaces@ == Seq::<(String, String)>::empty(),
            r.strict == false,
    {
        NsOptions { namespaces: Vec::new(), strict: false }
    }
}

/// An error of a namespace operation.
#[derive(Debug)]
pub enum NsError {
    /// The markup preamble could not be parsed, or held no `html` tag.
    ParseError(String),
    /// A stored byte range does not address the given markup text.
    InvalidSlice(String),
    /// Undefined namespace prefixes were found in strict mode. Carries the
    /// fully rebuilt document, still usable with null namespaces in place
    /// of the undefined ones, and the sorted, de-duplicated prefixes.
    UndefinedPrefix(Tree, Vec<String>),
}

/// The result of a namespace operation.
pub type NsResult<T> = Result<T, NsError>;

impl NsError {
    /// A human-readable description of the error.
    pub fn message(&self) -> (r: String)
        ensures
            match self {
                NsError::ParseError(msg) => r@ == "NS Parse error: "@ + msg@,
                NsError::InvalidSlice(msg) => r@ == "NS Invalid slice: "@ + msg@,
                NsError::UndefinedPrefix(_, _) => r@ == "NS Undefined prefix"@,
            },
    {
        match self {
            NsError::ParseError(msg) => {
                let mut s = String::new();
                s.append("NS Parse error: ");
                s.append(msg.as_str());
                proof {
                    assert(s@ =~= "NS Parse error: "@ + msg@);
                }
                s
            },
            NsError::InvalidSlice(msg) => {
                let mut s = String::new();
                s.append("NS Invalid slice: ");
                s.append(msg.as_str());
                proof {
                    assert(s@ =~= "NS Invalid slice: "@ + msg@);
                }
                s
            },
            NsError::UndefinedPrefix(_, _) => {
                let mut s = String::new();
                s.append("NS Undefined prefix");
                proof {
                    assert(s@ =~= "NS Undefined prefix"@);
                }
                s
            },
        }
    }
}

/// The namespace a prefix resolves to: its binding, or the null namespace.
pub open spec fn resolved_ns(m: Map<Seq<char>, Seq<char>>, p: Seq<char>) -> Seq<char> {
    if m.dom().contains(p) {
        m[p]
    } else {
        Seq::empty()
    }
}

/// How a qualified name comes out of the pass: a local name with a colon is
/// split at its first colon, the part before it becomes the prefix and
/// resolves to a namespace; any other name is kept as it is.
pub open spec fn name_rewritten(o: QualName, n: QualName, m: Map<Seq<char>, Seq<char>>) -> bool {
    let c = find_char(o.local@, ':');
    if c >= 0 {
        let p = o.local@.subrange(0, c);
        qual_view(n) == (QualNameV {
            prefix: Some(p),
            ns: resolved_ns(m, p),
            local: o.local@.skip(c + 1),
        })
    } else {
        qual_view(n) == qual_view(o)
    }
}

/// The prefix a local name uses without a binding in `m`, if any.
pub open spec fn undef_in_name(local: Seq<char>, m: Map<Seq<char>, Seq<char>>) -> Set<Seq<char>> {
    let c = find_char(local, ':');
    if c >= 0 && !m.dom().contains(local.subrange(0, c)) {
        Set::empty().insert(local.subrange(0, c))
    } else {
        Set::empty()
    }
}

/// Splits a prefixed qualified name against the prefix map, recording an
/// undefined prefix; a name without a colon is kept unchanged.
fn rewrite_name(name: &QualName, pm: &PrefixMap, und: &mut UndefList) -> (n: QualName)
    requires
        old(und).sorted(),
    ensures
        name_rewritten(*name, n, pm@),
        final(und).sorted(),
        final(und).set_view() == old(und).set_view().union(undef_in_name(name.local@, pm@)),
    {
    match str_find_char(name.local.as_str(), ':') {
        None => {
            proof {
                assert(old(und).set_view().union(undef_in_name(name.local@, pm@)) =~= old(
                    und,
                ).set_view());
            }
            name.duplicate()
        },
        Some(c) => {
            let len = name.local.as_str().unicode_len();
            let p = name.local.as_str().substring_char(0, c).to_owned();
            let rest = name.local.as_str().substring_char(c + 1, len).to_owned();
            proof {
                assert(p@ == name.local@.subrange(0, c as int));
                assert(rest@ =~= name.local@.skip(c + 1 as int));
            }
            match pm.get(p.as_str()) {
                Some(uri) => {
                    proof {
                        assert(old(und).set_view().union(undef_in_name(name.local@, pm@)) =~= old(
                            und,
                        ).set_view());
                    }
                    QualName { prefix: Some(p), ns: uri, local: rest }
                },
                None => {
                    und.insert(p.clone());
                    proof {
                        assert(old(und).set_view().insert(p@) =~= old(und).set_view().union(
                            undef_in_name(name.local@, pm@),
                        ));
                    }
                    QualName { prefix: Some(p), ns: String::new(), local: rest }
                },
            }
        },
    }
}

/// Whether an attribute key is a namespace declaration: local name `xmlns`
/// or a local name starting with `xmlns:`.
pub open spec fn is_xmlns_key(key: (Seq<char>, Seq<char>)) -> bool {
    spec_has_prefix(key.1, "xmlns:"@) || key.1 == "xmlns"@
}

/// How one attribute comes out of the pass, before de-duplication.
pub open spec fn rewrite_attr_v(v: AttrV, m: Map<Seq<char>, Seq<char>>) -> AttrV {
    let c = find_char(v.key.1, ':');
    if c >= 0 {
        let p = v.key.1.subrange(0, c);
        AttrV { key: (resolved_ns(m, p), v.key.1.skip(c + 1)), prefix: Some(p), value: v.value }
    } else {
        v
    }
}

/// The position of the entry with key `k`, or `-1`.
pub open spec fn idx_of_key(s: Seq<AttrV>, k: (Seq<char>, Seq<char>)) -> int
    decreases s.len(),
{
    if s.len() == 0 {
        -1
    } else if s[0].key == k {
        0
    } else {
        let r = idx_of_key(s.drop_first(), k);
        if r < 0 {
            -1
        } else {
            r + 1
        }
    }
}

/// Insertion into an attribute list: replace in place, or append.
pub open spec fn upsert(s: Seq<AttrV>, v: AttrV) -> Seq<AttrV> {
    let i = idx_of_key(s, v.key);
    if i < 0 {
        s.push(v)
    } else {
        s.update(i, v)
    }
}

/// The rebuilt attribute list: namespace declarations dropped, prefixed
/// names split and resolved, entries inserted in order with one entry per
/// resulting key.
pub open spec fn rebuild_attrs(
    acc: Seq<AttrV>,
    s: Seq<AttrV>,
    m: Map<Seq<char>, Seq<char>>,
) -> Seq<AttrV>
    decreases s.len(),
{
    if s.len() == 0 {
        acc
    } else {
        let e = s[0];
        let acc2 = if is_xmlns_key(e.key) {
            acc
        } else {
            upsert(acc, rewrite_attr_v(e, m))
        };
        rebuild_attrs(acc2, s.drop_first(), m)
    }
}

/// The prefixes the attributes of `s` use without a binding in `m`.
pub open spec fn undef_in_attrs(s: Seq<AttrV>, m: Map<Seq<char>, Seq<char>>) -> Set<Seq<char>>
    decreases s.len(),
{
    if s.len() == 0 {
        Set::empty()
    } else {
        let rest = undef_in_attrs(s.drop_first(), m);
        if is_xmlns_key(s[0].key) {
            rest
        } else {
            undef_in_name(s[0].key.1, m).union(rest)
        }
    }
}

proof fn lemma_idx_of_key_at(s: Seq<AttrV>, k: (Seq<char>, Seq<char>), i: int)
    requires
        0 <= i < s.len(),
        s[i].key == k,
        forall|j1: int, j2: int| 0 <= j1 < j2 < s.len() ==> (#[trigger] s[j1]).key != (#[trigger] s[j2]).key,
    ensures
        idx_of_key(s, k) == i,
    decreases i,
{
    if i == 0 {
    } else {
        assert(s[0].key != k);
        assert(s.drop_first()[i - 1].key == k);
        assert forall|j1: int, j2: int|
            0 <= j1 < j2 < s.drop_first().len() implies (#[trigger] s.drop_first()[j1]).key
            != (#[trigger] s.drop_first()[j2]).key by {
            assert(s.drop_first()[j1] == s[j1 + 1]);
            assert(s.drop_first()[j2] == s[j2 + 1]);
        }
        lemma_idx_of_key_at(s.drop_first(), k, i - 1);
    }
}

proof fn lemma_idx_of_key_none(s: Seq<AttrV>, k: (Seq<char>, Seq<char>))
    requires
        forall|j: int| 0 <= j < s.len() ==> (#[trigger] s[j]).key != k,
    ensures
        idx_of_key(s, k) == -1,
    decreases s.len(),
{
    if s.len() > 0 {
        lemma_idx_of_key_none(s.drop_first(), k);
    }
}

proof fn lemma_rebuild_append(
    acc: Seq<AttrV>,
    s1: Seq<AttrV>,
    s2: Seq<AttrV>,
    m: Map<Seq<char>, Seq<char>>,
)
    ensures
        rebuild_attrs(acc, s1 + s2, m) == rebuild_attrs(rebuild_attrs(acc, s1, m), s2, m),
        undef_in_attrs(s1 + s2, m) == undef_in_attrs(s1, m).union(undef_in_attrs(s2, m)),
    decreases s1.len(),
{
    if s1.len() == 0 {
        assert(s1 + s2 =~= s2);
        assert(undef_in_attrs(s1, m).union(undef_in_attrs(s2, m)) =~= undef_in_attrs(s2, m));
    } else {
        assert((s1 + s2)[0] == s1[0]);
        assert((s1 + s2).drop_first() =~= s1.drop_first() + s2);
        let e = s1[0];
        let acc2 = if is_xmlns_key(e.key) {
            acc
        } else {
            upsert(acc, rewrite_attr_v(e, m))
        };
        lemma_rebuild_append(acc2, s1.drop_first(), s2, m);
        assert(undef_in_attrs(s1 + s2, m) =~= undef_in_attrs(s1, m).union(undef_in_attrs(s2, m)));
    }
}

/// Rebuilds an attribute store against the prefix map, stripping namespace
/// declarations, splitting prefixed names, and recording undefined prefixes.
fn rebuild_attributes(a: &Attributes, pm: &PrefixMap, und: &mut UndefList) -> (r: Attributes)
    requires
        old(und).sorted(),
    ensures
        r.wf(),
        attrs_view(r) == rebuild_attrs(Seq::empty(), attrs_view(*a), pm@),
        final(und).sorted(),
        final(und).set_view() == old(und).set_view().union(undef_in_attrs(attrs_view(*a), pm@)),
{
    let n = a.len();
    let mut out = Attributes::new();
    let mut idx: usize = 0;
    proof {
        assert(attrs_view(out) =~= Seq::<AttrV>::empty());
        assert(attrs_view(*a).subrange(0, 0) =~= Seq::<AttrV>::empty());
        assert(old(und).set_view().union(undef_in_attrs(Seq::<AttrV>::empty(), pm@)) =~= old(
            und,
        ).set_view());
    }
    while idx < n
        invariant
            n == a@.len(),
            idx <= n,
            out.wf(),
            attrs_view(out) == rebuild_attrs(Seq::empty(), attrs_view(*a).subrange(0, idx as int), pm@),
            und.sorted(),
            und.set_view() == old(und).set_view().union(
                undef_in_attrs(attrs_view(*a).subrange(0, idx as int), pm@),
            ),
        decreases n - idx,
    {
        let ghost prefix_v = attrs_view(*a).subrange(0, idx as int);
        let ghost e = attrs_view(*a)[idx as int];
        let ghost pre_out_v = attrs_view(out);
        let ghost pre_und = und.set_view();
        let entry = a.entry_at(idx);
        proof {
            assert(e == attr_view_one(a@[idx as int]));
        }
        let local = &entry.0.local;
        if str_has_prefix(local.as_str(), "xmlns:") || str_eq(local.as_str(), "xmlns") {
            proof {
                assert(is_xmlns_key(e.key));
            }
        } else {
            proof {
                assert(!is_xmlns_key(e.key));
            }
            match str_find_char(local.as_str(), ':') {
                Some(c) => {
                    let len = local.as_str().unicode_len();
                    let p = local.as_str().substring_char(0, c).to_owned();
                    let rest = local.as_str().substring_char(c + 1, len).to_owned();
                    proof {
                        assert(p@ == local@.subrange(0, c as int));
                        assert(rest@ =~= local@.skip(c + 1 as int));
                    }
                    let ns2 = match pm.get(p.as_str()) {
                        Some(uri) => uri,
                        None => {
                            und.insert(p.clone());
                            String::new()
                        },
                    };
                    let ghost pre_out = out;
                    let pfx = Some(p);
                    let val = entry.1.value.clone();
                    let prev = out.insert_ns(ns2.as_str(), rest.as_str(), pfx, val);
                    proof {
                        lemma_upsert_view(pre_out, out, ns2@, rest@, pfx, val, prev);
                        assert((AttrV {
                            key: (ns2@, rest@),
                            prefix: crate::attributes::opt_str_view(pfx),
                            value: val@,
                        }) == rewrite_attr_v(e, pm@));
                        assert(attrs_view(out) == upsert(pre_out_v, rewrite_attr_v(e, pm@)));
                    }
                },
                None => {
                    let prefix2 = match &entry.1.prefix {
                        Some(pp) => Some(pp.clone()),
                        None => None,
                    };
                    let ghost pre_out = out;
                    let val = entry.1.value.clone();
                    let prev = out.insert_ns(
                        entry.0.ns.as_str(),
                        entry.0.local.as_str(),
                        prefix2,
                        val,
                    );
                    proof {
                        lemma_upsert_view(
                            pre_out,
                            out,
                            entry.0.ns@,
                            entry.0.local@,
                            prefix2,
                            val,
                            prev,
                        );
                        assert((AttrV {
                            key: (entry.0.ns@, entry.0.local@),
                            prefix: crate::attributes::opt_str_view(prefix2),
                            value: val@,
                        }) == e);
                        assert(rewrite_attr_v(e, pm@) == e);
                        assert(attrs_view(out) == upsert(pre_out_v, rewrite_attr_v(e, pm@)));
                    }
                },
            }
            proof {
                assert(und.set_view() =~= pre_und.union(undef_in_name(e.key.1, pm@)));
            }
        }
        proof {
            let ext = attrs_view(*a).subrange(0, idx + 1 as int);
            assert(ext =~= prefix_v + seq![e]);
            lemma_rebuild_append(Seq::empty(), prefix_v, seq![e], pm@);
            assert(seq![e].drop_first() =~= Seq::<AttrV>::empty());
            assert(seq![e][0] == e);
            assert(rebuild_attrs(pre_out_v, Seq::<AttrV>::empty(), pm@) == pre_out_v);
            assert(rebuild_attrs(
                upsert(pre_out_v, rewrite_attr_v(e, pm@)),
                Seq::<AttrV>::empty(),
                pm@,
            ) == upsert(pre_out_v, rewrite_attr_v(e, pm@)));
            assert(undef_in_attrs(Seq::<AttrV>::empty(), pm@) =~= Set::<Seq<char>>::empty());
            assert(rebuild_attrs(pre_out_v, seq![e], pm@) == (if is_xmlns_key(e.key) {
                pre_out_v
            } else {
                upsert(pre_out_v, rewrite_attr_v(e, pm@))
            }));
            assert(undef_in_attrs(seq![e], pm@) =~= (if is_xmlns_key(e.key) {
                Set::<Seq<char>>::empty()
            } else {
                undef_in_name(e.key.1, pm@)
            }));
            assert(und.set_view() =~= old(und).set_view().union(undef_in_attrs(ext, pm@)));
        }
        idx = idx + 1;
    }
    proof {
        assert(attrs_view(*a).subrange(0, n as int) =~= attrs_view(*a));
    }
    out
}

/// After `insert_ns` on a store with distinct keys, the view is the upsert
/// of the inserted entry's view.
proof fn lemma_upsert_view(
    pre: Attributes,
    post: Attributes,
    nsv: Seq<char>,
    localv: Seq<char>,
    pfx: Option<String>,
    val: String,
    prev: Option<crate::attributes::Attribute>,
)
    requires
        pre.wf(),
        match prev {
            Some(_) => exists|i: int|
                0 <= i < pre@.len() && (#[trigger] pre@[i]).0.key() == (nsv, localv) && post@
                    == pre@.update(
                    i,
                    (pre@[i].0, crate::attributes::Attribute { prefix: pfx, value: val }),
                ),
            None => {
                &&& !pre.contains_key((nsv, localv))
                &&& post@.len() == pre@.len() + 1
                &&& post@.drop_last() == pre@
                &&& post@.last().0.key() == (nsv, localv)
                &&& post@.last().1 == (crate::attributes::Attribute { prefix: pfx, value: val })
            },
        },
    ensures
        attrs_view(post) == upsert(
            attrs_view(pre),
            AttrV { key: (nsv, localv), prefix: crate::attributes::opt_str_view(pfx), value: val@ },
        ),
{
    let pv = attrs_view(pre);
    let v = AttrV {
        key: (nsv, localv),
        prefix: crate::attributes::opt_str_view(pfx),
        value: val@,
    };
    assert forall|j1: int, j2: int|
        0 <= j1 < j2 < pv.len() implies (#[trigger] pv[j1]).key != (#[trigger] pv[j2]).key by {
        assert(pv[j1] == attr_view_one(pre@[j1]));
        assert(pv[j2] == attr_view_one(pre@[j2]));
    }
    match prev {
        Some(_) => {
            let i = choose|i: int|
                0 <= i < pre@.len() && (#[trigger] pre@[i]).0.key() == (nsv, localv) && post@
                    == pre@.update(
                    i,
                    (pre@[i].0, crate::attributes::Attribute { prefix: pfx, value: val }),
                );
            assert(pv[i].key == (nsv, localv));
            lemma_idx_of_key_at(pv, v.key, i);
            assert(attrs_view(post) =~= pv.update(i, v)) by {
                assert forall|j: int| 0 <= j < post@.len() implies attrs_view(post)[j]
                    == pv.update(i, v)[j] by {
                    assert(attrs_view(post)[j] == attr_view_one(post@[j]));
                    if j != i {
                        assert(post@[j] == pre@[j]);
                        assert(pv[j] == attr_view_one(pre@[j]));
                    }
                }
            }
        },
        None => {
            assert forall|j: int| 0 <= j < pv.len() implies (#[trigger] pv[j]).key != v.key by {
                assert(pv[j] == attr_view_one(pre@[j]));
                if pre@[j].0.key() == (nsv, localv) {
                    assert(pre.contains_key((nsv, localv)));
                }
            }
            lemma_idx_of_key_none(pv, v.key);
            assert(attrs_view(post) =~= pv.push(v)) by {
                assert forall|j: int| 0 <= j < post@.len() implies attrs_view(post)[j] == pv.push(
                    v,
                )[j] by {
                    assert(attrs_view(post)[j] == attr_view_one(post@[j]));
                    if j < pre@.len() {
                        assert(post@[j] == post@.drop_last()[j]);
                        assert(pv[j] == attr_view_one(pre@[j]));
                    }
                }
            }
        },
    }
}

/// Whether node `x` of `t` is an element with local name `html`.
pub open spec fn is_html_element(t: Tree, x: int) -> bool {
    match t.data_of(x) {
        NodeData::Element(e) => e.name.local@ == "html"@,
        _ => false,
    }
}

/// The first entry of `s` naming an `html` element of `t`, if any.
pub open spec fn first_html(t: Tree, s: Seq<usize>) -> Option<usize>
    decreases s.len(),
{
    if s.len() == 0 {
        None
    } else if is_html_element(t, s[0] as int) {
        Some(s[0])
    } else {
        first_html(t, s.drop_first())
    }
}

proof fn lemma_first_html_is_html(t: Tree, s: Seq<usize>)
    requires
        first_html(t, s).is_some(),
    ensures
        is_html_element(t, first_html(t, s).unwrap() as int),
    decreases s.len(),
{
    if s.len() > 0 && !is_html_element(t, s[0] as int) {
        lemma_first_html_is_html(t, s.drop_first());
    }
}

/// The prefix map after overlaying the `xmlns:*` declarations of an
/// attribute list, in order, over a base map.
pub open spec fn xmlns_overlay(
    m0: Map<Seq<char>, Seq<char>>,
    s: Seq<AttrV>,
) -> Map<Seq<char>, Seq<char>>
    decreases s.len(),
{
    if s.len() == 0 {
        m0
    } else {
        let m = xmlns_overlay(m0, s.drop_last());
        let e = s.last();
        if spec_has_prefix(e.key.1, "xmlns:"@) {
            m.insert(e.key.1.skip(6), e.value)
        } else {
            m
        }
    }
}

/// The prefix map the pass resolves against: the caller's base bindings,
/// overridden by the declarations on the first `html` element in the
/// subtree of `root`.
pub open spec fn ns_map_spec(t: Tree, root: int, base: Seq<(String, String)>) -> Map<
    Seq<char>,
    Seq<char>,
> {
    let m0 = assoc_map(base);
    match first_html(t, crate::iter::descendants_of(t, root)) {
        None => m0,
        Some(h) => match t.data_of(h as int) {
            NodeData::Element(e) => xmlns_overlay(m0, attrs_view(e.attributes)),
            _ => m0,
        },
    }
}

/// How one payload comes out of the pass: an element has its name and its
/// attributes rewritten and keeps its template link; any other node keeps
/// its content.
pub open spec fn data_rewritten(o: NodeData, n: NodeData, m: Map<Seq<char>, Seq<char>>) -> bool {
    match o {
        NodeData::Element(oe) => match n {
            NodeData::Element(ne) => {
                &&& name_rewritten(oe.name, ne.name, m)
                &&& attrs_view(ne.attributes) == rebuild_attrs(
                    Seq::empty(),
                    attrs_view(oe.attributes),
                    m,
                )
                &&& ne.template_contents == oe.template_contents
            },
            _ => false,
        },
        _ => data_like(o, n),
    }
}

/// The prefixes a payload uses without a binding in `m`.
pub open spec fn undef_in_data(o: NodeData, m: Map<Seq<char>, Seq<char>>) -> Set<Seq<char>> {
    match o {
        NodeData::Element(e) => undef_in_name(e.name.local@, m).union(
            undef_in_attrs(attrs_view(e.attributes), m),
        ),
        _ => Set::empty(),
    }
}

/// The prefixes the first `upto` nodes of `t` use without a binding in `m`.
pub open spec fn undef_tree(t: Tree, m: Map<Seq<char>, Seq<char>>, upto: int) -> Set<Seq<char>>
    decreases upto,
{
    if upto <= 0 {
        Set::empty()
    } else {
        undef_tree(t, m, upto - 1).union(undef_in_data(t.data_of(upto - 1), m))
    }
}

/// Whether `t2` is `t1` rebuilt by the pass: same store size, identical
/// links, and every payload rewritten against `m`.
pub open spec fn tree_rewritten(t1: Tree, t2: Tree, m: Map<Seq<char>, Seq<char>>) -> bool {
    &&& t2.wf()
    &&& t2.node_count() == t1.node_count()
    &&& (forall|i: int| t1.in_range(i) ==> #[trigger] t2.parent_of(i) == t1.parent_of(i))
    &&& (forall|i: int| t1.in_range(i) ==> #[trigger] t2.children_of(i) == t1.children_of(i))
    &&& (forall|i: int| t1.in_range(i) ==> data_rewritten(t1.data_of(i), #[trigger] t2.data_of(i), m))
}

/// Rewrites one payload against the prefix map.
fn rewrite_node_data(data: &NodeData, pm: &PrefixMap, und: &mut UndefList) -> (r: NodeData)
    requires
        old(und).sorted(),
    ensures
        data_rewritten(*data, r, pm@),
        final(und).sorted(),
        final(und).set_view() == old(und).set_view().union(undef_in_data(*data, pm@)),
    {
    match data {
        NodeData::Element(e) => {
            let ghost und0 = und.set_view();
            let name2 = rewrite_name(&e.name, pm, und);
            let attrs2 = rebuild_attributes(&e.attributes, pm, und);
            proof {
                assert(und.set_view() =~= und0.union(undef_in_data(*data, pm@)));
            }
            NodeData::Element(
                ElementData {
                    name: name2,
                    attributes: attrs2,
                    template_contents: e.template_contents,
                },
            )
        },
        _ => {
            proof {
                assert(old(und).set_view().union(undef_in_data(*data, pm@)) =~= old(
                    und,
                ).set_view());
            }
            data.duplicate()
        },
    }
}

impl UndefList {
    /// Whether no undefined prefix was recorded.
    fn is_empty(&self) -> (r: bool)
        ensures
            r == (self.set_view() == Set::<Seq<char>>::empty()),
    {
        let r = self.entries.len() == 0;
        proof {
            if self.entries@.len() == 0 {
                assert(self.set_view() =~= Set::<Seq<char>>::empty());
            } else {
                lemma_contains_of_set(self.entries@, self.entries@.len() - 1);
            }
        }
        r
    }
}

/// Applies the `xmlns:*` declarations of the document to every prefixed
/// element and attribute name, with options.
///
/// The whole node store is rebuilt: element names and attribute names with
/// a colon are split at the first colon and resolved against the prefix
/// map; `xmlns` declaration attributes are stripped; every other payload is
/// carried over unchanged, and all links stay as they were, so `root` still
/// addresses the same document in the result.
///
/// In strict mode the pass fails when some prefix has no binding; the error
/// still carries the fully rebuilt store, with the null namespace in place
/// of the undefined bindings, and the sorted, de-duplicated list of the
/// undefined prefixes.
pub fn apply_xmlns_opts(t: &Tree, root: usize, options: &NsOptions) -> (r: NsResult<Tree>)
    requires
        t.wf(),
        t.in_range(root as int),
    ensures
        ({
            let m = ns_map_spec(*t, root as int, options.namespaces@);
            let und = undef_tree(*t, m, t.node_count() as int);
            match r {
                Ok(nt) => (und == Set::<Seq<char>>::empty() || !options.strict) && tree_rewritten(
                    *t,
                    nt,
                    m,
                ),
                Err(e) => match e {
                    NsError::UndefinedPrefix(nt, lst) => {
                        &&& options.strict
                        &&& und != Set::<Seq<char>>::empty()
                        &&& tree_rewritten(*t, nt, m)
                        &&& strictly_sorted(lst@)
                        &&& str_seq_set(lst@) == und
                    },
                    _ => false,
                },
            }
        }),
{
    let ghost m = ns_map_spec(*t, root as int, options.namespaces@);
    // The base bindings handed in by the caller.
    let mut pm = PrefixMap::new();
    let nopts = options.namespaces.len();
    let mut oi: usize = 0;
    proof {
        assert(options.namespaces@.subrange(0, 0) =~= Seq::<(String, String)>::empty());
    }
    while oi < nopts
        invariant
            nopts == options.namespaces@.len(),
            oi <= nopts,
            pm@ == assoc_map(options.namespaces@.subrange(0, oi as int)),
        decreases nopts - oi,
    {
        let ghost prefix_s = options.namespaces@.subrange(0, oi as int);
        let pair = &options.namespaces[oi];
        pm.insert(pair.0.clone(), pair.1.clone());
        proof {
            let ext = options.namespaces@.subrange(0, oi + 1 as int);
            assert(ext =~= prefix_s.push(options.namespaces@[oi as int]));
            assert(ext.drop_last() =~= prefix_s);
        }
        oi = oi + 1;
    }
    proof {
        assert(options.namespaces@.subrange(0, nopts as int) =~= options.namespaces@);
    }
    // Overlay the declarations found on the first `html` element.
    proof {
        crate::iter::lemma_traversal_balanced(*t, root as int);
    }
    let desc = crate::iter::inclusive_descendants(t, root);
    let ghost dseq = crate::iter::descendants_of(*t, root as int);
    let ndesc = desc.len();
    let mut di: usize = 0;
    let mut html_at: Option<usize> = None;
    proof {
        assert(dseq.skip(0) =~= dseq);
    }
    while di < ndesc
        invariant_except_break
            html_at == None::<usize>,
            first_html(*t, dseq) == first_html(*t, dseq.skip(di as int)),
        invariant
            t.wf(),
            desc@ == dseq,
            ndesc == dseq.len(),
            di <= ndesc,
            forall|j: int| 0 <= j < dseq.len() ==> t.in_range((#[trigger] dseq[j]) as int),
        ensures
            match html_at {
                Some(x) => first_html(*t, dseq) == Some(x) && t.in_range(x as int),
                None => first_html(*t, dseq) == None::<usize>,
            },
        decreases ndesc - di,
    {
        let x = desc[di];
        let ghost suffix = dseq.skip(di as int);
        proof {
            assert(suffix[0] == dseq[di as int]);
            assert(suffix.drop_first() =~= dseq.skip(di + 1 as int));
        }
        let is_html = match t.data(x) {
            NodeData::Element(e) => str_eq(e.name.local.as_str(), "html"),
            _ => false,
        };
        if is_html {
            html_at = Some(x);
            proof {
                assert(first_html(*t, dseq) == Some(x));
            }
            break;
        }
        di = di + 1;
    }
    match html_at {
        None => {
            proof {
                assert(dseq.skip(ndesc as int) =~= Seq::<usize>::empty());
                assert(first_html(*t, dseq) == None::<usize>);
                assert(pm@ == m);
            }
        },
        Some(h) => {
            proof {
                lemma_first_html_is_html(*t, dseq);
            }
            let pair = match t.data(h) {
                NodeData::Element(e) => (e.attributes.len(), Ghost(attrs_view(e.attributes))),
                _ => (0, Ghost(Seq::<AttrV>::empty())),
            };
            let alen = pair.0;
            let ghost hattrs = pair.1@;
            let mut ai: usize = 0;
            proof {
                assert(hattrs.subrange(0, 0) =~= Seq::<AttrV>::empty());
            }
            while ai < alen
                invariant
                    t.wf(),
                    t.in_range(h as int),
                    match t.data_of(h as int) {
                        NodeData::Element(e) => hattrs == attrs_view(e.attributes) && alen
                            == e.attributes@.len(),
                        _ => false,
                    },
                    ai <= alen,
                    pm@ == xmlns_overlay(
                        ns_map_base(options.namespaces@),
                        hattrs.subrange(0, ai as int),
                    ),
                decreases alen - ai,
            {
                let ghost prefix_a = hattrs.subrange(0, ai as int);
                let (is_decl, pstr, vstr) = match t.data(h) {
                    NodeData::Element(e) => {
                        let entry = e.attributes.entry_at(ai);
                        let local = &entry.0.local;
                        if str_has_prefix(local.as_str(), "xmlns:") {
                            let len = local.as_str().unicode_len();
                            proof {
                                reveal_strlit("xmlns:");
                            }
                            let pfx = local.as_str().substring_char(6, len).to_owned();
                            (true, pfx, entry.1.value.clone())
                        } else {
                            (false, String::new(), String::new())
                        }
                    },
                    _ => (false, String::new(), String::new()),
                };
                if is_decl {
                    pm.insert(pstr, vstr);
                }
                proof {
                    let ext = hattrs.subrange(0, ai + 1 as int);
                    assert(ext =~= prefix_a.push(hattrs[ai as int]));
                    assert(ext.drop_last() =~= prefix_a);
                }
                ai = ai + 1;
            }
            proof {
                assert(hattrs.subrange(0, alen as int) =~= hattrs);
                assert(pm@ == m);
            }
        },
    }
    // Rebuild every payload against the resolved map.
    let mut nt = t.duplicate();
    let mut und = UndefList::new();
    let count = t.len();
    let mut i: usize = 0;
    proof {
        assert(und.set_view() =~= undef_tree(*t, m, 0));
    }
    while i < count
        invariant
            t.wf(),
            count == t.node_count(),
            i <= count,
            pm@ == m,
            und.sorted(),
            und.set_view() == undef_tree(*t, m, i as int),
            nt.wf(),
            nt.node_count() == t.node_count(),
            forall|j: int| t.in_range(j) ==> #[trigger] nt.parent_of(j) == t.parent_of(j),
            forall|j: int| t.in_range(j) ==> #[trigger] nt.children_of(j) == t.children_of(j),
            forall|j: int|
                0 <= j < i ==> data_rewritten(t.data_of(j), #[trigger] nt.data_of(j), m),
        decreases count - i,
    {
        let nd = rewrite_node_data(t.data(i), &pm, &mut und);
        proof {
            match &nd {
                NodeData::Element(e) => {
                    match t.data_of(i as int) {
                        NodeData::Element(e0) => {
                            assert(e.template_contents == e0.template_contents);
                        },
                        _ => {
                            assert(false);
                        },
                    }
                },
                _ => {},
            }
        }
        nt.set_node_data(i, nd);
        proof {
            assert(und.set_view() =~= undef_tree(*t, m, i + 1 as int));
        }
        i = i + 1;
    }
    // Hand the rebuilt store back, or report the undefined prefixes.
    if und.is_empty() || !options.strict {
        Ok(nt)
    } else {
        Err(NsError::UndefinedPrefix(nt, und.into_vec()))
    }
}

/// The caller's base bindings as a map.
pub open spec fn ns_map_base(base: Seq<(String, String)>) -> Map<Seq<char>, Seq<char>> {
    assoc_map(base)
}

/// The attribute list with namespace declarations removed, order kept.
pub open spec fn strip_xmlns(s: Seq<AttrV>) -> Seq<AttrV>
    decreases s.len(),
{
    if s.len() == 0 {
        Seq::empty()
    } else if is_xmlns_key(s[0].key) {
        strip_xmlns(s.drop_first())
    } else {
        seq![s[0]] + strip_xmlns(s.drop_first())
    }
}

/// Whether no attribute of `s` has a colon in its local name.
pub open spec fn no_colon_names(s: Seq<AttrV>) -> bool {
    forall|j: int| 0 <= j < s.len() ==> find_char((#[trigger] s[j]).key.1, ':') < 0
}

/// Whether the keys of `s` are distinct.
pub open spec fn keys_distinct(s: Seq<AttrV>) -> bool {
    forall|j1: int, j2: int| 0 <= j1 < j2 < s.len() ==> (#[trigger] s[j1]).key != (#[trigger] s[j2]).key
}

/// Whether no key occurs both in `a` and in `b`.
pub open spec fn keys_disjoint(a: Seq<AttrV>, b: Seq<AttrV>) -> bool {
    forall|j1: int, j2: int|
        0 <= j1 < a.len() && 0 <= j2 < b.len() ==> (#[trigger] a[j1]).key != (#[trigger] b[j2]).key
}

proof fn lemma_rebuild_no_colon(acc: Seq<AttrV>, s: Seq<AttrV>, m: Map<Seq<char>, Seq<char>>)
    requires
        no_colon_names(s),
        keys_distinct(s),
        keys_distinct(acc),
        keys_disjoint(acc, s),
    ensures
        rebuild_attrs(acc, s, m) == acc + strip_xmlns(s),
    decreases s.len(),
{
    if s.len() == 0 {
        assert(acc + strip_xmlns(s) =~= acc);
    } else {
        let e = s[0];
        let rest = s.drop_first();
        assert(rewrite_attr_v(e, m) == e);
        assert forall|j1: int, j2: int|
            0 <= j1 < j2 < rest.len() implies (#[trigger] rest[j1]).key != (#[trigger] rest[j2]).key by {
            assert(rest[j1] == s[j1 + 1]);
            assert(rest[j2] == s[j2 + 1]);
        }
        assert forall|j: int| 0 <= j < rest.len() implies find_char(
            (#[trigger] rest[j]).key.1,
            ':',
        ) < 0 by {
            assert(rest[j] == s[j + 1]);
        }
        if is_xmlns_key(e.key) {
            assert forall|j1: int, j2: int|
                0 <= j1 < acc.len() && 0 <= j2 < rest.len() implies (#[trigger] acc[j1]).key
                != (#[trigger] rest[j2]).key by {
                assert(rest[j2] == s[j2 + 1]);
            }
            lemma_rebuild_no_colon(acc, rest, m);
        } else {
            assert forall|j: int| 0 <= j < acc.len() implies (#[trigger] acc[j]).key != e.key by {
                assert(s[0].key == e.key);
            }
            lemma_idx_of_key_none(acc, e.key);
            let acc2 = acc.push(e);
            assert(upsert(acc, e) == acc2);
            assert forall|j1: int, j2: int|
                0 <= j1 < j2 < acc2.len() implies (#[trigger] acc2[j1]).key != (#[trigger] acc2[j2]).key by {
                if j2 == acc.len() {
                    assert(acc2[j2] == e);
                } else {
                    assert(acc2[j1] == acc[j1]);
                    assert(acc2[j2] == acc[j2]);
                }
            }
            assert forall|j1: int, j2: int|
                0 <= j1 < acc2.len() && 0 <= j2 < rest.len() implies (#[trigger] acc2[j1]).key
                != (#[trigger] rest[j2]).key by {
                assert(rest[j2] == s[j2 + 1]);
                if j1 == acc.len() {
                    assert(acc2[j1] == e && e.key == s[0].key);
                } else {
                    assert(acc2[j1] == acc[j1]);
                }
            }
            lemma_rebuild_no_colon(acc2, rest, m);
            assert(acc2 + strip_xmlns(rest) =~= acc + (seq![e] + strip_xmlns(rest)));
        }
    }
}

/// Law: on a document without colon-prefixed names, normalization is a
/// no-op apart from stripping the `xmlns` declaration attributes: an
/// element keeps its qualified name, its attribute list merely loses the
/// declarations, and every other node keeps its content.
pub proof fn lemma_rewrite_without_prefixes(o: NodeData, n: NodeData, m: Map<Seq<char>, Seq<char>>)
    requires
        data_rewritten(o, n, m),
        match o {
            NodeData::Element(e) => {
                &&& find_char(e.name.local@, ':') < 0
                &&& no_colon_names(attrs_view(e.attributes))
                &&& e.attributes.wf()
            },
            _ => true,
        },
    ensures
        match (o, n) {
            (NodeData::Element(oe), NodeData::Element(ne)) => {
                &&& qual_view(ne.name) == qual_view(oe.name)
                &&& attrs_view(ne.attributes) == strip_xmlns(attrs_view(oe.attributes))
                &&& ne.template_contents == oe.template_contents
            },
            _ => data_like(o, n),
        },
{
    match o {
        NodeData::Element(oe) => {
            match n {
                NodeData::Element(ne) => {
                    let ov = attrs_view(oe.attributes);
                    assert forall|j1: int, j2: int|
                        0 <= j1 < j2 < ov.len() implies (#[trigger] ov[j1]).key
                        != (#[trigger] ov[j2]).key by {
                        assert(ov[j1] == attr_view_one(oe.attributes@[j1]));
                        assert(ov[j2] == attr_view_one(oe.attributes@[j2]));
                    }
                    lemma_rebuild_no_colon(Seq::empty(), ov, m);
                    assert(Seq::<AttrV>::empty() + strip_xmlns(ov) =~= strip_xmlns(ov));
                },
                _ => {},
            }
        },
        _ => {},
    }
}

/// Applies the `xmlns:*` declarations of the document to every prefixed
/// element and attribute name, leniently: an undefined prefix gets the
/// null namespace and the pass still succeeds.
pub fn apply_xmlns(t: &Tree, root: usize) -> (r: NsResult<Tree>)
    requires
        t.wf(),
        t.in_range(root as int),
    ensures
        ({
            let m = ns_map_spec(*t, root as int, Seq::<(String, String)>::empty());
            match r {
                Ok(nt) => tree_rewritten(*t, nt, m),
                Err(_) => false,
            }
        }),
{
    let options = NsOptions::new();
    apply_xmlns_opts(t, root, &options)
}

/// Applies the `xmlns:*` declarations of the document strictly: any
/// undefined prefix fails the pass, with the rebuilt document and the
/// sorted prefix list carried in the error.
pub fn apply_xmlns_strict(t: &Tree, root: usize) -> (r: NsResult<Tree>)
    requires
        t.wf(),
        t.in_range(root as int),
    ensures
        ({
            let m = ns_map_spec(*t, root as int, Seq::<(String, String)>::empty());
            let und = undef_tree(*t, m, t.node_count() as int);
            match r {
                Ok(nt) => und == Set::<Seq<char>>::empty() && tree_rewritten(*t, nt, m),
                Err(e) => match e {
                    NsError::UndefinedPrefix(nt, lst) => {
                        &&& und != Set::<Seq<char>>::empty()
                        &&& tree_rewritten(*t, nt, m)
                        &&& strictly_sorted(lst@)
                        &&& str_seq_set(lst@) == und
                    },
                    _ => false,
                },
            }
        }),
{
    let mut options = NsOptions::new();
    options.strict = true;
    apply_xmlns_opts(t, root, &options)
}

} // verus!
