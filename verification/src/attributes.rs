//! Attribute handling and storage.
//!
//! An element's attributes form an insertion-ordered mapping from an
//! expanded name (namespace URI plus local name) to a prefix and a value.
//! The store keeps one entry per expanded name; entries keep the position
//! of their first insertion.

use vstd::prelude::*;

verus! {

use crate::text::str_eq;

/// A (namespace URI, local name) pair that uniquely identifies an attribute
/// or element regardless of any prefix.
///
/// The null (absent) namespace is the empty string.
#[derive(Debug, Clone, PartialEq, Eq)]
pub struct ExpandedName {
    /// Namespace URI; empty for the null namespace.
    pub ns: String,
    /// "Local" part of the name.
    pub local: String,
}

impl ExpandedName {
    /// The mathematical identity of this name: the pair of its two parts.
    pub open spec fn key(&self) -> (Seq<char>, Seq<char>) {
        (self.ns@, self.local@)
    }

    /// Trivial constructor.
    pub fn new(ns: &str, local: &str) -> (r: ExpandedName)
        ensures
            r.ns@ == ns@,
            r.local@ == local@,
    {
        ExpandedName { ns: ns.to_owned(), local: local.to_owned() }
    }

    /// Whether two expanded names denote the same (namespace, local) pair.
    pub fn same_name(&self, other: &ExpandedName) -> (r: bool)
        ensures
            r == (self.key() == other.key()),
    {
        let r = self.ns == other.ns && self.local == other.local;
        r
    }

    /// A copy with the same parts.
    pub fn duplicate(&self) -> (r: ExpandedName)
        ensures
            r == *self,
    {
        ExpandedName { ns: self.ns.clone(), local: self.local.clone() }
    }
}

/// The non-identifying parts of an attribute.
#[derive(Debug, Clone, PartialEq, Eq)]
pub struct Attribute {
    /// The namespace prefix, if any.
    pub prefix: Option<String>,
    /// The attribute value.
    pub value: String,
}

impl Attribute {
    /// A copy with the same prefix and value.
    pub fn duplicate(&self) -> (r: Attribute)
        ensures
            r == *self,
    {
        let prefix = match &self.prefix {
            Some(p) => Some(p.clone()),
            None => None,
        };
        Attribute { prefix, value: self.value.clone() }
    }
}

/// An insertion-ordered map from [`ExpandedName`] to [`Attribute`].
///
/// Invariant: at most one entry per (namespace, local) pair.
#[derive(Debug, Clone, PartialEq)]
pub struct Attributes {
    entries: Vec<(ExpandedName, Attribute)>,
}

impl View for Attributes {
    type V = Seq<(ExpandedName, Attribute)>;

    closed spec fn view(&self) -> Seq<(ExpandedName, Attribute)> {
        self.entries@
    }
}

impl Attributes {
    /// Key uniqueness: no two entries share an expanded name.
    pub open spec fn wf(&self) -> bool {
        forall|i: int, j: int|
            0 <= i < j < self@.len() ==> (#[trigger] self@[i]).0.key() != (#[trigger] self@[j]).0.key()
    }

    /// Whether some entry has the given key.
    pub open spec fn contains_key(&self, k: (Seq<char>, Seq<char>)) -> bool {
        exists|i: int| 0 <= i < self@.len() && (#[trigger] self@[i]).0.key() == k
    }

    /// An empty attribute store.
    pub fn new() -> (r: Attributes)
        ensures
            r@ =~= Seq::<(ExpandedName, Attribute)>::empty(),
            r.wf(),
    {
        Attributes { entries: Vec::new() }
    }

    /// The number of stored attributes.
    pub fn len(&self) -> (r: usize)
        ensures
            r == self@.len(),
    {
        self.entries.len()
    }

    /// The entry at a position, in insertion order.
    pub fn entry_at(&self, index: usize) -> (r: &(ExpandedName, Attribute))
        requires
            index < self@.len(),
        ensures
            *r == self@[index as int],
    {
        &self.entries[index]
    }

    /// Position of the entry with the given name, if any.
    fn index_of(&self, ns: &str, local: &str) -> (r: Option<usize>)
        ensures
            match r {
                Some(i) => i < self@.len() && self@[i as int].0.key() == (ns@, local@),
                None => !self.contains_key((ns@, local@)),
            },
    {
        let n = self.entries.len();
        let mut i: usize = 0;
        while i < n
            invariant
                n == self@.len(),
                i <= n,
                forall|j: int| 0 <= j < i ==> (#[trigger] self@[j]).0.key() != (ns@, local@),
            decreases n - i,
        {
            let name = &self.entries[i].0;
            if str_eq(name.ns.as_str(), ns) && str_eq(name.local.as_str(), local) {
                return Some(i);
            }
            i = i + 1;
        }
        None
    }

    /// Whether an attribute with the given namespace and local name exists.
    ///
    /// Similar to DOM's `hasAttributeNS()`.
    pub fn has_ns(&self, namespace: &str, local_name: &str) -> (r: bool)
        ensures
            r == self.contains_key((namespace@, local_name@)),
    {
        self.index_of(namespace, local_name).is_some()
    }

    /// The value of the attribute with the given namespace and local name.
    ///
    /// Similar to DOM's `getAttributeNS()`.
    pub fn get_ns(&self, namespace: &str, local_name: &str) -> (r: Option<&str>)
        ensures
            match r {
                Some(v) => exists|i: int|
                    0 <= i < self@.len() && (#[trigger] self@[i]).0.key() == (namespace@, local_name@)
                        && v@ == self@[i].1.value@,
                None => !self.contains_key((namespace@, local_name@)),
            },
    {
        match self.index_of(namespace, local_name) {
            Some(i) => Some(self.entries[i].1.value.as_str()),
            None => None,
        }
    }

    /// Inserts an attribute under the given name, replacing and returning the
    /// previous attribute with that name, if any. A replaced entry keeps its
    /// position; a new entry goes last.
    ///
    /// Similar to DOM's `setAttributeNS()`.
    pub fn insert_ns(&mut self, namespace: &str, local_name: &str, prefix: Option<String>, value: String) -> (r: Option<Attribute>)
        requires
            old(self).wf(),
        ensures
            final(self).wf(),
            match r {
                Some(prev) => exists|i: int|
                    0 <= i < old(self)@.len()
                        && (#[trigger] old(self)@[i]).0.key() == (namespace@, local_name@)
                        && prev == old(self)@[i].1
                        && final(self)@ == old(self)@.update(
                            i,
                            (old(self)@[i].0, Attribute { prefix: prefix, value: value }),
                        ),
                None => {
                    &&& !old(self).contains_key((namespace@, local_name@))
                    &&& final(self)@.len() == old(self)@.len() + 1
                    &&& final(self)@.drop_last() == old(self)@
                    &&& final(self)@.last().0.key() == (namespace@, local_name@)
                    &&& final(self)@.last().1 == (Attribute { prefix: prefix, value: value })
                },
            },
    {
        let attr = Attribute { prefix, value };
        match self.index_of(namespace, local_name) {
            Some(i) => {
                let name = self.entries[i].0.duplicate();
                let prev = self.entries[i].1.duplicate();
                self.entries.set(i, (name, attr));
                proof {
                    let k = i as int;
                    assert(self@ =~= old(self)@.update(k, (old(self)@[k].0, self@[k].1)));
                    assert(0 <= k < old(self)@.len()
                        && old(self)@[k].0.key() == (namespace@, local_name@)
                        && prev == old(self)@[k].1
                        && self@ == old(self)@.update(
                            k,
                            (old(self)@[k].0, Attribute { prefix: prefix, value: value }),
                        ));
                }
                Some(prev)
            },
            None => {
                let name = ExpandedName::new(namespace, local_name);
                self.entries.push((name, attr));
                proof {
                    assert(self@.drop_last() =~= old(self)@);
                }
                None
            },
        }
    }

    /// Removes and returns the attribute with the given name, if any.
    /// The last entry is swapped into the freed position.
    ///
    /// Similar to DOM's `removeAttributeNS()`.
    pub fn remove_ns(&mut self, namespace: &str, local_name: &str) -> (r: Option<Attribute>)
        requires
            old(self).wf(),
        ensures
            final(self).wf(),
            match r {
                Some(prev) => exists|i: int|
                    0 <= i < old(self)@.len()
                        && (#[trigger] old(self)@[i]).0.key() == (namespace@, local_name@)
                        && prev == old(self)@[i].1
                        && final(self)@ == old(self)@.update(
                            i,
                            old(self)@[old(self)@.len() - 1],
                        ).drop_last(),
                None => {
                    &&& !old(self).contains_key((namespace@, local_name@))
                    &&& final(self)@ == old(self)@
                },
            },
    {
        match self.index_of(namespace, local_name) {
            Some(i) => {
                let prev = self.entries.swap_remove(i);
                Some(prev.1)
            },
            None => None,
        }
    }

    /// Whether an attribute with the given local name exists in the null namespace.
    pub fn contains(&self, local_name: &str) -> (r: bool)
        ensures
            r == self.contains_key((Seq::<char>::empty(), local_name@)),
    {
        proof {
            reveal_strlit("");
            assert(""@ =~= Seq::<char>::empty());
        }
        self.has_ns("", local_name)
    }

    /// The value of the attribute with the given local name in the null namespace.
    pub fn get(&self, local_name: &str) -> (r: Option<&str>)
        ensures
            match r {
                Some(v) => exists|i: int|
                    0 <= i < self@.len()
                        && (#[trigger] self@[i]).0.key() == (Seq::<char>::empty(), local_name@)
                        && v@ == self@[i].1.value@,
                None => !self.contains_key((Seq::<char>::empty(), local_name@)),
            },
    {
        proof {
            reveal_strlit("");
            assert(""@ =~= Seq::<char>::empty());
        }
        self.get_ns("", local_name)
    }

    /// Inserts an attribute with the given local name into the null namespace,
    /// without a prefix.
    pub fn insert(&mut self, local_name: &str, value: String) -> (r: Option<Attribute>)
        requires
            old(self).wf(),
        ensures
            final(self).wf(),
            match r {
                Some(prev) => exists|i: int|
                    0 <= i < old(self)@.len()
                        && (#[trigger] old(self)@[i]).0.key() == (Seq::<char>::empty(), local_name@)
                        && prev == old(self)@[i].1
                        && final(self)@ == old(self)@.update(
                            i,
                            (old(self)@[i].0, Attribute { prefix: None, value: value }),
                        ),
                None => {
                    &&& !old(self).contains_key((Seq::<char>::empty(), local_name@))
                    &&& final(self)@.len() == old(self)@.len() + 1
                    &&& final(self)@.drop_last() == old(self)@
                    &&& final(self)@.last().0.key() == (Seq::<char>::empty(), local_name@)
                    &&& final(self)@.last().1 == (Attribute { prefix: None, value: value })
                },
            },
    {
        proof {
            reveal_strlit("");
            assert(""@ =~= Seq::<char>::empty());
        }
        self.insert_ns("", local_name, None, value)
    }

    /// Removes and returns the attribute with the given local name from the
    /// null namespace. The last entry is swapped into the freed position.
    pub fn remove(&mut self, local_name: &str) -> (r: Option<Attribute>)
        requires
            old(self).wf(),
        ensures
            final(self).wf(),
            match r {
                Some(prev) => exists|i: int|
                    0 <= i < old(self)@.len()
                        && (#[trigger] old(self)@[i]).0.key() == (Seq::<char>::empty(), local_name@)
                        && prev == old(self)@[i].1
                        && final(self)@ == old(self)@.update(
                            i,
                            old(self)@[old(self)@.len() - 1],
                        ).drop_last(),
                None => {
                    &&& !old(self).contains_key((Seq::<char>::empty(), local_name@))
                    &&& final(self)@ == old(self)@
                },
            },
    {
        proof {
            reveal_strlit("");
            assert(""@ =~= Seq::<char>::empty());
        }
        self.remove_ns("", local_name)
    }

    /// A copy holding equal entries in the same order.
    pub fn duplicate(&self) -> (r: Attributes)
        ensures
            r@ == self@,
    {
        let n = self.entries.len();
        let mut out: Vec<(ExpandedName, Attribute)> = Vec::new();
        let mut i: usize = 0;
        while i < n
            invariant
                n == self@.len(),
                i <= n,
                out@ == self@.subrange(0, i as int),
            decreases n - i,
        {
            let entry = &self.entries[i];
            out.push((entry.0.duplicate(), entry.1.duplicate()));
            proof {
                assert(out@ =~= self@.subrange(0, i + 1 as int));
            }
            i = i + 1;
        }
        proof {
            assert(self@.subrange(0, n as int) =~= self@);
        }
        Attributes { entries: out }
    }

    /// The (local name, value) pairs of the attributes in the given namespace,
    /// in insertion order.
    pub fn attrs_in_ns(&self, namespace: &str) -> (r: Vec<(String, String)>)
        ensures
            r@.map_values(|p: (String, String)| (p.0@, p.1@)) == in_ns_list(self@, namespace@),
    {
        let n = self.entries.len();
        let mut out: Vec<(String, String)> = Vec::new();
        let mut i: usize = 0;
        while i < n
            invariant
                n == self@.len(),
                i <= n,
                out@.map_values(|p: (String, String)| (p.0@, p.1@)) == in_ns_list(
                    self@.subrange(0, i as int),
                    namespace@,
                ),
            decreases n - i,
        {
            let ghost prefix = self@.subrange(0, i as int);
            let ghost out0 = out@;
            let ghost f = |p: (String, String)| (p.0@, p.1@);
            let ghost e = self@[i as int];
            let entry = &self.entries[i];
            if str_eq(entry.0.ns.as_str(), namespace) {
                out.push((entry.0.local.clone(), entry.1.value.clone()));
                proof {
                    assert(out@.map_values(f) =~= out0.map_values(f).push((e.0.local@, e.1.value@)));
                }
            }
            proof {
                let ext = self@.subrange(0, i + 1 as int);
                assert(ext =~= prefix.push(e));
                assert(ext.drop_last() =~= prefix);
                assert(ext.last() == e);
                assert(out@.map_values(f) =~= in_ns_list(ext, namespace@));
            }
            i = i + 1;
        }
        proof {
            assert(self@.subrange(0, n as int) =~= self@);
        }
        out
    }
}

/// The abstract content of one attribute entry: its identifying key and the
/// views of its prefix and value.
pub ghost struct AttrV {
    /// The (namespace, local) pair identifying the attribute.
    pub key: (Seq<char>, Seq<char>),
    /// The view of the prefix, if any.
    pub prefix: Option<Seq<char>>,
    /// The view of the value.
    pub value: Seq<char>,
}

/// The view of an optional string.
pub open spec fn opt_str_view(o: Option<String>) -> Option<Seq<char>> {
    match o {
        Some(s) => Some(s@),
        None => None,
    }
}

/// The abstract content of one attribute entry.
pub open spec fn attr_view_one(e: (ExpandedName, Attribute)) -> AttrV {
    AttrV { key: e.0.key(), prefix: opt_str_view(e.1.prefix), value: e.1.value@ }
}

/// The abstract content of an attribute store, in order.
pub open spec fn attrs_view(a: Attributes) -> Seq<AttrV> {
    a@.map_values(|e: (ExpandedName, Attribute)| attr_view_one(e))
}

/// The (local name, value) projection of the entries of `s` that lie in
/// namespace `ns`, keeping their order.
pub open spec fn in_ns_list(s: Seq<(ExpandedName, Attribute)>, ns: Seq<char>) -> Seq<(Seq<char>, Seq<char>)>
    decreases s.len(),
{
    if s.len() == 0 {
        Seq::empty()
    } else {
        let rest = in_ns_list(s.drop_last(), ns);
        if s.last().0.ns@ == ns {
            rest.push((s.last().0.local@, s.last().1.value@))
        } else {
            rest
        }
    }
}

} // verus!
