//! The node store and its mutation primitives.
//!
//! Nodes live in an arena and address one another by stable indices: each
//! node records its parent and the ordered list of its children. Storing
//! links as indices keeps the ownership graph acyclic by construction and
//! sidesteps the cycle and lifetime concerns of pointer-linked trees; a
//! detached subtree simply keeps its slots in the arena.
//!
//! Sibling order is derived from the parent's child list, so the symmetry
//! between forward and backward sibling links holds by definition and is
//! stated as such on the accessors.

use vstd::prelude::*;

verus! {

use crate::attributes::Attributes;
use crate::text::str_eq;

/// A document-wide legacy-compatibility flag, set once by the parser.
#[derive(Debug, Clone, Copy, PartialEq, Eq, Structural)]
pub enum QuirksMode {
    /// Full standards mode.
    NoQuirks,
    /// Almost-standards mode.
    LimitedQuirks,
    /// Quirks mode.
    Quirks,
}

/// The name of an element: namespace URI, optional prefix, and local name.
#[derive(Debug, Clone, PartialEq, Eq)]
pub struct QualName {
    /// The namespace prefix the name was written with, if any.
    pub prefix: Option<String>,
    /// Namespace URI; empty for the null namespace.
    pub ns: String,
    /// "Local" part of the name.
    pub local: String,
}

impl QualName {
    /// The (namespace, local) pair that identifies the name.
    pub open spec fn expanded(&self) -> (Seq<char>, Seq<char>) {
        (self.ns@, self.local@)
    }

    /// Trivial constructor.
    pub fn new(prefix: Option<String>, ns: String, local: String) -> (r: QualName)
        ensures
            r == (QualName { prefix: prefix, ns: ns, local: local }),
    {
        QualName { prefix, ns, local }
    }

    /// A copy with the same parts.
    pub fn duplicate(&self) -> (r: QualName)
        ensures
            r == *self,
    {
        let prefix = match &self.prefix {
            Some(p) => Some(p.clone()),
            None => None,
        };
        QualName { prefix, ns: self.ns.clone(), local: self.local.clone() }
    }
}

/// Data specific to doctype nodes.
#[derive(Debug, Clone, PartialEq, Eq)]
pub struct Doctype {
    /// The doctype name.
    pub name: String,
    /// The public identifier.
    pub public_id: String,
    /// The system identifier.
    pub system_id: String,
}

/// Data specific to document nodes.
#[derive(Debug, Clone, Copy, PartialEq, Eq, Structural)]
pub struct DocumentData {
    /// The quirks mode the parser settled on.
    pub quirks_mode: QuirksMode,
}

/// Data specific to element nodes.
#[derive(Debug, Clone, PartialEq)]
pub struct ElementData {
    /// The element's qualified name.
    pub name: QualName,
    /// The element's attributes.
    pub attributes: Attributes,
    /// For template elements, the index of the separate document-fragment
    /// node that owns the template's contents.
    pub template_contents: Option<usize>,
}

/// The payload of a node, tagged by node kind.
#[derive(Debug, Clone, PartialEq)]
pub enum NodeData {
    /// An element.
    Element(ElementData),
    /// A text node.
    Text(String),
    /// A comment.
    Comment(String),
    /// A processing instruction: target and data.
    ProcessingInstruction(String, String),
    /// A doctype declaration.
    Doctype(Doctype),
    /// The document node.
    Document(DocumentData),
    /// A document fragment.
    DocumentFragment,
}

impl Doctype {
    /// A copy with the same parts.
    pub fn duplicate(&self) -> (r: Doctype)
        ensures
            r == *self,
    {
        Doctype {
            name: self.name.clone(),
            public_id: self.public_id.clone(),
            system_id: self.system_id.clone(),
        }
    }
}

impl NodeData {
    /// A copy holding an equal payload.
    pub fn duplicate(&self) -> (r: NodeData)
        ensures
            data_like(r, *self),
            data_like(*self, r),
    {
        match self {
            NodeData::Element(e) => NodeData::Element(
                ElementData {
                    name: e.name.duplicate(),
                    attributes: e.attributes.duplicate(),
                    template_contents: e.template_contents,
                },
            ),
            NodeData::Text(v) => NodeData::Text(v.clone()),
            NodeData::Comment(v) => NodeData::Comment(v.clone()),
            NodeData::ProcessingInstruction(target, data) => NodeData::ProcessingInstruction(
                target.clone(),
                data.clone(),
            ),
            NodeData::Doctype(d) => NodeData::Doctype(d.duplicate()),
            NodeData::Document(d) => NodeData::Document(*d),
            NodeData::DocumentFragment => NodeData::DocumentFragment,
        }
    }
}

#[derive(Debug)]
struct Node {
    parent: Option<usize>,
    children: Vec<usize>,
    data: NodeData,
}

/// The abstract content of a qualified name.
pub ghost struct QualNameV {
    /// The view of the prefix, if any.
    pub prefix: Option<Seq<char>>,
    /// The view of the namespace URI.
    pub ns: Seq<char>,
    /// The view of the local name.
    pub local: Seq<char>,
}

/// The abstract content of a qualified name.
pub open spec fn qual_view(q: QualName) -> QualNameV {
    QualNameV {
        prefix: crate::attributes::opt_str_view(q.prefix),
        ns: q.ns@,
        local: q.local@,
    }
}

/// Whether two payloads hold the same abstract content: same node kind and
/// equal views of every part.
pub open spec fn data_like(a: NodeData, b: NodeData) -> bool {
    match (a, b) {
        (NodeData::Element(x), NodeData::Element(y)) => {
            &&& qual_view(x.name) == qual_view(y.name)
            &&& crate::attributes::attrs_view(x.attributes) == crate::attributes::attrs_view(
                y.attributes,
            )
            &&& x.template_contents == y.template_contents
        },
        (NodeData::Text(x), NodeData::Text(y)) => x@ == y@,
        (NodeData::Comment(x), NodeData::Comment(y)) => x@ == y@,
        (NodeData::ProcessingInstruction(xt, xd), NodeData::ProcessingInstruction(yt, yd)) => xt@
            == yt@ && xd@ == yd@,
        (NodeData::Doctype(x), NodeData::Doctype(y)) => x.name@ == y.name@ && x.public_id@
            == y.public_id@ && x.system_id@ == y.system_id@,
        (NodeData::Document(x), NodeData::Document(y)) => x == y,
        (NodeData::DocumentFragment, NodeData::DocumentFragment) => true,
        _ => false,
    }
}

/// Whether a qualified name denotes a template element in the HTML namespace.
pub open spec fn spec_html_template(name: QualName) -> bool {
    name.ns@ == "http://www.w3.org/1999/xhtml"@ && name.local@ == "template"@
}

/// Whether `s2` is `s1` with its single entry equal to `c` taken out.
pub open spec fn minus_child(s1: Seq<usize>, s2: Seq<usize>, c: usize) -> bool {
    exists|k: int| 0 <= k < s1.len() && s1[k] == c && s2 == s1.remove(k)
}

/// The arena that holds a document's nodes.
///
/// Indices handed out by the constructors stay valid for the lifetime of the
/// tree; detaching a subtree never moves or frees slots.
#[derive(Debug)]
pub struct Tree {
    nodes: Vec<Node>,
}

impl Tree {
    /// The number of node slots in the arena.
    pub closed spec fn node_count(&self) -> nat {
        self.nodes@.len()
    }

    /// Whether `i` addresses a node of this tree.
    pub open spec fn in_range(&self, i: int) -> bool {
        0 <= i < self.node_count()
    }

    /// The parent link of node `i`.
    pub closed spec fn parent_of(&self, i: int) -> Option<usize> {
        self.nodes@[i].parent
    }

    /// The ordered child list of node `i`.
    pub closed spec fn children_of(&self, i: int) -> Seq<usize> {
        self.nodes@[i].children@
    }

    /// The payload of node `i`.
    pub closed spec fn data_of(&self, i: int) -> NodeData {
        self.nodes@[i].data
    }

    /// Parent and child links address nodes of the tree, and mirror each
    /// other: `c` lists `p` as parent exactly when `p` lists `c` once among
    /// its children.
    pub open spec fn links_wf(&self) -> bool {
        &&& (forall|i: int| self.in_range(i) ==> match #[trigger] self.parent_of(i) {
            Some(p) => self.in_range(p as int) && self.children_of(p as int).contains(i as usize),
            None => true,
        })
        &&& (forall|i: int, k: int|
            self.in_range(i) && 0 <= k < self.children_of(i).len()
                ==> self.in_range(#[trigger] self.children_of(i)[k] as int)
                    && self.parent_of(self.children_of(i)[k] as int) == Some(i as usize))
        &&& (forall|i: int, k1: int, k2: int|
            self.in_range(i) && 0 <= k1 < k2 < self.children_of(i).len()
                ==> #[trigger] self.children_of(i)[k1] != #[trigger] self.children_of(i)[k2])
        &&& (forall|i: int| self.in_range(i) ==> match #[trigger] self.data_of(i) {
            NodeData::Element(e) => match e.template_contents {
                Some(f) => self.in_range(f as int),
                None => true,
            },
            _ => true,
        })
    }

    /// The length of the parent chain above `i`, if it reaches a root within
    /// `fuel` steps.
    pub open spec fn depth_rec(&self, i: int, fuel: nat) -> Option<nat>
        decreases fuel,
    {
        if fuel == 0 {
            None
        } else {
            match self.parent_of(i) {
                None => Some(0),
                Some(p) => match self.depth_rec(p as int, (fuel - 1) as nat) {
                    None => None,
                    Some(d) => Some((d + 1) as nat),
                },
            }
        }
    }

    /// Every parent chain reaches a root: the graph is acyclic.
    pub open spec fn acyclic(&self) -> bool {
        forall|i: int| self.in_range(i) ==> (#[trigger] self.depth_rec(i, self.node_count() + 1)).is_some()
    }

    /// The number of ancestors above node `i`.
    pub open spec fn depth_of(&self, i: int) -> nat {
        self.depth_rec(i, self.node_count() + 1).unwrap()
    }

    /// A well-formed tree: consistent links and no cycles.
    pub open spec fn wf(&self) -> bool {
        self.links_wf() && self.acyclic()
    }

    /// The set of `i` and its ancestors.
    pub open spec fn chain_set(&self, i: int) -> Set<int>
        decreases self.depth_of(i),
        when self.wf() && self.in_range(i)
        via Self::chain_set_decreases
    {
        match self.parent_of(i) {
            None => set![i],
            Some(p) => self.chain_set(p as int).insert(i),
        }
    }

    #[via_fn]
    proof fn chain_set_decreases(&self, i: int) {
        if self.wf() && self.in_range(i) {
            if let Some(p) = self.parent_of(i) {
                self.lemma_depth_parent(i);
            }
        }
    }

    /// An empty tree.
    pub fn new() -> (r: Tree)
        ensures
            r.node_count() == 0,
            r.wf(),
    {
        Tree { nodes: Vec::new() }
    }

    /// The number of node slots, as machine integer.
    pub fn len(&self) -> (r: usize)
        ensures
            r == self.node_count(),
    {
        self.nodes.len()
    }

    /// Adds a detached node with the given payload and returns its index.
    ///
    /// If the payload is an element that refers to template contents, the
    /// referred index must address a node of this tree.
    pub fn push_node(&mut self, data: NodeData) -> (r: usize)
        requires
            old(self).wf(),
            match data {
                NodeData::Element(e) => match e.template_contents {
                    Some(f) => old(self).in_range(f as int),
                    None => true,
                },
                _ => true,
            },
        ensures
            final(self).wf(),
            final(self).node_count() == old(self).node_count() + 1,
            r == old(self).node_count(),
            final(self).parent_of(r as int) == None::<usize>,
            final(self).children_of(r as int) == Seq::<usize>::empty(),
            final(self).data_of(r as int) == data,
            forall|i: int| old(self).in_range(i) ==> #[trigger] final(self).parent_of(i) == old(self).parent_of(i),
            forall|i: int| old(self).in_range(i) ==> #[trigger] final(self).children_of(i) == old(self).children_of(i),
            forall|i: int| old(self).in_range(i) ==> #[trigger] final(self).data_of(i) == old(self).data_of(i),
    {
        let r = self.nodes.len();
        self.nodes.push(Node { parent: None, children: Vec::new(), data });
        proof {
            self.lemma_push_preserves(*old(self), r as int);
        }
        r
    }

    /// The parent of node `i`, if it has one.
    pub fn parent(&self, i: usize) -> (r: Option<usize>)
        requires
            self.in_range(i as int),
        ensures
            r == self.parent_of(i as int),
    {
        self.nodes[i].parent
    }

    /// The payload of node `i`.
    pub fn data(&self, i: usize) -> (r: &NodeData)
        requires
            self.in_range(i as int),
        ensures
            *r == self.data_of(i as int),
    {
        &self.nodes[i].data
    }

    /// The children of node `i`, in order.
    pub fn children(&self, i: usize) -> (r: Vec<usize>)
        requires
            self.in_range(i as int),
        ensures
            r@ == self.children_of(i as int),
    {
        let n = self.nodes[i].children.len();
        let mut out: Vec<usize> = Vec::new();
        let mut k: usize = 0;
        while k < n
            invariant
                self.in_range(i as int),
                n == self.children_of(i as int).len(),
                k <= n,
                out@ == self.children_of(i as int).subrange(0, k as int),
            decreases n - k,
        {
            out.push(self.nodes[i].children[k]);
            proof {
                assert(out@ =~= self.children_of(i as int).subrange(0, k + 1 as int));
            }
            k = k + 1;
        }
        proof {
            assert(self.children_of(i as int).subrange(0, n as int) =~= self.children_of(i as int));
        }
        out
    }

    /// The number of children of node `i`.
    pub fn child_count(&self, i: usize) -> (r: usize)
        requires
            self.in_range(i as int),
        ensures
            r == self.children_of(i as int).len(),
    {
        self.nodes[i].children.len()
    }

    /// The `k`-th child of node `i`.
    pub fn child_at(&self, i: usize, k: usize) -> (r: usize)
        requires
            self.in_range(i as int),
            k < self.children_of(i as int).len(),
        ensures
            r == self.children_of(i as int)[k as int],
    {
        self.nodes[i].children[k]
    }

    /// The first child of node `i`, unless it has no child.
    pub fn first_child(&self, i: usize) -> (r: Option<usize>)
        requires
            self.in_range(i as int),
        ensures
            r == (if self.children_of(i as int).len() > 0 {
                Some(self.children_of(i as int)[0])
            } else {
                None
            }),
    {
        if self.nodes[i].children.len() > 0 {
            Some(self.nodes[i].children[0])
        } else {
            None
        }
    }

    /// The last child of node `i`, unless it has no child.
    pub fn last_child(&self, i: usize) -> (r: Option<usize>)
        requires
            self.in_range(i as int),
        ensures
            r == (if self.children_of(i as int).len() > 0 {
                Some(self.children_of(i as int).last())
            } else {
                None
            }),
    {
        let n = self.nodes[i].children.len();
        if n > 0 {
            Some(self.nodes[i].children[n - 1])
        } else {
            None
        }
    }

    /// The position of `c` in its parent's child list.
    pub fn position_in_parent(&self, p: usize, c: usize) -> (r: usize)
        requires
            self.links_wf(),
            self.in_range(p as int),
            self.parent_of(c as int) == Some(p),
            self.in_range(c as int),
        ensures
            r < self.children_of(p as int).len(),
            self.children_of(p as int)[r as int] == c,
    {
        let n = self.nodes[p].children.len();
        let mut k: usize = 0;
        proof {
            assert(self.children_of(p as int).contains(c));
        }
        while k < n
            invariant
                self.in_range(p as int),
                n == self.children_of(p as int).len(),
                k <= n,
                self.children_of(p as int).contains(c),
                forall|j: int| 0 <= j < k ==> self.children_of(p as int)[j] != c,
            decreases n - k,
        {
            if self.nodes[p].children[k] == c {
                return k;
            }
            k = k + 1;
        }
        proof {
            let j = choose|j: int| 0 <= j < self.children_of(p as int).len()
                && self.children_of(p as int)[j] == c;
            assert(false);
        }
        0
    }

    /// The sibling just after `i` under the same parent, if any.
    ///
    /// Two nodes are adjacent siblings exactly when they sit at consecutive
    /// positions of their parent's child list, so `next_sibling(a) == Some(b)`
    /// holds if and only if `previous_sibling(b) == Some(a)`.
    pub fn next_sibling(&self, i: usize) -> (r: Option<usize>)
        requires
            self.links_wf(),
            self.in_range(i as int),
        ensures
            r == self.next_sibling_of(i as int),
    {
        match self.nodes[i].parent {
            None => None,
            Some(p) => {
                let k = self.position_in_parent(p, i);
                let n = self.nodes[p].children.len();
                proof {
                    self.lemma_position_unique(p as int, i, k as int);
                }
                if k + 1 < n {
                    let s = self.nodes[p].children[k + 1];
                    Some(s)
                } else {
                    None
                }
            },
        }
    }

    /// The sibling just before `i` under the same parent, if any.
    ///
    /// Mirror of [`Tree::next_sibling`]: `previous_sibling(b) == Some(a)`
    /// holds if and only if `next_sibling(a) == Some(b)`.
    pub fn previous_sibling(&self, i: usize) -> (r: Option<usize>)
        requires
            self.links_wf(),
            self.in_range(i as int),
        ensures
            r == self.previous_sibling_of(i as int),
    {
        match self.nodes[i].parent {
            None => None,
            Some(p) => {
                let k = self.position_in_parent(p, i);
                proof {
                    self.lemma_position_unique(p as int, i, k as int);
                }
                if k > 0 {
                    let s = self.nodes[p].children[k - 1];
                    Some(s)
                } else {
                    None
                }
            },
        }
    }

    /// Detaches node `c` from its parent and siblings. Children of `c` are
    /// not affected.
    ///
    /// The former siblings close ranks: the parent's child list loses exactly
    /// the one entry for `c` and keeps its order.
    pub fn detach(&mut self, c: usize)
        requires
            old(self).wf(),
            old(self).in_range(c as int),
        ensures
            final(self).wf(),
            final(self).node_count() == old(self).node_count(),
            final(self).parent_of(c as int) == None::<usize>,
            forall|j: int|
                old(self).in_range(j) && j != c ==> #[trigger] final(self).parent_of(j) == old(
                    self,
                ).parent_of(j),
            forall|i: int|
                old(self).in_range(i) ==> #[trigger] final(self).data_of(i) == old(self).data_of(i),
            match old(self).parent_of(c as int) {
                None => *final(self) == *old(self),
                Some(p) => {
                    &&& (forall|i: int|
                        old(self).in_range(i) && i != p ==> #[trigger] final(self).children_of(i)
                            == old(self).children_of(i))
                    &&& exists|k: int|
                        0 <= k < old(self).children_of(p as int).len()
                            && old(self).children_of(p as int)[k] == c
                            && final(self).children_of(p as int) == old(self).children_of(
                            p as int,
                        ).remove(k)
                },
            },
    {
        let popt = self.nodes[c].parent;
        match popt {
            None => {},
            Some(p) => {
                proof {
                    self.lemma_not_own_parent(c as int);
                }
                let k = self.position_in_parent(p, c);
                self.nodes[p].children.remove(k);
                self.nodes[c].parent = None;
                proof {
                    self.lemma_detach_wf(*old(self), c as int, p as int, k as int);
                }
            },
        }
    }

    /// The arena is a vector, so the node count fits a machine word.
    pub proof fn lemma_count_bound(&self)
        ensures
            self.node_count() <= usize::MAX,
    {
        assert(self.node_count() == vstd::std_specs::vec::spec_vec_len(&self.nodes));
    }

    /// A child list is a vector, so its length fits a machine word.
    pub proof fn lemma_children_bound(&self, i: int)
        ensures
            self.children_of(i).len() <= usize::MAX,
    {
        assert(self.children_of(i).len() == vstd::std_specs::vec::spec_vec_len(
            &self.nodes@[i].children,
        ));
    }

    /// No node of an acyclic tree is its own parent.
    pub proof fn lemma_not_own_parent(&self, c: int)
        requires
            self.acyclic(),
            self.in_range(c),
        ensures
            self.parent_of(c) != Some(c as usize),
    {
        self.lemma_count_bound();
        if self.parent_of(c) == Some(c as usize) {
            let fuel = self.node_count() + 1;
            assert(self.depth_rec(c, fuel).is_some());
            self.lemma_self_parent_diverges(c, fuel);
        }
    }

    proof fn lemma_self_parent_diverges(&self, c: int, fuel: nat)
        requires
            0 <= c <= usize::MAX,
            self.parent_of(c) == Some(c as usize),
        ensures
            self.depth_rec(c, fuel).is_none(),
        decreases fuel,
    {
        if fuel > 0 {
            self.lemma_self_parent_diverges(c, (fuel - 1) as nat);
        }
    }

    proof fn lemma_detach_wf(&self, pre: Tree, c: int, p: int, k: int)
        requires
            pre.wf(),
            pre.in_range(c),
            pre.in_range(p),
            p != c,
            pre.parent_of(c) == Some(p as usize),
            0 <= k < pre.children_of(p).len(),
            pre.children_of(p)[k] == c,
            self.node_count() == pre.node_count(),
            forall|i: int|
                pre.in_range(i) && i != c && i != p ==> (#[trigger] self.nodes@[i]) == pre.nodes@[i],
            self.parent_of(c) == None::<usize>,
            self.children_of(c) == pre.children_of(c),
            self.data_of(c) == pre.data_of(c),
            self.parent_of(p) == (if p == c { None::<usize> } else { pre.parent_of(p) }),
            self.children_of(p) == pre.children_of(p).remove(k),
            self.data_of(p) == pre.data_of(p),
        ensures
            self.wf(),
    {
        let newp = self.children_of(p);
        let oldp = pre.children_of(p);
        self.lemma_count_bound();
        pre.lemma_count_bound();
        assert forall|i: int| self.in_range(i) implies match #[trigger] self.parent_of(i) {
            Some(q) => self.in_range(q as int) && self.children_of(q as int).contains(i as usize),
            None => true,
        } by {
            if let Some(q) = self.parent_of(i) {
                assert(i != c);
                if i != p {
                    assert(self.nodes@[i] == pre.nodes@[i]);
                }
                assert(pre.parent_of(i) == Some(q));
                assert(pre.children_of(q as int).contains(i as usize));
                let m = choose|m: int|
                    0 <= m < pre.children_of(q as int).len() && pre.children_of(q as int)[m]
                        == i as usize;
                if q as int == p {
                    assert(m != k);
                    if m < k {
                        assert(newp[m] == oldp[m]);
                        assert(newp.contains(i as usize));
                    } else {
                        assert(newp[m - 1] == oldp[m]);
                        assert(newp.contains(i as usize));
                    }
                } else {
                    assert(self.children_of(q as int) == pre.children_of(q as int));
                }
            }
        }
        assert forall|i: int, m: int|
            self.in_range(i) && 0 <= m < self.children_of(i).len() implies self.in_range(
            #[trigger] self.children_of(i)[m] as int,
        ) && self.parent_of(self.children_of(i)[m] as int) == Some(i as usize) by {
            if i == p {
                let x = newp[m];
                if m < k {
                    assert(x == oldp[m]);
                } else {
                    assert(x == oldp[m + 1]);
                }
                assert(pre.children_of(i).contains(x));
                assert(pre.parent_of(x as int) == Some(i as usize));
                assert(x as int != c);
            } else {
                assert(self.children_of(i) == pre.children_of(i));
                let x = pre.children_of(i)[m];
                assert(pre.parent_of(x as int) == Some(i as usize));
                assert(x as int != c) by {
                    if x as int == c {
                        assert(pre.parent_of(c) == Some(i as usize));
                    }
                }
            }
        }
        assert forall|i: int, m1: int, m2: int|
            self.in_range(i) && 0 <= m1 < m2 < self.children_of(i).len() implies #[trigger] self.children_of(
            i,
        )[m1] != #[trigger] self.children_of(i)[m2] by {
            if i == p {
                let o1 = if m1 < k { m1 } else { m1 + 1 };
                let o2 = if m2 < k { m2 } else { m2 + 1 };
                assert(newp[m1] == oldp[o1]);
                assert(newp[m2] == oldp[o2]);
            } else {
                assert(self.children_of(i) == pre.children_of(i));
            }
        }
        assert forall|i: int| self.in_range(i) implies match #[trigger] self.data_of(i) {
            NodeData::Element(e) => match e.template_contents {
                Some(f) => self.in_range(f as int),
                None => true,
            },
            _ => true,
        } by {
            assert(self.data_of(i) == pre.data_of(i));
        }
        assert(self.links_wf());
        pre.lemma_acyclic_after_relink(*self, c);
    }

    /// Inserts the parentless node `c` at position `pos` of `p`'s child list.
    fn attach(&mut self, p: usize, c: usize, pos: usize)
        requires
            old(self).wf(),
            old(self).in_range(p as int),
            old(self).in_range(c as int),
            old(self).parent_of(c as int) == None::<usize>,
            !old(self).chain_reaches(p as int, c as int, old(self).node_count() + 1),
            pos <= old(self).children_of(p as int).len(),
        ensures
            final(self).wf(),
            final(self).node_count() == old(self).node_count(),
            final(self).parent_of(c as int) == Some(p),
            forall|j: int|
                old(self).in_range(j) && j != c ==> #[trigger] final(self).parent_of(j) == old(
                    self,
                ).parent_of(j),
            forall|i: int|
                old(self).in_range(i) && i != p ==> #[trigger] final(self).children_of(i) == old(
                    self,
                ).children_of(i),
            final(self).children_of(p as int) == old(self).children_of(p as int).insert(
                pos as int,
                c,
            ),
            forall|i: int|
                old(self).in_range(i) ==> #[trigger] final(self).data_of(i) == old(self).data_of(i),
    {
        self.nodes[p].children.insert(pos, c);
        self.nodes[c].parent = Some(p);
        proof {
            self.lemma_attach_wf(*old(self), p as int, c as int, pos as int);
        }
    }

    proof fn lemma_attach_wf(&self, pre: Tree, p: int, c: int, pos: int)
        requires
            pre.wf(),
            pre.in_range(p),
            pre.in_range(c),
            pre.parent_of(c) == None::<usize>,
            !pre.chain_reaches(p, c, pre.node_count() + 1),
            0 <= pos <= pre.children_of(p).len(),
            self.node_count() == pre.node_count(),
            forall|i: int|
                pre.in_range(i) && i != c && i != p ==> (#[trigger] self.nodes@[i]) == pre.nodes@[i],
            self.parent_of(c) == Some(p as usize),
            self.children_of(c) == pre.children_of(c),
            self.data_of(c) == pre.data_of(c),
            self.parent_of(p) == (if p == c { Some(p as usize) } else { pre.parent_of(p) }),
            self.children_of(p) == pre.children_of(p).insert(pos, c as usize),
            self.data_of(p) == pre.data_of(p),
        ensures
            self.wf(),
    {
        let newp = self.children_of(p);
        let oldp = pre.children_of(p);
        self.lemma_count_bound();
        pre.lemma_count_bound();
        assert(p != c);
        // A parentless node sits in no child list.
        assert forall|i: int, m: int|
            pre.in_range(i) && 0 <= m < pre.children_of(i).len() implies #[trigger] pre.children_of(
            i,
        )[m] != c as usize by {
            if pre.children_of(i)[m] == c as usize {
                assert(pre.parent_of(c) == Some(i as usize));
            }
        }
        assert forall|i: int| self.in_range(i) implies match #[trigger] self.parent_of(i) {
            Some(q) => self.in_range(q as int) && self.children_of(q as int).contains(i as usize),
            None => true,
        } by {
            if let Some(q) = self.parent_of(i) {
                if i == c {
                    assert(newp[pos] == c as usize);
                    assert(newp.contains(i as usize));
                } else {
                    if i != p {
                        assert(self.nodes@[i] == pre.nodes@[i]);
                    }
                    assert(pre.parent_of(i) == Some(q));
                    assert(pre.children_of(q as int).contains(i as usize));
                    let m = choose|m: int|
                        0 <= m < pre.children_of(q as int).len() && pre.children_of(q as int)[m]
                            == i as usize;
                    if q as int == p {
                        if m < pos {
                            assert(newp[m] == oldp[m]);
                            assert(newp.contains(i as usize));
                        } else {
                            assert(newp[m + 1] == oldp[m]);
                            assert(newp.contains(i as usize));
                        }
                    } else {
                        assert(self.children_of(q as int) == pre.children_of(q as int));
                    }
                }
            }
        }
        assert forall|i: int, m: int|
            self.in_range(i) && 0 <= m < self.children_of(i).len() implies self.in_range(
            #[trigger] self.children_of(i)[m] as int,
        ) && self.parent_of(self.children_of(i)[m] as int) == Some(i as usize) by {
            if i == p {
                let x = newp[m];
                if m == pos {
                    assert(x == c as usize);
                } else {
                    let o = if m < pos { m } else { m - 1 };
                    assert(x == oldp[o]);
                    assert(pre.parent_of(x as int) == Some(i as usize));
                    assert(x as int != c);
                }
            } else {
                assert(self.children_of(i) == pre.children_of(i));
                let x = pre.children_of(i)[m];
                assert(pre.parent_of(x as int) == Some(i as usize));
                assert(x as int != c);
            }
        }
        assert forall|i: int, m1: int, m2: int|
            self.in_range(i) && 0 <= m1 < m2 < self.children_of(i).len() implies #[trigger] self.children_of(
            i,
        )[m1] != #[trigger] self.children_of(i)[m2] by {
            if i == p {
                let o1 = if m1 < pos { m1 } else { m1 - 1 };
                let o2 = if m2 < pos { m2 } else { m2 - 1 };
                if m1 == pos {
                    assert(newp[m1] == c as usize);
                    assert(newp[m2] == oldp[o2]);
                } else if m2 == pos {
                    assert(newp[m2] == c as usize);
                    assert(newp[m1] == oldp[o1]);
                } else {
                    assert(newp[m1] == oldp[o1]);
                    assert(newp[m2] == oldp[o2]);
                }
            } else {
                assert(self.children_of(i) == pre.children_of(i));
            }
        }
        assert forall|i: int| self.in_range(i) implies match #[trigger] self.data_of(i) {
            NodeData::Element(e) => match e.template_contents {
                Some(f) => self.in_range(f as int),
                None => true,
            },
            _ => true,
        } by {
            assert(self.data_of(i) == pre.data_of(i));
        }
        assert(self.links_wf());
        pre.lemma_acyclic_after_relink(*self, c);
    }

    /// Whether node `i` lies in the subtree rooted at `r`: `r` is `i` itself
    /// or one of its ancestors.
    pub open spec fn in_subtree_of(&self, i: int, r: int) -> bool {
        self.chain_reaches(i, r, self.node_count() + 1)
    }

    /// After detaching `c`, its former parent's chain still avoids `c` if it
    /// did before.
    proof fn lemma_subtree_after_detach(&self, post: Tree, c: int, p: int)
        requires
            self.links_wf(),
            self.in_range(p),
            post.node_count() == self.node_count(),
            forall|x: int| self.in_range(x) && x != c ==> post.parent_of(x) == self.parent_of(x),
            post.parent_of(c) == None::<usize>,
            !self.in_subtree_of(p, c),
        ensures
            !post.chain_reaches(p, c, post.node_count() + 1),
    {
        if post.chain_reaches(p, c, post.node_count() + 1) {
            self.lemma_chain_shrinks(post, c, p, c, post.node_count() + 1);
        }
    }

    /// Appends node `c` as the new last child of `p`.
    ///
    /// `c` is first detached from its previous position. `p` must not lie in
    /// the subtree rooted at `c`: making an ancestor a child would close a
    /// cycle.
    pub fn append(&mut self, p: usize, c: usize)
        requires
            old(self).wf(),
            old(self).in_range(p as int),
            old(self).in_range(c as int),
            !old(self).in_subtree_of(p as int, c as int),
        ensures
            final(self).wf(),
            final(self).node_count() == old(self).node_count(),
            final(self).parent_of(c as int) == Some(p),
            forall|j: int|
                old(self).in_range(j) && j != c ==> #[trigger] final(self).parent_of(j) == old(
                    self,
                ).parent_of(j),
            forall|i: int|
                old(self).in_range(i) ==> #[trigger] final(self).data_of(i) == old(self).data_of(i),
            forall|i: int|
                old(self).in_range(i) && i != p && Some(i as usize) != old(self).parent_of(c as int)
                    ==> #[trigger] final(self).children_of(i) == old(self).children_of(i),
            match old(self).parent_of(c as int) {
                None => final(self).children_of(p as int) == old(self).children_of(p as int).push(c),
                Some(q) => {
                    &&& exists|mid: Seq<usize>|
                        minus_child(old(self).children_of(q as int), mid, c) && (if q == p {
                            final(self).children_of(p as int) == mid.push(c)
                        } else {
                            final(self).children_of(q as int) == mid && final(self).children_of(
                                p as int,
                            ) == old(self).children_of(p as int).push(c)
                        })
                },
            },
    {
        self.detach(c);
        let ghost mid = *self;
        proof {
            old(self).lemma_subtree_after_detach(*self, c as int, p as int);
        }
        let n = self.child_count(p);
        self.attach(p, c, n);
        proof {
            assert(self.children_of(p as int) =~= mid.children_of(p as int).push(c));
            if let Some(q) = old(self).parent_of(c as int) {
                let kk = choose|kk: int|
                    0 <= kk < old(self).children_of(q as int).len() && old(self).children_of(
                        q as int,
                    )[kk] == c && mid.children_of(q as int) == old(self).children_of(
                        q as int,
                    ).remove(kk);
                let midseq = old(self).children_of(q as int).remove(kk);
                assert(minus_child(old(self).children_of(q as int), midseq, c));
                if q == p {
                    assert(self.children_of(p as int) == midseq.push(c));
                } else {
                    assert(mid.children_of(p as int) == old(self).children_of(p as int));
                    assert(self.children_of(q as int) == midseq && self.children_of(p as int)
                        == old(self).children_of(p as int).push(c));
                }
            }
        }
    }

    /// Prepends node `c` as the new first child of `p`.
    ///
    /// `c` is first detached from its previous position. `p` must not lie in
    /// the subtree rooted at `c`.
    pub fn prepend(&mut self, p: usize, c: usize)
        requires
            old(self).wf(),
            old(self).in_range(p as int),
            old(self).in_range(c as int),
            !old(self).in_subtree_of(p as int, c as int),
        ensures
            final(self).wf(),
            final(self).node_count() == old(self).node_count(),
            final(self).parent_of(c as int) == Some(p),
            forall|j: int|
                old(self).in_range(j) && j != c ==> #[trigger] final(self).parent_of(j) == old(
                    self,
                ).parent_of(j),
            forall|i: int|
                old(self).in_range(i) ==> #[trigger] final(self).data_of(i) == old(self).data_of(i),
            forall|i: int|
                old(self).in_range(i) && i != p && Some(i as usize) != old(self).parent_of(c as int)
                    ==> #[trigger] final(self).children_of(i) == old(self).children_of(i),
            match old(self).parent_of(c as int) {
                None => final(self).children_of(p as int) == old(self).children_of(
                    p as int,
                ).insert(0, c),
                Some(q) => {
                    &&& exists|mid: Seq<usize>|
                        minus_child(old(self).children_of(q as int), mid, c) && (if q == p {
                            final(self).children_of(p as int) == mid.insert(0, c)
                        } else {
                            final(self).children_of(q as int) == mid && final(self).children_of(
                                p as int,
                            ) == old(self).children_of(p as int).insert(0, c)
                        })
                },
            },
    {
        self.detach(c);
        let ghost mid = *self;
        proof {
            old(self).lemma_subtree_after_detach(*self, c as int, p as int);
        }
        self.attach(p, c, 0);
        proof {
            if let Some(q) = old(self).parent_of(c as int) {
                let kk = choose|kk: int|
                    0 <= kk < old(self).children_of(q as int).len() && old(self).children_of(
                        q as int,
                    )[kk] == c && mid.children_of(q as int) == old(self).children_of(
                        q as int,
                    ).remove(kk);
                let midseq = old(self).children_of(q as int).remove(kk);
                assert(minus_child(old(self).children_of(q as int), midseq, c));
                if q == p {
                    assert(self.children_of(p as int) == midseq.insert(0, c));
                } else {
                    assert(mid.children_of(p as int) == old(self).children_of(p as int));
                    assert(self.children_of(q as int) == midseq && self.children_of(p as int)
                        == old(self).children_of(p as int).insert(0, c));
                }
            }
        }
    }

    /// Inserts node `c` as the sibling just before node `s`.
    ///
    /// `c` is first detached from its previous position. `s` must have a
    /// parent, and that parent must not lie in the subtree rooted at `c`.
    pub fn insert_before(&mut self, s: usize, c: usize)
        requires
            old(self).wf(),
            old(self).in_range(s as int),
            old(self).in_range(c as int),
            c != s,
            old(self).parent_of(s as int).is_some(),
            !old(self).in_subtree_of(old(self).parent_of(s as int).unwrap() as int, c as int),
        ensures
            final(self).wf(),
            final(self).node_count() == old(self).node_count(),
            final(self).parent_of(c as int) == old(self).parent_of(s as int),
            forall|j: int|
                old(self).in_range(j) && j != c ==> #[trigger] final(self).parent_of(j) == old(
                    self,
                ).parent_of(j),
            forall|i: int|
                old(self).in_range(i) ==> #[trigger] final(self).data_of(i) == old(self).data_of(i),
            forall|i: int|
                old(self).in_range(i) && Some(i as usize) != old(self).parent_of(s as int)
                    && Some(i as usize) != old(self).parent_of(c as int)
                    ==> #[trigger] final(self).children_of(i) == old(self).children_of(i),
            ({
                let p = old(self).parent_of(s as int).unwrap() as int;
                match old(self).parent_of(c as int) {
                    None => exists|k: int|
                        0 <= k < old(self).children_of(p).len() && old(self).children_of(p)[k] == s
                            && final(self).children_of(p) == old(self).children_of(p).insert(k, c),
                    Some(q) => exists|mid: Seq<usize>|
                        minus_child(old(self).children_of(q as int), mid, c) && (if q as int == p {
                            exists|k: int|
                                0 <= k < mid.len() && mid[k] == s && final(self).children_of(p)
                                    == mid.insert(k, c)
                        } else {
                            final(self).children_of(q as int) == mid && exists|k: int|
                                0 <= k < old(self).children_of(p).len() && old(self).children_of(
                                    p,
                                )[k] == s && final(self).children_of(p) == old(self).children_of(
                                    p,
                                ).insert(k, c)
                        })
                }
            }),
    {
        self.detach(c);
        let ghost mid = *self;
        proof {
            old(self).lemma_subtree_after_detach(
                *self,
                c as int,
                old(self).parent_of(s as int).unwrap() as int,
            );
        }
        let p = self.parent(s).unwrap();
        let k = self.position_in_parent(p, s);
        self.attach(p, c, k);
        proof {
            let pi = p as int;
            match old(self).parent_of(c as int) {
                None => {
                    assert(self.children_of(pi) == old(self).children_of(pi).insert(k as int, c));
                },
                Some(q) => {
                    let kk = choose|kk: int|
                        0 <= kk < old(self).children_of(q as int).len() && old(self).children_of(
                            q as int,
                        )[kk] == c && mid.children_of(q as int) == old(self).children_of(
                            q as int,
                        ).remove(kk);
                    let midseq = old(self).children_of(q as int).remove(kk);
                    assert(minus_child(old(self).children_of(q as int), midseq, c));
                    if q as int == pi {
                        assert(0 <= (k as int) && (k as int) < midseq.len() && midseq[k as int] == s
                            && self.children_of(pi) == midseq.insert(k as int, c));
                    } else {
                        assert(mid.children_of(pi) == old(self).children_of(pi));
                        assert(self.children_of(q as int) == midseq);
                        assert(0 <= (k as int) && (k as int) < old(self).children_of(pi).len() && old(
                            self,
                        ).children_of(pi)[k as int] == s && self.children_of(pi) == old(
                            self,
                        ).children_of(pi).insert(k as int, c));
                    }
                },
            }
        }
    }

    /// Inserts node `c` as the sibling just after node `s`.
    ///
    /// `c` is first detached from its previous position. `s` must have a
    /// parent, and that parent must not lie in the subtree rooted at `c`.
    pub fn insert_after(&mut self, s: usize, c: usize)
        requires
            old(self).wf(),
            old(self).in_range(s as int),
            old(self).in_range(c as int),
            c != s,
            old(self).parent_of(s as int).is_some(),
            !old(self).in_subtree_of(old(self).parent_of(s as int).unwrap() as int, c as int),
        ensures
            final(self).wf(),
            final(self).node_count() == old(self).node_count(),
            final(self).parent_of(c as int) == old(self).parent_of(s as int),
            forall|j: int|
                old(self).in_range(j) && j != c ==> #[trigger] final(self).parent_of(j) == old(
                    self,
                ).parent_of(j),
            forall|i: int|
                old(self).in_range(i) ==> #[trigger] final(self).data_of(i) == old(self).data_of(i),
            forall|i: int|
                old(self).in_range(i) && Some(i as usize) != old(self).parent_of(s as int)
                    && Some(i as usize) != old(self).parent_of(c as int)
                    ==> #[trigger] final(self).children_of(i) == old(self).children_of(i),
            ({
                let p = old(self).parent_of(s as int).unwrap() as int;
                match old(self).parent_of(c as int) {
                    None => exists|k: int|
                        0 <= k < old(self).children_of(p).len() && old(self).children_of(p)[k] == s
                            && final(self).children_of(p) == old(self).children_of(p).insert(
                            k + 1,
                            c,
                        ),
                    Some(q) => exists|mid: Seq<usize>|
                        minus_child(old(self).children_of(q as int), mid, c) && (if q as int == p {
                            exists|k: int|
                                0 <= k < mid.len() && mid[k] == s && final(self).children_of(p)
                                    == mid.insert(k + 1, c)
                        } else {
                            final(self).children_of(q as int) == mid && exists|k: int|
                                0 <= k < old(self).children_of(p).len() && old(self).children_of(
                                    p,
                                )[k] == s && final(self).children_of(p) == old(self).children_of(
                                    p,
                                ).insert(k + 1, c)
                        })
                }
            }),
    {
        self.detach(c);
        let ghost mid = *self;
        proof {
            old(self).lemma_subtree_after_detach(
                *self,
                c as int,
                old(self).parent_of(s as int).unwrap() as int,
            );
            mid.lemma_children_bound(old(self).parent_of(s as int).unwrap() as int);
        }
        let p = self.parent(s).unwrap();
        let k = self.position_in_parent(p, s);
        self.attach(p, c, k + 1);
        proof {
            let pi = p as int;
            match old(self).parent_of(c as int) {
                None => {
                    assert(self.children_of(pi) == old(self).children_of(pi).insert(
                        k + 1 as int,
                        c,
                    ));
                },
                Some(q) => {
                    let kk = choose|kk: int|
                        0 <= kk < old(self).children_of(q as int).len() && old(self).children_of(
                            q as int,
                        )[kk] == c && mid.children_of(q as int) == old(self).children_of(
                            q as int,
                        ).remove(kk);
                    let midseq = old(self).children_of(q as int).remove(kk);
                    assert(minus_child(old(self).children_of(q as int), midseq, c));
                    if q as int == pi {
                        assert(0 <= (k as int) && (k as int) < midseq.len() && midseq[k as int] == s
                            && self.children_of(pi) == midseq.insert(k + 1 as int, c));
                    } else {
                        assert(mid.children_of(pi) == old(self).children_of(pi));
                        assert(self.children_of(q as int) == midseq);
                        assert(0 <= (k as int) && (k as int) < old(self).children_of(pi).len() && old(
                            self,
                        ).children_of(pi)[k as int] == s && self.children_of(pi) == old(
                            self,
                        ).children_of(pi).insert(k + 1 as int, c));
                    }
                },
            }
        }
    }

    /// Whether a chain stays the same when only parents off the chain change.
    proof fn lemma_chain_same_links(&self, other: Tree, i: int, j: int, fuel: nat)
        requires
            forall|x: int| other.parent_of(x) == self.parent_of(x) || !self.chain_reaches(i, x, fuel),
        ensures
            other.chain_reaches(i, j, fuel) == self.chain_reaches(i, j, fuel),
        decreases fuel,
    {
        if i != j {
            assert(self.chain_reaches(i, i, fuel));
            assert(other.parent_of(i) == self.parent_of(i));
            if fuel > 0 {
                if let Some(p) = self.parent_of(i) {
                    assert(self.chain_reaches(i, p as int, fuel)) by {
                        assert(self.chain_reaches(p as int, p as int, (fuel - 1) as nat));
                    }
                    assert forall|x: int|
                        other.parent_of(x) == self.parent_of(x) || !self.chain_reaches(
                            p as int,
                            x,
                            (fuel - 1) as nat,
                        ) by {
                        if self.chain_reaches(p as int, x, (fuel - 1) as nat) {
                            assert(self.chain_reaches(i, x, fuel));
                        }
                    }
                    self.lemma_chain_same_links(other, p as int, j, (fuel - 1) as nat);
                }
            }
        }
    }

    /// Growing the fuel keeps everything a chain reaches.
    pub proof fn lemma_chain_mono(&self, i: int, j: int, f1: nat, f2: nat)
        requires
            f1 <= f2,
            self.chain_reaches(i, j, f1),
        ensures
            self.chain_reaches(i, j, f2),
        decreases f1,
    {
        if i != j {
            let p = self.parent_of(i).unwrap();
            self.lemma_chain_mono(p as int, j, (f1 - 1) as nat, (f2 - 1) as nat);
        }
    }

    /// Whatever a chain reaches, it reaches within the chain's own length.
    pub proof fn lemma_chain_within_depth(&self, i: int, j: int, fuel: nat)
        requires
            self.wf(),
            self.in_range(i),
            self.chain_reaches(i, j, fuel),
        ensures
            self.chain_reaches(i, j, self.depth_of(i) + 1),
        decreases fuel,
    {
        if i != j {
            let p = self.parent_of(i).unwrap() as int;
            self.lemma_depth_parent(i);
            self.lemma_chain_within_depth(p, j, (fuel - 1) as nat);
            assert(self.chain_reaches(p, j, self.depth_of(p) + 1));
            self.lemma_chain_mono(p, j, self.depth_of(p) + 1, self.depth_of(i));
        }
    }

    /// Whether node `i` lies in the subtree rooted at `r`, decided by walking
    /// the ancestor chain of `i`.
    pub fn is_in_subtree(&self, i: usize, r: usize) -> (res: bool)
        requires
            self.wf(),
            self.in_range(i as int),
            self.in_range(r as int),
        ensures
            res == self.in_subtree_of(i as int, r as int),
    {
        let mut cur = i;
        loop
            invariant
                self.wf(),
                self.in_range(cur as int),
                self.in_subtree_of(i as int, r as int) == self.in_subtree_of(
                    cur as int,
                    r as int,
                ),
            decreases self.depth_of(cur as int),
        {
            if cur == r {
                return true;
            }
            let next = self.parent(cur);
            match next {
                None => {
                    return false;
                },
                Some(p) => {
                    proof {
                        let fuel = self.node_count() + 1;
                        self.lemma_depth_parent(cur as int);
                        self.lemma_depth_bound(p as int, fuel, self.depth_of(p as int));
                        if self.chain_reaches(p as int, r as int, fuel) {
                            self.lemma_chain_within_depth(p as int, r as int, fuel);
                            self.lemma_chain_mono(
                                p as int,
                                r as int,
                                self.depth_of(p as int) + 1,
                                (fuel - 1) as nat,
                            );
                            assert(self.chain_reaches(cur as int, r as int, fuel));
                        } else {
                            if self.chain_reaches(cur as int, r as int, fuel) {
                                assert(self.chain_reaches(p as int, r as int, (fuel - 1) as nat));
                                self.lemma_chain_mono(p as int, r as int, (fuel - 1) as nat, fuel);
                            }
                        }
                    }
                    cur = p;
                },
            }
        }
    }

    /// Replaces the payload of node `i`. Links are untouched.
    ///
    /// If the new payload is an element that refers to template contents,
    /// the referred index must address a node of this tree.
    pub fn set_node_data(&mut self, i: usize, data: NodeData)
        requires
            old(self).wf(),
            old(self).in_range(i as int),
            match data {
                NodeData::Element(e) => match e.template_contents {
                    Some(f) => old(self).in_range(f as int),
                    None => true,
                },
                _ => true,
            },
        ensures
            final(self).wf(),
            final(self).node_count() == old(self).node_count(),
            final(self).data_of(i as int) == data,
            forall|j: int|
                old(self).in_range(j) && j != i ==> #[trigger] final(self).data_of(j) == old(
                    self,
                ).data_of(j),
            forall|j: int|
                old(self).in_range(j) ==> #[trigger] final(self).parent_of(j) == old(
                    self,
                ).parent_of(j),
            forall|j: int|
                old(self).in_range(j) ==> #[trigger] final(self).children_of(j) == old(
                    self,
                ).children_of(j),
    {
        self.nodes[i].data = data;
        proof {
            assert forall|j: int| self.in_range(j) implies #[trigger] self.parent_of(j) == old(
                self,
            ).parent_of(j) by {}
            assert forall|j: int| self.in_range(j) implies #[trigger] self.children_of(j) == old(
                self,
            ).children_of(j) by {}
            assert forall|j: int| self.in_range(j) implies match #[trigger] self.parent_of(j) {
                Some(q) => self.in_range(q as int) && self.children_of(q as int).contains(
                    j as usize,
                ),
                None => true,
            } by {
                if let Some(q) = self.parent_of(j) {
                    assert(old(self).children_of(q as int).contains(j as usize));
                }
            }
            assert forall|j: int, k: int|
                self.in_range(j) && 0 <= k < self.children_of(j).len() implies self.in_range(
                #[trigger] self.children_of(j)[k] as int,
            ) && self.parent_of(self.children_of(j)[k] as int) == Some(j as usize) by {
                assert(old(self).children_of(j)[k] == self.children_of(j)[k]);
            }
            assert forall|j: int, k1: int, k2: int|
                self.in_range(j) && 0 <= k1 < k2 < self.children_of(j).len()
                implies #[trigger] self.children_of(j)[k1] != #[trigger] self.children_of(
                j,
            )[k2] by {
                assert(old(self).children_of(j)[k1] != old(self).children_of(j)[k2]);
            }
            assert forall|j: int| self.in_range(j) implies match #[trigger] self.data_of(j) {
                NodeData::Element(e) => match e.template_contents {
                    Some(f) => self.in_range(f as int),
                    None => true,
                },
                _ => true,
            } by {
                if j != i {
                    assert(self.data_of(j) == old(self).data_of(j));
                }
            }
            assert(self.links_wf());
            assert forall|x: int| self.in_range(x) implies (#[trigger] self.depth_rec(
                x,
                self.node_count() + 1,
            )).is_some() by {
                let fuel = old(self).node_count() + 1;
                assert(old(self).depth_rec(x, fuel).is_some());
                assert forall|j: int|
                    self.parent_of(j) == old(self).parent_of(j) || !old(self).chain_reaches(
                        x,
                        j,
                        fuel,
                    ) by {
                    if old(self).chain_reaches(x, j, fuel) {
                        old(self).lemma_chain_in_range(x, j, fuel);
                    }
                }
                old(self).lemma_depth_same_links(*self, x, fuel);
            }
        }
    }

    /// Sets the document node's quirks mode.
    pub fn set_quirks_mode(&mut self, i: usize, mode: QuirksMode)
        requires
            old(self).wf(),
            old(self).in_range(i as int),
            old(self).data_of(i as int) is Document,
        ensures
            final(self).wf(),
            final(self).node_count() == old(self).node_count(),
            final(self).data_of(i as int) == NodeData::Document(
                DocumentData { quirks_mode: mode },
            ),
            forall|j: int|
                old(self).in_range(j) && j != i ==> #[trigger] final(self).data_of(j) == old(
                    self,
                ).data_of(j),
            forall|j: int|
                old(self).in_range(j) ==> #[trigger] final(self).parent_of(j) == old(
                    self,
                ).parent_of(j),
            forall|j: int|
                old(self).in_range(j) ==> #[trigger] final(self).children_of(j) == old(
                    self,
                ).children_of(j),
    {
        self.set_node_data(i, NodeData::Document(DocumentData { quirks_mode: mode }));
    }

    /// Creates a detached element node. For a template element in the HTML
    /// namespace, a separate document-fragment node is created first and
    /// recorded as the element's template contents.
    pub fn new_element(&mut self, name: QualName, attributes: Attributes) -> (r: usize)
        requires
            old(self).wf(),
        ensures
            final(self).wf(),
            r < final(self).node_count(),
            final(self).parent_of(r as int) == None::<usize>,
            final(self).children_of(r as int) == Seq::<usize>::empty(),
            forall|i: int| old(self).in_range(i) ==> #[trigger] final(self).parent_of(i) == old(self).parent_of(i),
            forall|i: int| old(self).in_range(i) ==> #[trigger] final(self).children_of(i) == old(self).children_of(i),
            forall|i: int| old(self).in_range(i) ==> #[trigger] final(self).data_of(i) == old(self).data_of(i),
            if spec_html_template(name) {
                &&& final(self).node_count() == old(self).node_count() + 2
                &&& r == old(self).node_count() + 1
                &&& final(self).data_of(r as int) == NodeData::Element(
                    ElementData {
                        name: name,
                        attributes: attributes,
                        template_contents: Some((r - 1) as usize),
                    },
                )
                &&& final(self).data_of(r - 1) == NodeData::DocumentFragment
                &&& final(self).parent_of(r - 1) == None::<usize>
                &&& final(self).children_of(r - 1) == Seq::<usize>::empty()
            } else {
                &&& final(self).node_count() == old(self).node_count() + 1
                &&& r == old(self).node_count()
                &&& final(self).data_of(r as int) == NodeData::Element(
                    ElementData { name: name, attributes: attributes, template_contents: None },
                )
            },
    {
        let is_template = str_eq(name.ns.as_str(), "http://www.w3.org/1999/xhtml") && str_eq(
            name.local.as_str(),
            "template",
        );
        if is_template {
            let frag = self.push_node(NodeData::DocumentFragment);
            self.push_node(
                NodeData::Element(
                    ElementData { name, attributes, template_contents: Some(frag) },
                ),
            )
        } else {
            self.push_node(
                NodeData::Element(ElementData { name, attributes, template_contents: None }),
            )
        }
    }

    /// Creates a detached text node.
    pub fn new_text(&mut self, value: String) -> (r: usize)
        requires
            old(self).wf(),
        ensures
            final(self).wf(),
            final(self).node_count() == old(self).node_count() + 1,
            r == old(self).node_count(),
            final(self).parent_of(r as int) == None::<usize>,
            final(self).children_of(r as int) == Seq::<usize>::empty(),
            final(self).data_of(r as int) == NodeData::Text(value),
            forall|i: int| old(self).in_range(i) ==> #[trigger] final(self).parent_of(i) == old(self).parent_of(i),
            forall|i: int| old(self).in_range(i) ==> #[trigger] final(self).children_of(i) == old(self).children_of(i),
            forall|i: int| old(self).in_range(i) ==> #[trigger] final(self).data_of(i) == old(self).data_of(i),
    {
        self.push_node(NodeData::Text(value))
    }

    /// Creates a detached comment node.
    pub fn new_comment(&mut self, value: String) -> (r: usize)
        requires
            old(self).wf(),
        ensures
            final(self).wf(),
            final(self).node_count() == old(self).node_count() + 1,
            r == old(self).node_count(),
            final(self).parent_of(r as int) == None::<usize>,
            final(self).children_of(r as int) == Seq::<usize>::empty(),
            final(self).data_of(r as int) == NodeData::Comment(value),
            forall|i: int| old(self).in_range(i) ==> #[trigger] final(self).parent_of(i) == old(self).parent_of(i),
            forall|i: int| old(self).in_range(i) ==> #[trigger] final(self).children_of(i) == old(self).children_of(i),
            forall|i: int| old(self).in_range(i) ==> #[trigger] final(self).data_of(i) == old(self).data_of(i),
    {
        self.push_node(NodeData::Comment(value))
    }

    /// Creates a detached processing-instruction node.
    pub fn new_processing_instruction(&mut self, target: String, data: String) -> (r: usize)
        requires
            old(self).wf(),
        ensures
            final(self).wf(),
            final(self).node_count() == old(self).node_count() + 1,
            r == old(self).node_count(),
            final(self).parent_of(r as int) == None::<usize>,
            final(self).children_of(r as int) == Seq::<usize>::empty(),
            final(self).data_of(r as int) == NodeData::ProcessingInstruction(target, data),
            forall|i: int| old(self).in_range(i) ==> #[trigger] final(self).parent_of(i) == old(self).parent_of(i),
            forall|i: int| old(self).in_range(i) ==> #[trigger] final(self).children_of(i) == old(self).children_of(i),
            forall|i: int| old(self).in_range(i) ==> #[trigger] final(self).data_of(i) == old(self).data_of(i),
    {
        self.push_node(NodeData::ProcessingInstruction(target, data))
    }

    /// Creates a detached doctype node.
    pub fn new_doctype(&mut self, name: String, public_id: String, system_id: String) -> (r: usize)
        requires
            old(self).wf(),
        ensures
            final(self).wf(),
            final(self).node_count() == old(self).node_count() + 1,
            r == old(self).node_count(),
            final(self).parent_of(r as int) == None::<usize>,
            final(self).children_of(r as int) == Seq::<usize>::empty(),
            final(self).data_of(r as int) == NodeData::Doctype(
                Doctype { name: name, public_id: public_id, system_id: system_id },
            ),
            forall|i: int| old(self).in_range(i) ==> #[trigger] final(self).parent_of(i) == old(self).parent_of(i),
            forall|i: int| old(self).in_range(i) ==> #[trigger] final(self).children_of(i) == old(self).children_of(i),
            forall|i: int| old(self).in_range(i) ==> #[trigger] final(self).data_of(i) == old(self).data_of(i),
    {
        self.push_node(NodeData::Doctype(Doctype { name, public_id, system_id }))
    }

    /// Creates a detached document node in full standards mode.
    pub fn new_document(&mut self) -> (r: usize)
        requires
            old(self).wf(),
        ensures
            final(self).wf(),
            final(self).node_count() == old(self).node_count() + 1,
            r == old(self).node_count(),
            final(self).parent_of(r as int) == None::<usize>,
            final(self).children_of(r as int) == Seq::<usize>::empty(),
            final(self).data_of(r as int) == NodeData::Document(
                DocumentData { quirks_mode: QuirksMode::NoQuirks },
            ),
            forall|i: int| old(self).in_range(i) ==> #[trigger] final(self).parent_of(i) == old(self).parent_of(i),
            forall|i: int| old(self).in_range(i) ==> #[trigger] final(self).children_of(i) == old(self).children_of(i),
            forall|i: int| old(self).in_range(i) ==> #[trigger] final(self).data_of(i) == old(self).data_of(i),
    {
        self.push_node(NodeData::Document(DocumentData { quirks_mode: QuirksMode::NoQuirks }))
    }

    /// Creates a detached document-fragment node.
    pub fn new_fragment(&mut self) -> (r: usize)
        requires
            old(self).wf(),
        ensures
            final(self).wf(),
            final(self).node_count() == old(self).node_count() + 1,
            r == old(self).node_count(),
            final(self).parent_of(r as int) == None::<usize>,
            final(self).children_of(r as int) == Seq::<usize>::empty(),
            final(self).data_of(r as int) == NodeData::DocumentFragment,
            forall|i: int| old(self).in_range(i) ==> #[trigger] final(self).parent_of(i) == old(self).parent_of(i),
            forall|i: int| old(self).in_range(i) ==> #[trigger] final(self).children_of(i) == old(self).children_of(i),
            forall|i: int| old(self).in_range(i) ==> #[trigger] final(self).data_of(i) == old(self).data_of(i),
    {
        self.push_node(NodeData::DocumentFragment)
    }

    /// A chain that reaches `y` also reaches `y`'s parent, with one more step.
    pub proof fn lemma_chain_extend(&self, x: int, y: int, z: usize, fuel: nat)
        requires
            self.chain_reaches(x, y, fuel),
            self.parent_of(y) == Some(z),
        ensures
            self.chain_reaches(x, z as int, fuel + 1),
        decreases fuel,
    {
        if x == y {
            assert(self.chain_reaches(z as int, z as int, fuel));
        } else {
            let p = self.parent_of(x).unwrap() as int;
            self.lemma_chain_extend(p, y, z, (fuel - 1) as nat);
        }
    }

    /// The position of child `c` in the child list of `p`.
    pub open spec fn position_of(&self, p: int, c: usize) -> int {
        choose|k: int| 0 <= k < self.children_of(p).len() && self.children_of(p)[k] == c
    }

    /// The sibling just after `i` under the same parent, if any: the entry
    /// after `i` in the parent's child list.
    pub open spec fn next_sibling_of(&self, i: int) -> Option<usize> {
        match self.parent_of(i) {
            None => None,
            Some(p) => {
                let k = self.position_of(p as int, i as usize);
                if k + 1 < self.children_of(p as int).len() {
                    Some(self.children_of(p as int)[k + 1])
                } else {
                    None
                }
            },
        }
    }

    /// The sibling just before `i` under the same parent, if any: the entry
    /// before `i` in the parent's child list.
    pub open spec fn previous_sibling_of(&self, i: int) -> Option<usize> {
        match self.parent_of(i) {
            None => None,
            Some(p) => {
                let k = self.position_of(p as int, i as usize);
                if k > 0 {
                    Some(self.children_of(p as int)[k - 1])
                } else {
                    None
                }
            },
        }
    }

    /// In a well-formed tree, the position of a present child is the unique
    /// index that holds it.
    pub proof fn lemma_position_unique(&self, p: int, c: usize, k: int)
        requires
            self.links_wf(),
            self.in_range(p),
            0 <= k < self.children_of(p).len(),
            self.children_of(p)[k] == c,
        ensures
            self.position_of(p, c) == k,
    {
        let kk = self.position_of(p, c);
        assert(0 <= kk < self.children_of(p).len() && self.children_of(p)[kk] == c);
    }

    /// Law: sibling links mirror each other. For any two nodes of a
    /// well-formed tree, `b` directly follows `a` exactly when `a` directly
    /// precedes `b`. This holds of every well-formed tree, and every
    /// mutation of this module keeps well-formedness, so it holds after any
    /// sequence of tree edits.
    pub proof fn lemma_sibling_symmetry(&self, a: int, b: int)
        requires
            self.wf(),
            self.in_range(a),
            self.in_range(b),
        ensures
            (self.next_sibling_of(a) == Some(b as usize)) <==> (self.previous_sibling_of(b)
                == Some(a as usize)),
    {
        self.lemma_count_bound();
        if self.next_sibling_of(a) == Some(b as usize) {
            let p = self.parent_of(a).unwrap() as int;
            let ch = self.children_of(p);
            assert(ch.contains(a as usize));
            let ka = choose|k: int| 0 <= k < ch.len() && ch[k] == a as usize;
            self.lemma_position_unique(p, a as usize, ka);
            assert(ch[ka + 1] == b as usize);
            assert(self.parent_of(b) == Some(p as usize));
            self.lemma_position_unique(p, b as usize, ka + 1);
            assert(self.previous_sibling_of(b) == Some(ch[ka + 1 - 1]));
            assert(ch[ka + 1 - 1] == a as usize);
        }
        if self.previous_sibling_of(b) == Some(a as usize) {
            let p = self.parent_of(b).unwrap() as int;
            let ch = self.children_of(p);
            assert(ch.contains(b as usize));
            let kb = choose|k: int| 0 <= k < ch.len() && ch[k] == b as usize;
            self.lemma_position_unique(p, b as usize, kb);
            assert(kb > 0);
            assert(ch[kb - 1] == a as usize);
            assert(self.parent_of(a) == Some(p as usize));
            self.lemma_position_unique(p, a as usize, kb - 1);
            assert(self.next_sibling_of(a) == Some(ch[kb - 1 + 1]));
            assert(ch[kb - 1 + 1] == b as usize);
        }
    }

    /// A chain that reaches both `r` and the root `c` passes `c` last, so
    /// the chain from `r` reaches `c` as well.
    proof fn lemma_chain_to_end(&self, x: int, r: int, c: int, f1: nat, f2: nat)
        requires
            self.wf(),
            self.in_range(x),
            self.chain_reaches(x, r, f1),
            self.chain_reaches(x, c, f2),
            self.parent_of(c) == None::<usize>,
        ensures
            self.chain_reaches(r, c, self.node_count() + 1),
        decreases f1,
    {
        if x == r {
            self.lemma_chain_within_depth(x, c, f2);
            self.lemma_depth_bound_pub(x);
            self.lemma_chain_mono(x, c, self.depth_of(x) + 1, self.node_count() + 1);
        } else {
            let p = self.parent_of(x).unwrap() as int;
            assert(x != c);
            self.lemma_chain_to_end(p, r, c, (f1 - 1) as nat, (f2 - 1) as nat);
        }
    }

    /// Law: a detached subtree is cut loose. Once `c` has no parent, no node
    /// of `c`'s subtree has an ancestor outside that subtree: the rest of
    /// the tree cannot reach it any more, so nothing but a direct handle to
    /// the subtree keeps it connected.
    pub proof fn lemma_detached_subtree_unreachable(&self, c: int, x: int, r: int)
        requires
            self.wf(),
            self.in_range(c),
            self.in_range(x),
            self.parent_of(c) == None::<usize>,
            self.in_subtree_of(x, c),
            !self.in_subtree_of(r, c),
        ensures
            !self.in_subtree_of(x, r),
    {
        if self.in_subtree_of(x, r) {
            self.lemma_chain_to_end(
                x,
                r,
                c,
                self.node_count() + 1,
                self.node_count() + 1,
            );
            self.lemma_chain_in_range(x, r, self.node_count() + 1);
        }
    }

    /// Along a parent chain the depth only goes down.
    pub proof fn lemma_chain_depth(&self, x: int, y: int, fuel: nat)
        requires
            self.wf(),
            self.in_range(x),
            self.chain_reaches(x, y, fuel),
        ensures
            self.depth_of(x) >= self.depth_of(y),
            x != y ==> self.depth_of(x) > self.depth_of(y),
        decreases fuel,
    {
        if x != y {
            let p = self.parent_of(x).unwrap() as int;
            self.lemma_depth_parent(x);
            self.lemma_chain_depth(p, y, (fuel - 1) as nat);
        }
    }

    /// A parent chain meets at most one node of any given depth.
    pub proof fn lemma_chain_unique_at_depth(&self, x: int, y1: int, y2: int, f1: nat, f2: nat)
        requires
            self.wf(),
            self.in_range(x),
            self.chain_reaches(x, y1, f1),
            self.chain_reaches(x, y2, f2),
            self.depth_of(y1) == self.depth_of(y2),
        ensures
            y1 == y2,
        decreases f1,
    {
        if x == y1 {
            self.lemma_chain_depth(x, y2, f2);
        } else if x == y2 {
            self.lemma_chain_depth(x, y1, f1);
        } else {
            let p = self.parent_of(x).unwrap() as int;
            self.lemma_depth_parent(x);
            self.lemma_chain_unique_at_depth(p, y1, y2, (f1 - 1) as nat, (f2 - 1) as nat);
        }
    }

    /// Parent chains visit distinct nodes, so no node is deeper than the
    /// arena is large.
    pub proof fn lemma_depth_bound_pub(&self, i: int)
        requires
            self.wf(),
            self.in_range(i),
        ensures
            self.depth_of(i) < self.node_count(),
    {
        self.lemma_depth_bound(i, self.node_count() + 1, self.depth_of(i));
    }

    /// A structural copy of the whole node store: same links, payloads with
    /// the same abstract content.
    pub fn duplicate(&self) -> (r: Tree)
        requires
            self.wf(),
        ensures
            r.wf(),
            r.node_count() == self.node_count(),
            forall|i: int| self.in_range(i) ==> #[trigger] r.parent_of(i) == self.parent_of(i),
            forall|i: int| self.in_range(i) ==> #[trigger] r.children_of(i) == self.children_of(i),
            forall|i: int|
                self.in_range(i) ==> data_like(#[trigger] r.data_of(i), self.data_of(i))
                    && data_like(self.data_of(i), r.data_of(i)),
    {
        let n = self.nodes.len();
        let mut nodes: Vec<Node> = Vec::new();
        let mut i: usize = 0;
        while i < n
            invariant
                self.wf(),
                n == self.node_count(),
                i <= n,
                nodes@.len() == i,
                forall|j: int| 0 <= j < i ==> (#[trigger] nodes@[j]).parent == self.parent_of(j),
                forall|j: int| 0 <= j < i ==> (#[trigger] nodes@[j]).children@ == self.children_of(j),
                forall|j: int|
                    0 <= j < i ==> data_like((#[trigger] nodes@[j]).data, self.data_of(j))
                        && data_like(self.data_of(j), nodes@[j].data),
            decreases n - i,
        {
            let children = self.children(i);
            let data = self.data(i).duplicate();
            let parent = self.nodes[i].parent;
            nodes.push(Node { parent, children, data });
            i = i + 1;
        }
        let r = Tree { nodes };
        proof {
            assert forall|j: int| r.in_range(j) implies match #[trigger] r.parent_of(j) {
                Some(q) => r.in_range(q as int) && r.children_of(q as int).contains(j as usize),
                None => true,
            } by {
                if let Some(q) = r.parent_of(j) {
                    assert(self.parent_of(j) == Some(q));
                    assert(self.children_of(q as int).contains(j as usize));
                    assert(r.children_of(q as int) == self.children_of(q as int));
                }
            }
            assert forall|j: int, k: int|
                r.in_range(j) && 0 <= k < r.children_of(j).len() implies r.in_range(
                #[trigger] r.children_of(j)[k] as int,
            ) && r.parent_of(r.children_of(j)[k] as int) == Some(j as usize) by {
                assert(r.children_of(j) == self.children_of(j));
                let x = self.children_of(j)[k];
                assert(self.parent_of(x as int) == Some(j as usize));
            }
            assert forall|j: int, k1: int, k2: int|
                r.in_range(j) && 0 <= k1 < k2 < r.children_of(j).len()
                implies #[trigger] r.children_of(j)[k1] != #[trigger] r.children_of(j)[k2] by {
                assert(r.children_of(j) == self.children_of(j));
                assert(self.children_of(j)[k1] != self.children_of(j)[k2]);
            }
            assert forall|j: int| r.in_range(j) implies match #[trigger] r.data_of(j) {
                NodeData::Element(e) => match e.template_contents {
                    Some(f) => r.in_range(f as int),
                    None => true,
                },
                _ => true,
            } by {
                assert(data_like(r.data_of(j), self.data_of(j)));
                match r.data_of(j) {
                    NodeData::Element(e) => {
                        match self.data_of(j) {
                            NodeData::Element(e0) => {
                                assert(e.template_contents == e0.template_contents);
                            },
                            _ => {
                                assert(false);
                            },
                        }
                    },
                    _ => {},
                }
            }
            assert(r.links_wf());
            assert forall|x: int| r.in_range(x) implies (#[trigger] r.depth_rec(
                x,
                r.node_count() + 1,
            )).is_some() by {
                let fuel = self.node_count() + 1;
                assert(self.depth_rec(x, fuel).is_some());
                assert forall|j: int|
                    r.parent_of(j) == self.parent_of(j) || !self.chain_reaches(x, j, fuel) by {
                    if self.chain_reaches(x, j, fuel) {
                        self.lemma_chain_in_range(x, j, fuel);
                    }
                }
                self.lemma_depth_same_links(r, x, fuel);
            }
        }
        r
    }

    /// Adds to element `i` every given attribute whose name it does not
    /// have yet; present attributes keep their value and position, new
    /// ones go last, keeping the given order of first occurrence.
    #[verifier::loop_isolation(false)]
    pub fn add_attrs_if_missing(&mut self, i: usize, attrs: &Attributes)
        requires
            old(self).wf(),
            old(self).in_range(i as int),
            match old(self).data_of(i as int) {
                NodeData::Element(e) => e.attributes.wf(),
                _ => false,
            },
        ensures
            final(self).wf(),
            final(self).node_count() == old(self).node_count(),
            forall|j: int|
                old(self).in_range(j) ==> #[trigger] final(self).parent_of(j) == old(
                    self,
                ).parent_of(j),
            forall|j: int|
                old(self).in_range(j) ==> #[trigger] final(self).children_of(j) == old(
                    self,
                ).children_of(j),
            forall|j: int|
                old(self).in_range(j) && j != i ==> #[trigger] final(self).data_of(j) == old(
                    self,
                ).data_of(j),
            match (old(self).data_of(i as int), final(self).data_of(i as int)) {
                (NodeData::Element(oe), NodeData::Element(ne)) => {
                    &&& qual_view(ne.name) == qual_view(oe.name)
                    &&& ne.template_contents == oe.template_contents
                    &&& ne.attributes.wf()
                    &&& ne.attributes@.subrange(0, oe.attributes@.len() as int) == oe.attributes@
                    &&& (forall|j: int|
                        0 <= j < attrs@.len() ==> ne.attributes.contains_key(
                            (#[trigger] attrs@[j]).0.key(),
                        ))
                    &&& (forall|m: int|
                        oe.attributes@.len() <= m < ne.attributes@.len()
                            ==> !oe.attributes.contains_key(
                            (#[trigger] ne.attributes@[m]).0.key(),
                        ) && exists|j: int|
                            0 <= j < attrs@.len() && (#[trigger] attrs@[j]).0.key()
                                == ne.attributes@[m].0.key() && attrs@[j].1 == ne.attributes@[m].1)
                },
                _ => false,
            },
    {
        let pair = match self.data(i) {
            NodeData::Element(e) => (
                e.name.duplicate(),
                e.attributes.duplicate(),
                e.template_contents,
            ),
            _ => {
                proof {
                    assert(false);
                }
                (
                    QualName { prefix: None, ns: String::new(), local: String::new() },
                    Attributes::new(),
                    None,
                )
            },
        };
        let name = pair.0;
        let mut a = pair.1;
        let template = pair.2;
        let ghost a0 = a;
        let n = attrs.len();
        let mut k: usize = 0;
        proof {
            assert(a@.subrange(0, a0@.len() as int) =~= a0@);
        }
        while k < n
            invariant
                n == attrs@.len(),
                k <= n,
                a0@ == (match old(self).data_of(i as int) {
                    NodeData::Element(e) => e.attributes@,
                    _ => a0@,
                }),
                a.wf(),
                a@.len() >= a0@.len(),
                a@.subrange(0, a0@.len() as int) == a0@,
                forall|j: int| 0 <= j < k ==> a.contains_key((#[trigger] attrs@[j]).0.key()),
                forall|m: int|
                    a0@.len() <= m < a@.len() ==> !a0.contains_key(
                        (#[trigger] a@[m]).0.key(),
                    ) && exists|j: int|
                        0 <= j < k && (#[trigger] attrs@[j]).0.key() == a@[m].0.key() && attrs@[j].1
                            == a@[m].1,
            decreases n - k,
        {
            let ghost a_pre = a;
            let entry = attrs.entry_at(k);
            if !a.has_ns(entry.0.ns.as_str(), entry.0.local.as_str()) {
                let prefix2 = match &entry.1.prefix {
                    Some(pp) => Some(pp.clone()),
                    None => None,
                };
                let prev = a.insert_ns(
                    entry.0.ns.as_str(),
                    entry.0.local.as_str(),
                    prefix2,
                    entry.1.value.clone(),
                );
                proof {
                    assert(prev is None);
                    assert(a@.drop_last() == a_pre@);
                    assert(a@.subrange(0, a0@.len() as int) =~= a_pre@.subrange(
                        0,
                        a0@.len() as int,
                    ));
                    assert(a@.last().1 == attrs@[k as int].1) by {
                        assert(entry.1.prefix == attrs@[k as int].1.prefix);
                    }
                    assert forall|m: int|
                        a0@.len() <= m < a@.len() implies !a0.contains_key(
                        (#[trigger] a@[m]).0.key(),
                    ) && exists|j: int|
                        0 <= j <= k && (#[trigger] attrs@[j]).0.key() == a@[m].0.key()
                            && attrs@[j].1 == a@[m].1 by {
                        if m < a@.len() - 1 {
                            assert(a@[m] == a_pre@[m]);
                        } else {
                            assert(a@[m] == a@.last());
                            assert(!a_pre.contains_key(a@[m].0.key()));
                            if a0.contains_key(a@[m].0.key()) {
                                let jj = choose|jj: int|
                                    0 <= jj < a0@.len() && (#[trigger] a0@[jj]).0.key()
                                        == a@[m].0.key();
                                assert(a_pre@[jj] == a0@[jj]);
                            }
                            assert(attrs@[k as int].0.key() == a@[m].0.key());
                        }
                    }
                }
            } else {
                proof {
                    assert(a.contains_key(attrs@[k as int].0.key()));
                }
            }
            k = k + 1;
        }
        self.set_node_data(
            i,
            NodeData::Element(
                ElementData { name, attributes: a, template_contents: template },
            ),
        );
    }

    /// Moves all children of `from` onto `to`, after `to`'s existing
    /// children and in their former order.
    ///
    /// `to` must not lie in the subtree of any child of `from` (nor be
    /// `from` itself with children, which would make a child its own
    /// ancestor).
    #[verifier::loop_isolation(false)]
    pub fn reparent_children(&mut self, from: usize, to: usize)
        requires
            old(self).wf(),
            old(self).in_range(from as int),
            old(self).in_range(to as int),
            forall|k: int|
                0 <= k < old(self).children_of(from as int).len() ==> !old(self).in_subtree_of(
                    to as int,
                    (#[trigger] old(self).children_of(from as int)[k]) as int,
                ),
        ensures
            final(self).wf(),
            final(self).node_count() == old(self).node_count(),
            forall|j: int|
                old(self).in_range(j) ==> #[trigger] final(self).data_of(j) == old(self).data_of(j),
            final(self).children_of(from as int) == (if from == to {
                old(self).children_of(from as int)
            } else {
                Seq::<usize>::empty()
            }),
            final(self).children_of(to as int) == (if from == to {
                old(self).children_of(to as int)
            } else {
                old(self).children_of(to as int) + old(self).children_of(from as int)
            }),
            forall|j: int|
                old(self).in_range(j) && j != from && j != to
                    ==> #[trigger] final(self).children_of(j) == old(self).children_of(j),
            forall|j: int|
                old(self).in_range(j) && !old(self).children_of(from as int).contains(j as usize)
                    ==> #[trigger] final(self).parent_of(j) == old(self).parent_of(j),
            forall|k: int|
                0 <= k < old(self).children_of(from as int).len() && from != to
                    ==> #[trigger] final(self).parent_of(old(self).children_of(from as int)[k] as int) == Some(to),
    {
        if from == to {
            return;
        }
        let ghost orig = *old(self);
        let ghost from_kids = old(self).children_of(from as int);
        let mut moved: usize = 0;
        let total_exec = self.child_count(from);
        let ghost total = from_kids.len();
        proof {
            assert(from_kids.skip(0) =~= from_kids);
            assert(orig.children_of(to as int) + from_kids.subrange(0, 0) =~= orig.children_of(
                to as int,
            ));
            orig.lemma_children_bound(from as int);
            orig.lemma_count_bound();
        }
        while moved < total_exec
            invariant
                orig == *old(self),
                from_kids == orig.children_of(from as int),
                total == from_kids.len(),
                total == total_exec,
                self.wf(),
                self.in_range(from as int),
                self.in_range(to as int),
                from != to,
                self.node_count() == orig.node_count(),
                moved <= total,
                self.children_of(from as int) == from_kids.skip(moved as int),
                self.children_of(to as int) == orig.children_of(to as int) + from_kids.subrange(
                    0,
                    moved as int,
                ),
                forall|j: int|
                    orig.in_range(j) ==> #[trigger] self.data_of(j) == orig.data_of(j),
                forall|j: int|
                    orig.in_range(j) && j != from && j != to ==> #[trigger] self.children_of(j)
                        == orig.children_of(j),
                forall|j: int|
                    orig.in_range(j) && !from_kids.contains(j as usize)
                        ==> #[trigger] self.parent_of(j) == orig.parent_of(j),
                forall|k: int|
                    0 <= k < moved ==> #[trigger] self.parent_of(from_kids[k] as int) == Some(to),
                forall|k: int|
                    moved <= k < total ==> #[trigger] self.parent_of(from_kids[k] as int) == Some(
                        from,
                    ),
                forall|k: int|
                    0 <= k < from_kids.len() ==> !self.in_subtree_of(
                        to as int,
                        (#[trigger] from_kids[k]) as int,
                    ),
            decreases total - moved,
        {
            proof {
                assert(from_kids.skip(moved as int).len() > 0);
                assert(moved < total);
            }
            let ghost pre = *self;
            let c = self.child_at(from, 0);
            proof {
                assert(from_kids.skip(moved as int)[0] == from_kids[moved as int]);
                assert(c == from_kids[moved as int]);
                assert(from_kids.contains(c));
                assert(self.in_range(c as int));
            }
            self.append(to, c);
            proof {
                assert(self.children_of(from as int) =~= from_kids.skip(moved + 1 as int)) by {
                    let mid = pre.children_of(from as int);
                    assert(exists|kk: int|
                        0 <= kk < mid.len() && mid[kk] == c && self.children_of(from as int)
                            == mid.remove(kk));
                    let kk = choose|kk: int|
                        0 <= kk < mid.len() && mid[kk] == c && self.children_of(from as int)
                            == mid.remove(kk);
                    assert(kk == 0) by {
                        if kk != 0 {
                            assert(mid[0] == from_kids[moved as int]);
                            assert(mid[kk] == from_kids[moved + kk]);
                        }
                    }
                    assert(mid.remove(0) =~= from_kids.skip(moved + 1 as int));
                }
                assert(self.children_of(to as int) =~= orig.children_of(to as int)
                    + from_kids.subrange(0, moved + 1 as int)) by {
                    assert(self.children_of(to as int) == pre.children_of(to as int).push(c));
                    assert((orig.children_of(to as int) + from_kids.subrange(0, moved as int)).push(
                        c,
                    ) =~= orig.children_of(to as int) + from_kids.subrange(0, moved + 1 as int));
                }
                assert forall|k: int|
                    0 <= k < from_kids.len() implies !self.in_subtree_of(
                    to as int,
                    (#[trigger] from_kids[k]) as int,
                ) by {
                    let x = from_kids[k] as int;
                    let fuel = pre.node_count() + 1;
                    assert(!pre.in_subtree_of(to as int, from_kids[moved as int] as int));
                    assert forall|y: int|
                        self.parent_of(y) == pre.parent_of(y) || !pre.chain_reaches(
                            to as int,
                            y,
                            fuel,
                        ) by {
                        if pre.chain_reaches(to as int, y, fuel) {
                            pre.lemma_chain_in_range(to as int, y, fuel);
                            assert(y != c);
                        }
                    }
                    pre.lemma_chain_same_links(*self, to as int, x, fuel);
                }
            }
            moved = moved + 1;
        }
        proof {
            assert(from_kids.skip(total as int) =~= Seq::<usize>::empty());
            assert(moved == total);
            assert(from_kids.subrange(0, total as int) =~= from_kids);
        }
    }

    /// In a well-formed tree a node is one level deeper than its parent.
    pub proof fn lemma_depth_parent(&self, i: int)
        requires
            self.wf(),
            self.in_range(i),
            self.parent_of(i).is_some(),
        ensures
            self.in_range(self.parent_of(i).unwrap() as int),
            self.depth_of(i) == self.depth_of(self.parent_of(i).unwrap() as int) + 1,
    {
        let p = self.parent_of(i).unwrap() as int;
        let fuel = self.node_count() + 1;
        assert(self.depth_rec(i, fuel).is_some());
        assert(self.depth_rec(p, (fuel - 1) as nat).is_some());
        self.lemma_depth_fuel_mono(p, (fuel - 1) as nat, fuel);
    }

    /// Once a parent chain terminates within some fuel, larger fuels agree.
    pub proof fn lemma_depth_fuel_mono(&self, i: int, f1: nat, f2: nat)
        requires
            f1 <= f2,
            self.depth_rec(i, f1).is_some(),
        ensures
            self.depth_rec(i, f2) == self.depth_rec(i, f1),
        decreases f1,
    {
        if let Some(p) = self.parent_of(i) {
            self.lemma_depth_fuel_mono(p as int, (f1 - 1) as nat, (f2 - 1) as nat);
        }
    }

    proof fn lemma_push_preserves(&self, pre: Tree, r: int)
        requires
            pre.wf(),
            self.nodes@.len() == pre.nodes@.len() + 1,
            r == pre.nodes@.len(),
            forall|i: int| 0 <= i < pre.nodes@.len() ==> self.nodes@[i] == pre.nodes@[i],
            self.nodes@[r].parent == None::<usize>,
            self.nodes@[r].children@ == Seq::<usize>::empty(),
            match self.nodes@[r].data {
                NodeData::Element(e) => match e.template_contents {
                    Some(f) => pre.in_range(f as int),
                    None => true,
                },
                _ => true,
            },
        ensures
            self.wf(),
    {
        assert forall|i: int| self.in_range(i) implies match #[trigger] self.parent_of(i) {
            Some(p) => self.in_range(p as int) && self.children_of(p as int).contains(i as usize),
            None => true,
        } by {
            if i < r {
                assert(self.nodes@[i] == pre.nodes@[i]);
                if let Some(p) = self.parent_of(i) {
                    assert(pre.parent_of(i) == Some(p));
                    assert(pre.children_of(p as int).contains(i as usize));
                    assert(self.nodes@[p as int] == pre.nodes@[p as int]);
                }
            }
        }
        assert forall|i: int, k: int|
            self.in_range(i) && 0 <= k < self.children_of(i).len() implies self.in_range(
            #[trigger] self.children_of(i)[k] as int,
        ) && self.parent_of(self.children_of(i)[k] as int) == Some(i as usize) by {
            if i < r {
                assert(self.nodes@[i] == pre.nodes@[i]);
                let c = pre.children_of(i)[k];
                assert(pre.children_of(i)[k] == c);
                assert(pre.in_range(c as int));
                assert(self.nodes@[c as int] == pre.nodes@[c as int]);
            }
        }
        assert forall|i: int, k1: int, k2: int|
            self.in_range(i) && 0 <= k1 < k2 < self.children_of(i).len() implies #[trigger] self.children_of(
            i,
        )[k1] != #[trigger] self.children_of(i)[k2] by {
            if i < r {
                assert(self.nodes@[i] == pre.nodes@[i]);
                assert(pre.children_of(i)[k1] != pre.children_of(i)[k2]);
            }
        }
        assert forall|i: int| self.in_range(i) implies match #[trigger] self.data_of(i) {
            NodeData::Element(e) => match e.template_contents {
                Some(f) => self.in_range(f as int),
                None => true,
            },
            _ => true,
        } by {
            if i < r {
                assert(self.nodes@[i] == pre.nodes@[i]);
                assert(pre.data_of(i) == self.data_of(i));
            }
        }
        assert(self.links_wf());
        assert forall|i: int| self.in_range(i) implies (#[trigger] self.depth_rec(
            i,
            self.node_count() + 1,
        )).is_some() by {
            if i < r {
                let fuel = pre.node_count() + 1;
                assert(pre.depth_rec(i, fuel).is_some());
                assert forall|j: int|
                    self.parent_of(j) == pre.parent_of(j) || !pre.chain_reaches(i, j, fuel) by {
                    if pre.chain_reaches(i, j, fuel) {
                        pre.lemma_chain_in_range(i, j, fuel);
                        assert(self.nodes@[j] == pre.nodes@[j]);
                    }
                }
                pre.lemma_depth_same_links(*self, i, fuel);
                self.lemma_depth_fuel_mono(i, fuel, self.node_count() + 1);
            } else {
                assert(self.depth_rec(i, self.node_count() + 1) == Some(0nat));
            }
        }
    }

    /// Parent chains of a well-formed tree stay inside the arena.
    pub proof fn lemma_chain_in_range(&self, i: int, j: int, fuel: nat)
        requires
            self.links_wf(),
            self.in_range(i),
            self.chain_reaches(i, j, fuel),
        ensures
            self.in_range(j),
        decreases fuel,
    {
        if i == j {
        } else {
            let p = self.parent_of(i).unwrap();
            self.lemma_chain_in_range(p as int, j, (fuel - 1) as nat);
        }
    }

    /// If two trees give the same parent to every node on `i`'s chain in
    /// `self`, the chain carries over.
    proof fn lemma_depth_same_links(&self, other: Tree, i: int, fuel: nat)
        requires
            self.depth_rec(i, fuel).is_some(),
            forall|j: int| other.parent_of(j) == self.parent_of(j) || !self.chain_reaches(i, j, fuel),
            other.parent_of(i) == self.parent_of(i),
        ensures
            other.depth_rec(i, fuel) == self.depth_rec(i, fuel),
        decreases fuel,
    {
        if let Some(p) = self.parent_of(i) {
            assert(self.chain_reaches(p as int, p as int, (fuel - 1) as nat));
            assert(self.chain_reaches(i, p as int, fuel));
            assert forall|j: int|
                other.parent_of(j) == self.parent_of(j) || !self.chain_reaches(
                    p as int,
                    j,
                    (fuel - 1) as nat,
                ) by {
                if self.chain_reaches(p as int, j, (fuel - 1) as nat) {
                    assert(self.chain_reaches(i, j, fuel));
                }
            }
            self.lemma_depth_same_links(other, p as int, (fuel - 1) as nat);
        }
    }

    /// Whether `j` lies on the parent chain of `i`, within `fuel` steps.
    pub open spec fn chain_reaches(&self, i: int, j: int, fuel: nat) -> bool
        decreases fuel,
    {
        i == j || (fuel > 0 && match self.parent_of(i) {
            None => false,
            Some(p) => self.chain_reaches(p as int, j, (fuel - 1) as nat),
        })
    }

    /// The parent chain above `i`, as a sequence starting at `i`.
    spec fn chain_list(&self, i: int, fuel: nat) -> Seq<int>
        decreases fuel,
    {
        if fuel == 0 {
            Seq::empty()
        } else {
            match self.parent_of(i) {
                None => seq![i],
                Some(p) => seq![i] + self.chain_list(p as int, (fuel - 1) as nat),
            }
        }
    }

    proof fn lemma_chain_list_props(&self, i: int, fuel: nat, d: nat)
        requires
            self.links_wf(),
            self.in_range(i),
            self.depth_rec(i, fuel) == Some(d),
        ensures
            self.chain_list(i, fuel).len() == d + 1,
            forall|m: int|
                0 <= m <= d ==> self.in_range(#[trigger] self.chain_list(i, fuel)[m])
                    && self.depth_rec(self.chain_list(i, fuel)[m], fuel) == Some((d - m) as nat),
        decreases fuel,
    {
        let cl = self.chain_list(i, fuel);
        match self.parent_of(i) {
            None => {
                assert(cl =~= seq![i]);
            },
            Some(p) => {
                let clp = self.chain_list(p as int, (fuel - 1) as nat);
                self.lemma_chain_list_props(p as int, (fuel - 1) as nat, (d - 1) as nat);
                assert forall|m: int| 0 <= m <= d implies self.in_range(#[trigger] cl[m])
                    && self.depth_rec(cl[m], fuel) == Some((d - m) as nat) by {
                    if m == 0 {
                        self.lemma_depth_fuel_mono(i, fuel, fuel);
                    } else {
                        assert(cl[m] == clp[m - 1]);
                        assert(self.depth_rec(clp[m - 1], (fuel - 1) as nat) == Some(
                            (d - m) as nat,
                        ));
                        self.lemma_depth_fuel_mono(cl[m], (fuel - 1) as nat, fuel);
                    }
                }
            },
        }
    }

    /// A terminating parent chain of depth `d` needs no more fuel than `d + 1`.
    proof fn lemma_depth_min_fuel(&self, i: int, f1: nat, f2: nat, d: nat)
        requires
            self.depth_rec(i, f1) == Some(d),
            f2 >= d + 1,
        ensures
            self.depth_rec(i, f2) == Some(d),
        decreases f1,
    {
        match self.parent_of(i) {
            None => {},
            Some(p) => {
                self.lemma_depth_min_fuel(p as int, (f1 - 1) as nat, (f2 - 1) as nat, (d - 1) as nat);
            },
        }
    }

    /// In a tree with consistent links, no parent chain is longer than the
    /// arena: the chain visits distinct nodes.
    proof fn lemma_depth_bound(&self, i: int, fuel: nat, d: nat)
        requires
            self.links_wf(),
            self.in_range(i),
            self.depth_rec(i, fuel) == Some(d),
        ensures
            d < self.node_count(),
            self.depth_rec(i, self.node_count() + 1) == Some(d),
    {
        let cl = self.chain_list(i, fuel);
        self.lemma_chain_list_props(i, fuel, d);
        assert(cl.no_duplicates()) by {
            assert forall|m1: int, m2: int| 0 <= m1 < m2 < cl.len() implies cl[m1] != cl[m2] by {
                assert(self.depth_rec(cl[m1], fuel) == Some((d - m1) as nat));
                assert(self.depth_rec(cl[m2], fuel) == Some((d - m2) as nat));
            }
        }
        cl.unique_seq_to_set();
        assert(cl.to_set().subset_of(vstd::set_lib::set_int_range(0, self.node_count() as int))) by {
            assert forall|x: int| cl.to_set().contains(x) implies vstd::set_lib::set_int_range(
                0,
                self.node_count() as int,
            ).contains(x) by {
                let m = choose|m: int| 0 <= m < cl.len() && cl[m] == x;
                assert(self.in_range(cl[m]));
            }
        }
        vstd::set_lib::lemma_int_range(0, self.node_count() as int);
        vstd::set_lib::lemma_len_subset(
            cl.to_set(),
            vstd::set_lib::set_int_range(0, self.node_count() as int),
        );
        self.lemma_depth_min_fuel(i, fuel, self.node_count() + 1, d);
    }

    /// Removing a parent link only shortens chains: whatever a chain reaches
    /// after the removal, it already reached before.
    proof fn lemma_chain_shrinks(&self, post: Tree, c: int, i: int, j: int, fuel: nat)
        requires
            self.links_wf(),
            self.in_range(i),
            post.node_count() == self.node_count(),
            forall|x: int| self.in_range(x) && x != c ==> post.parent_of(x) == self.parent_of(x),
            post.parent_of(c) == None::<usize>,
            post.chain_reaches(i, j, fuel),
        ensures
            self.chain_reaches(i, j, fuel),
        decreases fuel,
    {
        if i == j {
        } else {
            let p = post.parent_of(i).unwrap();
            assert(i != c);
            assert(self.parent_of(i) == Some(p));
            self.lemma_chain_shrinks(post, c, p as int, j, (fuel - 1) as nat);
        }
    }

    /// After re-pointing the parent of a single node `c` — to no parent, or
    /// to a node whose own chain avoids `c` — every chain still reaches a
    /// root, provided the links of the new tree are consistent.
    proof fn lemma_acyclic_after_relink(&self, post: Tree, c: int)
        requires
            self.links_wf(),
            self.acyclic(),
            post.links_wf(),
            post.node_count() == self.node_count(),
            self.in_range(c),
            forall|x: int| self.in_range(x) && x != c ==> post.parent_of(x) == self.parent_of(x),
            match post.parent_of(c) {
                None => true,
                Some(p) => self.in_range(p as int) && !self.chain_reaches(
                    p as int,
                    c,
                    self.node_count() + 1,
                ),
            },
        ensures
            post.acyclic(),
    {
        assert forall|i: int| post.in_range(i) implies (#[trigger] post.depth_rec(
            i,
            post.node_count() + 1,
        )).is_some() by {
            self.lemma_relink_node(post, c, i);
        }
    }

    proof fn lemma_relink_node(&self, post: Tree, c: int, i: int)
        requires
            self.links_wf(),
            self.acyclic(),
            post.links_wf(),
            post.node_count() == self.node_count(),
            self.in_range(c),
            self.in_range(i),
            forall|x: int| self.in_range(x) && x != c ==> post.parent_of(x) == self.parent_of(x),
            match post.parent_of(c) {
                None => true,
                Some(p) => self.in_range(p as int) && !self.chain_reaches(
                    p as int,
                    c,
                    self.node_count() + 1,
                ),
            },
        ensures
            post.depth_rec(i, post.node_count() + 1).is_some(),
        decreases self.depth_of(i),
    {
        let fuel = self.node_count() + 1;
        if i == c {
            match post.parent_of(c) {
                None => {
                    assert(post.depth_rec(i, post.node_count() + 1) == Some(0nat));
                },
                Some(p) => {
                    // The chain of `p` avoids `c`, so it is the same in both trees.
                    assert(self.depth_rec(p as int, fuel).is_some());
                    assert forall|j: int|
                        post.parent_of(j) == self.parent_of(j) || !self.chain_reaches(
                            p as int,
                            j,
                            fuel,
                        ) by {
                        if self.chain_reaches(p as int, j, fuel) {
                            self.lemma_chain_in_range(p as int, j, fuel);
                            assert(j != c);
                        }
                    }
                    self.lemma_depth_same_links(post, p as int, fuel);
                    let d = post.depth_rec(p as int, fuel).unwrap();
                    post.lemma_depth_bound(p as int, fuel, d);
                    post.lemma_depth_min_fuel(p as int, fuel, post.node_count() as nat, d);
                    assert(post.depth_rec(i, post.node_count() + 1).is_some());
                },
            }
        } else {
            match self.parent_of(i) {
                None => {
                    assert(post.parent_of(i) == None::<usize>);
                },
                Some(q) => {
                    assert(post.parent_of(i) == Some(q));
                    self.lemma_depth_parent(i);
                    self.lemma_relink_node(post, c, q as int);
                    let dq = post.depth_rec(q as int, post.node_count() + 1).unwrap();
                    post.lemma_depth_bound(q as int, post.node_count() + 1, dq);
                    assert(post.depth_rec(i, post.node_count() + 2).is_some());
                    let di = post.depth_rec(i, post.node_count() + 2).unwrap();
                    post.lemma_depth_bound(i, post.node_count() + 2, di);
                },
            }
        }
    }
}

} // verus!
