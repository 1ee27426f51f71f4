//! Traversal over the node store: ancestors, siblings, descendants, and the
//! edge-based tree walk.
//!
//! The edge walk is the structural primitive: it yields an explicit start
//! edge when entering a node and an end edge when leaving it, in tree order.
//! The descendant list is the sequence of start edges. All walks are
//! computed iteratively with an explicit work stack, never by language-level
//! recursion, so arbitrarily deep documents cannot overflow the call stack.

use vstd::prelude::*;

verus! {

use crate::tree::NodeData;
use crate::tree::Tree;

/// Marks the start or end of a node during an edge-based walk of a subtree.
#[derive(Debug, Clone, Copy, PartialEq, Eq, Structural)]
pub enum NodeEdge {
    /// Yielded on entering the node, before any of its descendants.
    Start(usize),
    /// Yielded on leaving the node, after all of its descendants.
    End(usize),
}

/// The edges of the walk of the subtree rooted at `i`, in tree order.
pub open spec fn edges_of(t: Tree, i: int) -> Seq<NodeEdge>
    decreases t.node_count() - t.depth_of(i), t.children_of(i).len() + 1,
    when t.wf() && t.in_range(i)
    via edges_of_decreases
{
    seq![NodeEdge::Start(i as usize)] + edges_from(t, i, 0)
}

/// The edges that remain of the walk of node `i` once its first `k` children
/// are done: the walks of the remaining children, then the end edge of `i`.
pub open spec fn edges_from(t: Tree, i: int, k: int) -> Seq<NodeEdge>
    decreases t.node_count() - t.depth_of(i), t.children_of(i).len() - k,
    when t.wf() && t.in_range(i) && 0 <= k
    via edges_from_decreases
{
    if k >= t.children_of(i).len() {
        seq![NodeEdge::End(i as usize)]
    } else {
        edges_of(t, t.children_of(i)[k] as int) + edges_from(t, i, k + 1)
    }
}

#[via_fn]
proof fn edges_of_decreases(t: Tree, i: int) {
}

#[via_fn]
proof fn edges_from_decreases(t: Tree, i: int, k: int) {
    if t.wf() && t.in_range(i) && 0 <= k {
        if k < t.children_of(i).len() {
            let c = t.children_of(i)[k] as int;
            lemma_child_depth(t, i, k);
        }
    }
}

/// A child is one level deeper than its parent, and both depths are smaller
/// than the node count.
proof fn lemma_child_depth(t: Tree, i: int, k: int)
    requires
        t.wf(),
        t.in_range(i),
        0 <= k < t.children_of(i).len(),
    ensures
        t.in_range(t.children_of(i)[k] as int),
        t.depth_of(t.children_of(i)[k] as int) == t.depth_of(i) + 1,
        t.depth_of(t.children_of(i)[k] as int) < t.node_count(),
{
    let c = t.children_of(i)[k] as int;
    t.lemma_count_bound();
    assert(t.parent_of(c) == Some(i as usize));
    t.lemma_depth_parent(c);
    t.lemma_depth_bound_pub(c);
}

/// The nodes named by the start edges of `s`, in order.
pub open spec fn starts_of(s: Seq<NodeEdge>) -> Seq<usize>
    decreases s.len(),
{
    if s.len() == 0 {
        Seq::empty()
    } else {
        match s.last() {
            NodeEdge::Start(x) => starts_of(s.drop_last()).push(x),
            NodeEdge::End(_) => starts_of(s.drop_last()),
        }
    }
}

/// The nodes named by the end edges of `s`, in order.
pub open spec fn ends_of(s: Seq<NodeEdge>) -> Seq<usize>
    decreases s.len(),
{
    if s.len() == 0 {
        Seq::empty()
    } else {
        match s.last() {
            NodeEdge::Start(_) => ends_of(s.drop_last()),
            NodeEdge::End(x) => ends_of(s.drop_last()).push(x),
        }
    }
}

/// The subtree rooted at `i`, as the list of its nodes in tree order.
pub open spec fn descendants_of(t: Tree, i: int) -> Seq<usize> {
    starts_of(edges_of(t, i))
}

/// The edges still owed by a walk whose work stack is `st`: for each open
/// frame `(n, k)`, from the top down, the walks of `n`'s children from `k`
/// on and then the end edge of `n`.
spec fn edges_owed(t: Tree, st: Seq<(usize, usize)>) -> Seq<NodeEdge>
    decreases st.len(),
{
    if st.len() == 0 {
        Seq::empty()
    } else {
        edges_from(t, st.last().0 as int, st.last().1 as int) + edges_owed(t, st.drop_last())
    }
}

/// Walks the subtree rooted at `root` and returns its edges in tree order:
/// a start edge on entering each node, an end edge on leaving it.
///
/// The walk keeps an explicit stack of open nodes; it does not recurse, so
/// its auxiliary space is bounded by the tree's depth and a chain of many
/// thousands of nodes cannot overflow the call stack.
pub fn traverse(t: &Tree, root: usize) -> (r: Vec<NodeEdge>)
    requires
        t.wf(),
        t.in_range(root as int),
    ensures
        r@ == edges_of(*t, root as int),
{
    let total = Ghost(edges_of(*t, root as int));
    let mut out: Vec<NodeEdge> = Vec::new();
    let mut stack: Vec<(usize, usize)> = Vec::new();
    out.push(NodeEdge::Start(root));
    stack.push((root, 0));
    proof {
        assert(stack@.drop_last() =~= Seq::<(usize, usize)>::empty());
        assert(edges_owed(*t, Seq::<(usize, usize)>::empty()) =~= Seq::<NodeEdge>::empty());
        assert(edges_owed(*t, stack@) =~= edges_from(*t, root as int, 0));
        assert(edges_of(*t, root as int) =~= seq![NodeEdge::Start(root)] + edges_from(
            *t,
            root as int,
            0,
        ));
        assert(out@ + edges_owed(*t, stack@) =~= edges_of(*t, root as int));
    }
    while stack.len() > 0
        invariant
            t.wf(),
            total@ == edges_of(*t, root as int),
            forall|j: int|
                0 <= j < stack@.len() ==> t.in_range((#[trigger] stack@[j]).0 as int)
                    && stack@[j].1 <= t.children_of(stack@[j].0 as int).len(),
            out@ + edges_owed(*t, stack@) == total@,
        decreases total@.len() - out@.len(),
    {
        let top = stack.len() - 1;
        let (n, k) = stack[top];
        let ghost pre_stack = stack@;
        let ghost pre_out = out@;
        if k < t.child_count(n) {
            let c = t.child_at(n, k);
            stack.set(top, (n, k + 1));
            out.push(NodeEdge::Start(c));
            stack.push((c, 0));
            proof {
                lemma_child_depth(*t, n as int, k as int);
                t.lemma_children_bound(n as int);
                let st1 = pre_stack.update(top as int, (n, (k + 1) as usize));
                assert(stack@ =~= st1.push((c, 0)));
                assert(st1.drop_last() =~= pre_stack.drop_last());
                assert(st1.last() == (n, (k + 1) as usize));
                assert(edges_owed(*t, st1) =~= edges_from(*t, n as int, k + 1) + edges_owed(
                    *t,
                    pre_stack.drop_last(),
                ));
                assert(stack@.drop_last() =~= st1);
                assert(stack@.last() == (c, 0usize));
                assert(edges_owed(*t, stack@) =~= edges_from(*t, c as int, 0) + edges_owed(
                    *t,
                    st1,
                ));
                assert(edges_owed(*t, stack@) =~= edges_from(*t, c as int, 0) + (edges_from(
                    *t,
                    n as int,
                    k + 1,
                ) + edges_owed(*t, pre_stack.drop_last())));
                assert(edges_of(*t, c as int) =~= seq![NodeEdge::Start(c)] + edges_from(
                    *t,
                    c as int,
                    0,
                ));
                assert(edges_from(*t, n as int, k as int) =~= edges_of(*t, c as int) + edges_from(
                    *t,
                    n as int,
                    k + 1,
                ));
                assert(edges_owed(*t, pre_stack) =~= edges_from(*t, n as int, k as int)
                    + edges_owed(*t, pre_stack.drop_last()));
                assert(out@ + edges_owed(*t, stack@) =~= pre_out + edges_owed(*t, pre_stack));
            }
        } else {
            out.push(NodeEdge::End(n));
            stack.pop();
            proof {
                assert(stack@ =~= pre_stack.drop_last());
                assert(edges_from(*t, n as int, k as int) =~= seq![NodeEdge::End(n)]);
                assert(out@ + edges_owed(*t, stack@) =~= pre_out + edges_owed(*t, pre_stack));
            }
        }
    }
    proof {
        assert(out@ + edges_owed(*t, stack@) =~= out@);
    }
    out
}

/// Start and end projections distribute over concatenation.
pub proof fn lemma_edges_split(a: Seq<NodeEdge>, b: Seq<NodeEdge>)
    ensures
        starts_of(a + b) == starts_of(a) + starts_of(b),
        ends_of(a + b) == ends_of(a) + ends_of(b),
    decreases b.len(),
{
    if b.len() == 0 {
        assert(a + b =~= a);
        assert(starts_of(a) + starts_of(b) =~= starts_of(a));
        assert(ends_of(a) + ends_of(b) =~= ends_of(a));
    } else {
        lemma_edges_split(a, b.drop_last());
        assert((a + b).drop_last() =~= a + b.drop_last());
        assert((a + b).last() == b.last());
        match b.last() {
            NodeEdge::Start(x) => {
                assert(starts_of(a) + starts_of(b) =~= (starts_of(a) + starts_of(
                    b.drop_last(),
                )).push(x));
                assert(ends_of(a) + ends_of(b) =~= ends_of(a) + ends_of(b.drop_last()));
            },
            NodeEdge::End(x) => {
                assert(ends_of(a) + ends_of(b) =~= (ends_of(a) + ends_of(b.drop_last())).push(x));
                assert(starts_of(a) + starts_of(b) =~= starts_of(a) + starts_of(b.drop_last()));
            },
        }
    }
}

proof fn lemma_singleton_start(i: usize)
    ensures
        starts_of(seq![NodeEdge::Start(i)]) == seq![i],
        ends_of(seq![NodeEdge::Start(i)]) == Seq::<usize>::empty(),
{
    assert(seq![NodeEdge::Start(i)].drop_last() =~= Seq::<NodeEdge>::empty());
    assert(starts_of(Seq::<NodeEdge>::empty()) =~= Seq::<usize>::empty());
    assert(ends_of(Seq::<NodeEdge>::empty()) =~= Seq::<usize>::empty());
    assert(starts_of(seq![NodeEdge::Start(i)]) =~= seq![i]);
    assert(ends_of(seq![NodeEdge::Start(i)]) =~= Seq::<usize>::empty());
}

proof fn lemma_singleton_end(i: usize)
    ensures
        starts_of(seq![NodeEdge::End(i)]) == Seq::<usize>::empty(),
        ends_of(seq![NodeEdge::End(i)]) == seq![i],
{
    assert(seq![NodeEdge::End(i)].drop_last() =~= Seq::<NodeEdge>::empty());
    assert(starts_of(Seq::<NodeEdge>::empty()) =~= Seq::<usize>::empty());
    assert(ends_of(Seq::<NodeEdge>::empty()) =~= Seq::<usize>::empty());
    assert(starts_of(seq![NodeEdge::End(i)]) =~= Seq::<usize>::empty());
    assert(ends_of(seq![NodeEdge::End(i)]) =~= seq![i]);
}

proof fn lemma_edge_counts(t: Tree, i: int)
    requires
        t.wf(),
        t.in_range(i),
    ensures
        starts_of(edges_of(t, i)).len() == ends_of(edges_of(t, i)).len(),
        edges_of(t, i).len() == starts_of(edges_of(t, i)).len() + ends_of(edges_of(t, i)).len(),
        starts_of(edges_of(t, i)).len() >= 1,
    decreases t.node_count() - t.depth_of(i), t.children_of(i).len() + 1,
{
    lemma_edge_counts_from(t, i, 0);
    lemma_singleton_start(i as usize);
    lemma_edges_split(seq![NodeEdge::Start(i as usize)], edges_from(t, i, 0));
}

proof fn lemma_edge_counts_from(t: Tree, i: int, k: int)
    requires
        t.wf(),
        t.in_range(i),
        0 <= k,
    ensures
        ends_of(edges_from(t, i, k)).len() == starts_of(edges_from(t, i, k)).len() + 1,
        edges_from(t, i, k).len() == starts_of(edges_from(t, i, k)).len() + ends_of(
            edges_from(t, i, k),
        ).len(),
    decreases t.node_count() - t.depth_of(i), t.children_of(i).len() - k,
{
    if k >= t.children_of(i).len() {
        lemma_singleton_end(i as usize);
    } else {
        let c = t.children_of(i)[k] as int;
        lemma_child_depth(t, i, k);
        lemma_edge_counts(t, c);
        lemma_edge_counts_from(t, i, k + 1);
        lemma_edges_split(edges_of(t, c), edges_from(t, i, k + 1));
    }
}

proof fn lemma_desc_props(t: Tree, i: int)
    requires
        t.wf(),
        t.in_range(i),
    ensures
        descendants_of(t, i).len() >= 1,
        descendants_of(t, i)[0] == i as usize,
        forall|m: int|
            0 <= m < descendants_of(t, i).len() ==> t.in_range(
                (#[trigger] descendants_of(t, i)[m]) as int,
            ) && t.chain_reaches(descendants_of(t, i)[m] as int, i, t.node_count() + 1),
        descendants_of(t, i).no_duplicates(),
    decreases t.node_count() - t.depth_of(i), t.children_of(i).len() + 1,
{
    let nf = starts_of(edges_from(t, i, 0));
    lemma_desc_from_props(t, i, 0);
    lemma_singleton_start(i as usize);
    lemma_edges_split(seq![NodeEdge::Start(i as usize)], edges_from(t, i, 0));
    let d = descendants_of(t, i);
    assert(d =~= seq![i as usize] + nf);
    t.lemma_count_bound();
    assert forall|m: int|
        0 <= m < d.len() implies t.in_range((#[trigger] d[m]) as int) && t.chain_reaches(
        d[m] as int,
        i,
        t.node_count() + 1,
    ) by {
        if m == 0 {
            assert(t.chain_reaches(i, i, t.node_count() + 1));
        } else {
            let x = nf[m - 1] as int;
            let j = choose|j: int|
                0 <= j < t.children_of(i).len() && t.chain_reaches(
                    x,
                    t.children_of(i)[j] as int,
                    t.node_count(),
                );
            let cj = t.children_of(i)[j];
            t.lemma_chain_extend(x, cj as int, i as usize, t.node_count());
            t.lemma_chain_in_range(x, i, t.node_count() + 1);
            t.lemma_chain_within_depth(x, i, t.node_count() + 1);
            t.lemma_depth_bound_pub(x);
            t.lemma_chain_mono(x, i, t.depth_of(x) + 1, t.node_count() + 1);
        }
    }
    assert forall|m1: int, m2: int| 0 <= m1 < m2 < d.len() implies d[m1] != d[m2] by {
        if m1 == 0 {
            let x = nf[m2 - 1] as int;
            if d[m2] == d[0] {
                let j = choose|j: int|
                    0 <= j < t.children_of(i).len() && t.chain_reaches(
                        x,
                        t.children_of(i)[j] as int,
                        t.node_count(),
                    );
                let cj = t.children_of(i)[j] as int;
                lemma_child_depth(t, i, j);
                t.lemma_chain_in_range(x, cj, t.node_count());
                t.lemma_chain_depth(x, cj, t.node_count());
            }
        } else {
            assert(nf[m1 - 1] != nf[m2 - 1]);
        }
    }
    assert(d.no_duplicates());
}

proof fn lemma_desc_from_props(t: Tree, i: int, k: int)
    requires
        t.wf(),
        t.in_range(i),
        0 <= k,
    ensures
        forall|m: int|
            0 <= m < starts_of(edges_from(t, i, k)).len() ==> t.in_range(
                (#[trigger] starts_of(edges_from(t, i, k))[m]) as int,
            ) && exists|j: int|
                k <= j < t.children_of(i).len() && t.chain_reaches(
                    starts_of(edges_from(t, i, k))[m] as int,
                    t.children_of(i)[j] as int,
                    t.node_count(),
                ),
        starts_of(edges_from(t, i, k)).no_duplicates(),
    decreases t.node_count() - t.depth_of(i), t.children_of(i).len() - k,
{
    let nf = starts_of(edges_from(t, i, k));
    if k >= t.children_of(i).len() {
        lemma_singleton_end(i as usize);
    } else {
        let c = t.children_of(i)[k] as int;
        lemma_child_depth(t, i, k);
        lemma_desc_props(t, c);
        lemma_desc_from_props(t, i, k + 1);
        lemma_edges_split(edges_of(t, c), edges_from(t, i, k + 1));
        let d1 = descendants_of(t, c);
        let nf2 = starts_of(edges_from(t, i, k + 1));
        assert(nf =~= d1 + nf2);
        t.lemma_count_bound();
        t.lemma_depth_bound_pub(c);
        assert forall|m: int|
            0 <= m < nf.len() implies t.in_range((#[trigger] nf[m]) as int) && exists|j: int|
            k <= j < t.children_of(i).len() && t.chain_reaches(
                nf[m] as int,
                t.children_of(i)[j] as int,
                t.node_count(),
            ) by {
            if m < d1.len() {
                let x = d1[m] as int;
                assert(t.chain_reaches(x, c, t.node_count() + 1));
                t.lemma_chain_within_depth(x, c, t.node_count() + 1);
                t.lemma_depth_bound_pub(x);
                t.lemma_chain_mono(x, c, t.depth_of(x) + 1, t.node_count());
                assert(k <= k < t.children_of(i).len() && t.chain_reaches(
                    nf[m] as int,
                    t.children_of(i)[k] as int,
                    t.node_count(),
                ));
            } else {
                let x = nf2[m - d1.len()];
                assert(nf[m] == x);
            }
        }
        assert forall|m1: int, m2: int| 0 <= m1 < m2 < nf.len() implies nf[m1] != nf[m2] by {
            if m1 < d1.len() && m2 >= d1.len() {
                let x = nf[m1] as int;
                if nf[m2] == nf[m1] {
                    let j = choose|j: int|
                        k + 1 <= j < t.children_of(i).len() && t.chain_reaches(
                            x,
                            t.children_of(i)[j] as int,
                            t.node_count(),
                        );
                    let cj = t.children_of(i)[j] as int;
                    lemma_child_depth(t, i, j);
                    assert(t.chain_reaches(x, c, t.node_count() + 1));
                    t.lemma_chain_in_range(x, c, t.node_count() + 1);
                    t.lemma_chain_unique_at_depth(
                        x,
                        c,
                        cj,
                        t.node_count() + 1,
                        t.node_count(),
                    );
                }
            }
        }
        assert(nf.no_duplicates());
    }
}

proof fn lemma_edges_from_last(t: Tree, i: int, k: int)
    requires
        t.wf(),
        t.in_range(i),
        0 <= k,
    ensures
        edges_from(t, i, k).len() >= 1,
        edges_from(t, i, k).last() == NodeEdge::End(i as usize),
    decreases t.node_count() - t.depth_of(i), t.children_of(i).len() - k,
{
    if k >= t.children_of(i).len() {
        assert(seq![NodeEdge::End(i as usize)].last() == NodeEdge::End(i as usize));
    } else {
        let c = t.children_of(i)[k] as int;
        lemma_child_depth(t, i, k);
        lemma_edges_from_last(t, i, k + 1);
        assert((edges_of(t, c) + edges_from(t, i, k + 1)).last() == edges_from(
            t,
            i,
            k + 1,
        ).last());
    }
}

/// Law: the walk brackets each subtree. The first edge of the walk of `i`
/// enters `i` and the last one leaves it; everything in between belongs to
/// the subtree.
pub proof fn lemma_traversal_brackets(t: Tree, i: int)
    requires
        t.wf(),
        t.in_range(i),
    ensures
        edges_of(t, i).len() >= 2,
        edges_of(t, i)[0] == NodeEdge::Start(i as usize),
        edges_of(t, i).last() == NodeEdge::End(i as usize),
{
    lemma_edges_from_last(t, i, 0);
    assert(edges_of(t, i)[0] == (seq![NodeEdge::Start(i as usize)] + edges_from(t, i, 0))[0]);
    assert((seq![NodeEdge::Start(i as usize)] + edges_from(t, i, 0)).last() == edges_from(
        t,
        i,
        0,
    ).last());
}

/// Law: balanced traversal. The edge walk of the subtree rooted at `i`
/// yields exactly twice as many edges as the subtree has nodes: start and
/// end edges in equal number, the start edges listing each node of the
/// subtree exactly once, beginning with `i` itself, and every listed node
/// lying in that subtree.
pub proof fn lemma_traversal_balanced(t: Tree, i: int)
    requires
        t.wf(),
        t.in_range(i),
    ensures
        edges_of(t, i).len() == 2 * descendants_of(t, i).len(),
        starts_of(edges_of(t, i)).len() == ends_of(edges_of(t, i)).len(),
        descendants_of(t, i).no_duplicates(),
        descendants_of(t, i).len() >= 1,
        descendants_of(t, i)[0] == i as usize,
        forall|m: int|
            0 <= m < descendants_of(t, i).len() ==> t.in_range(
                (#[trigger] descendants_of(t, i)[m]) as int,
            ) && t.in_subtree_of(descendants_of(t, i)[m] as int, i),
{
    lemma_edge_counts(t, i);
    lemma_desc_props(t, i);
}

/// The subtree's nodes in tree order, starting with `root` itself.
pub fn inclusive_descendants(t: &Tree, root: usize) -> (r: Vec<usize>)
    requires
        t.wf(),
        t.in_range(root as int),
    ensures
        r@ == descendants_of(*t, root as int),
{
    let edges = traverse(t, root);
    let n = edges.len();
    let mut out: Vec<usize> = Vec::new();
    let mut idx: usize = 0;
    while idx < n
        invariant
            n == edges@.len(),
            idx <= n,
            out@ == starts_of(edges@.subrange(0, idx as int)),
        decreases n - idx,
    {
        let ghost prefix = edges@.subrange(0, idx as int);
        match edges[idx] {
            NodeEdge::Start(x) => {
                out.push(x);
            },
            NodeEdge::End(_) => {},
        }
        proof {
            let ext = edges@.subrange(0, idx + 1 as int);
            assert(ext =~= prefix.push(edges@[idx as int]));
            assert(ext.drop_last() =~= prefix);
        }
        idx = idx + 1;
    }
    proof {
        assert(edges@.subrange(0, n as int) =~= edges@);
    }
    out
}

/// The nodes strictly below `root`, in tree order.
pub fn descendants(t: &Tree, root: usize) -> (r: Vec<usize>)
    requires
        t.wf(),
        t.in_range(root as int),
    ensures
        r@ == descendants_of(*t, root as int).drop_first(),
{
    proof {
        lemma_desc_props(*t, root as int);
    }
    let all = inclusive_descendants(t, root);
    let n = all.len();
    let mut out: Vec<usize> = Vec::new();
    let mut idx: usize = 1;
    while idx < n
        invariant
            n == all@.len(),
            n >= 1,
            1 <= idx <= n,
            out@ == all@.subrange(1, idx as int),
        decreases n - idx,
    {
        out.push(all[idx]);
        proof {
            assert(all@.subrange(1, idx + 1 as int) =~= all@.subrange(1, idx as int).push(
                all@[idx as int],
            ));
        }
        idx = idx + 1;
    }
    proof {
        assert(out@ =~= all@.drop_first());
    }
    out
}

/// The subtree's nodes collected backward: exactly the reverse of the
/// forward collection.
pub fn inclusive_descendants_rev(t: &Tree, root: usize) -> (r: Vec<usize>)
    requires
        t.wf(),
        t.in_range(root as int),
    ensures
        r@ == descendants_of(*t, root as int).reverse(),
{
    let fwd = inclusive_descendants(t, root);
    let n = fwd.len();
    let mut out: Vec<usize> = Vec::new();
    let mut k: usize = n;
    while k > 0
        invariant
            n == fwd@.len(),
            fwd@ == descendants_of(*t, root as int),
            k <= n,
            out@.len() == n - k,
            forall|m: int| 0 <= m < out@.len() ==> #[trigger] out@[m] == fwd@[n - 1 - m],
        decreases k,
    {
        k = k - 1;
        out.push(fwd[k]);
    }
    proof {
        assert(out@ =~= fwd@.reverse());
    }
    out
}

/// The proper ancestors of `i`, nearest first.
pub open spec fn ancestors_of(t: Tree, i: int) -> Seq<usize>
    decreases t.depth_of(i),
    when t.wf() && t.in_range(i)
    via ancestors_of_decreases
{
    match t.parent_of(i) {
        None => Seq::empty(),
        Some(p) => seq![p] + ancestors_of(t, p as int),
    }
}

#[via_fn]
proof fn ancestors_of_decreases(t: Tree, i: int) {
    if t.wf() && t.in_range(i) {
        if t.parent_of(i).is_some() {
            t.lemma_depth_parent(i);
        }
    }
}

/// The ancestors of `i`, nearest first, not including `i` itself.
pub fn ancestors(t: &Tree, start: usize) -> (r: Vec<usize>)
    requires
        t.wf(),
        t.in_range(start as int),
    ensures
        r@ == ancestors_of(*t, start as int),
    decreases t.depth_of(start as int),
{
    let mut out: Vec<usize> = Vec::new();
    let mut cur = start;
    loop
        invariant
            t.wf(),
            t.in_range(cur as int),
            ancestors_of(*t, start as int) == out@ + ancestors_of(*t, cur as int),
        decreases t.depth_of(cur as int),
    {
        let ghost pre_out = out@;
        match t.parent(cur) {
            None => {
                proof {
                    assert(ancestors_of(*t, cur as int) =~= Seq::<usize>::empty());
                    assert(out@ + ancestors_of(*t, cur as int) =~= out@);
                }
                return out;
            },
            Some(p) => {
                out.push(p);
                proof {
                    t.lemma_depth_parent(cur as int);
                    assert(ancestors_of(*t, cur as int) =~= seq![p] + ancestors_of(*t, p as int));
                    assert(pre_out + ancestors_of(*t, cur as int) =~= out@ + ancestors_of(
                        *t,
                        p as int,
                    ));
                }
                cur = p;
            },
        }
    }
}

/// The node `i` followed by its ancestors, nearest first.
pub fn inclusive_ancestors(t: &Tree, start: usize) -> (r: Vec<usize>)
    requires
        t.wf(),
        t.in_range(start as int),
    ensures
        r@ == seq![start] + ancestors_of(*t, start as int),
{
    let rest = ancestors(t, start);
    let mut out: Vec<usize> = Vec::new();
    out.push(start);
    let n = rest.len();
    let mut idx: usize = 0;
    while idx < n
        invariant
            n == rest@.len(),
            idx <= n,
            out@ == seq![start] + rest@.subrange(0, idx as int),
        decreases n - idx,
    {
        out.push(rest[idx]);
        proof {
            assert(seq![start] + rest@.subrange(0, idx + 1 as int) =~= (seq![start]
                + rest@.subrange(0, idx as int)).push(rest@[idx as int]));
        }
        idx = idx + 1;
    }
    proof {
        assert(rest@.subrange(0, n as int) =~= rest@);
    }
    out
}

/// The siblings after `i` under the same parent, in document order; empty
/// for a node without a parent.
pub fn following_siblings(t: &Tree, i: usize) -> (r: Vec<usize>)
    requires
        t.wf(),
        t.in_range(i as int),
    ensures
        match t.parent_of(i as int) {
            Some(p) => exists|k: int|
                0 <= k < t.children_of(p as int).len() && t.children_of(p as int)[k] == i && r@
                    == t.children_of(p as int).subrange(k + 1, t.children_of(p as int).len() as int),
            None => r@ == Seq::<usize>::empty(),
        },
{
    match t.parent(i) {
        None => Vec::new(),
        Some(p) => {
            let k = t.position_in_parent(p, i);
            let n = t.child_count(p);
            let mut out: Vec<usize> = Vec::new();
            let mut m = k + 1;
            while m < n
                invariant
                    t.wf(),
                    t.in_range(p as int),
                    n == t.children_of(p as int).len(),
                    k < n,
                    k + 1 <= m <= n,
                    out@ == t.children_of(p as int).subrange(k + 1, m as int),
                decreases n - m,
            {
                out.push(t.child_at(p, m));
                proof {
                    assert(t.children_of(p as int).subrange(k + 1, m + 1 as int)
                        =~= t.children_of(p as int).subrange(k + 1, m as int).push(
                        t.children_of(p as int)[m as int],
                    ));
                }
                m = m + 1;
            }
            out
        },
    }
}

/// The siblings before `i` under the same parent, nearest first (reverse
/// document order); empty for a node without a parent.
pub fn preceding_siblings(t: &Tree, i: usize) -> (r: Vec<usize>)
    requires
        t.wf(),
        t.in_range(i as int),
    ensures
        match t.parent_of(i as int) {
            Some(p) => exists|k: int|
                0 <= k < t.children_of(p as int).len() && t.children_of(p as int)[k] == i && r@
                    == t.children_of(p as int).subrange(0, k).reverse(),
            None => r@ == Seq::<usize>::empty(),
        },
{
    match t.parent(i) {
        None => Vec::new(),
        Some(p) => {
            let k = t.position_in_parent(p, i);
            let mut out: Vec<usize> = Vec::new();
            let mut m = k;
            while m > 0
                invariant
                    t.wf(),
                    t.in_range(p as int),
                    k < t.children_of(p as int).len(),
                    m <= k,
                    out@.len() == k - m,
                    forall|j: int|
                        0 <= j < out@.len() ==> #[trigger] out@[j] == t.children_of(p as int)[k - 1
                            - j],
                decreases m,
            {
                m = m - 1;
                out.push(t.child_at(p, m));
            }
            proof {
                assert(out@ =~= t.children_of(p as int).subrange(0, k as int).reverse());
            }
            out
        },
    }
}

/// The node `i` followed by the siblings after it, in document order.
pub fn inclusive_following_siblings(t: &Tree, i: usize) -> (r: Vec<usize>)
    requires
        t.wf(),
        t.in_range(i as int),
    ensures
        r@.len() >= 1,
        r@[0] == i,
        match t.parent_of(i as int) {
            Some(p) => exists|k: int|
                0 <= k < t.children_of(p as int).len() && t.children_of(p as int)[k] == i
                    && r@.drop_first() == t.children_of(p as int).subrange(
                    k + 1,
                    t.children_of(p as int).len() as int,
                ),
            None => r@.drop_first() == Seq::<usize>::empty(),
        },
{
    let rest = following_siblings(t, i);
    let mut out: Vec<usize> = Vec::new();
    out.push(i);
    let n = rest.len();
    let mut m: usize = 0;
    while m < n
        invariant
            n == rest@.len(),
            m <= n,
            out@ == seq![i] + rest@.subrange(0, m as int),
        decreases n - m,
    {
        out.push(rest[m]);
        proof {
            assert(seq![i] + rest@.subrange(0, m + 1 as int) =~= (seq![i] + rest@.subrange(
                0,
                m as int,
            )).push(rest@[m as int]));
        }
        m = m + 1;
    }
    proof {
        assert(rest@.subrange(0, n as int) =~= rest@);
        assert(out@.drop_first() =~= rest@);
    }
    out
}

/// The node `i` followed by the siblings before it, nearest first.
pub fn inclusive_preceding_siblings(t: &Tree, i: usize) -> (r: Vec<usize>)
    requires
        t.wf(),
        t.in_range(i as int),
    ensures
        r@.len() >= 1,
        r@[0] == i,
        match t.parent_of(i as int) {
            Some(p) => exists|k: int|
                0 <= k < t.children_of(p as int).len() && t.children_of(p as int)[k] == i
                    && r@.drop_first() == t.children_of(p as int).subrange(0, k).reverse(),
            None => r@.drop_first() == Seq::<usize>::empty(),
        },
{
    let rest = preceding_siblings(t, i);
    let mut out: Vec<usize> = Vec::new();
    out.push(i);
    let n = rest.len();
    let mut m: usize = 0;
    while m < n
        invariant
            n == rest@.len(),
            m <= n,
            out@ == seq![i] + rest@.subrange(0, m as int),
        decreases n - m,
    {
        out.push(rest[m]);
        proof {
            assert(seq![i] + rest@.subrange(0, m + 1 as int) =~= (seq![i] + rest@.subrange(
                0,
                m as int,
            )).push(rest@[m as int]));
        }
        m = m + 1;
    }
    proof {
        assert(rest@.subrange(0, n as int) =~= rest@);
        assert(out@.drop_first() =~= rest@);
    }
    out
}

/// The child list of `i` in reverse order: the backward collection of the
/// children mirrors the forward one.
pub fn children_rev(t: &Tree, i: usize) -> (r: Vec<usize>)
    requires
        t.in_range(i as int),
    ensures
        r@ == t.children_of(i as int).reverse(),
{
    let n = t.child_count(i);
    let mut out: Vec<usize> = Vec::new();
    let mut k: usize = n;
    while k > 0
        invariant
            t.in_range(i as int),
            n == t.children_of(i as int).len(),
            k <= n,
            out@.len() == n - k,
            forall|m: int|
                0 <= m < out@.len() ==> #[trigger] out@[m] == t.children_of(i as int)[n - 1 - m],
        decreases k,
    {
        k = k - 1;
        out.push(t.child_at(i, k));
    }
    proof {
        assert(out@ =~= t.children_of(i as int).reverse());
    }
    out
}

/// The entries of `s` that name element nodes of `t`, in order.
pub open spec fn elements_in(t: Tree, s: Seq<usize>) -> Seq<usize>
    decreases s.len(),
{
    if s.len() == 0 {
        Seq::empty()
    } else {
        let rest = elements_in(t, s.drop_last());
        if t.data_of(s.last() as int) is Element {
            rest.push(s.last())
        } else {
            rest
        }
    }
}

/// The entries of `s` that name text nodes of `t`, in order.
pub open spec fn text_nodes_in(t: Tree, s: Seq<usize>) -> Seq<usize>
    decreases s.len(),
{
    if s.len() == 0 {
        Seq::empty()
    } else {
        let rest = text_nodes_in(t, s.drop_last());
        if t.data_of(s.last() as int) is Text {
            rest.push(s.last())
        } else {
            rest
        }
    }
}

/// The entries of `s` that name comment nodes of `t`, in order.
pub open spec fn comments_in(t: Tree, s: Seq<usize>) -> Seq<usize>
    decreases s.len(),
{
    if s.len() == 0 {
        Seq::empty()
    } else {
        let rest = comments_in(t, s.drop_last());
        if t.data_of(s.last() as int) is Comment {
            rest.push(s.last())
        } else {
            rest
        }
    }
}

/// The entries of `s` that name elements of `t` whose namespace URI is `ns`,
/// in order.
pub open spec fn elements_in_ns(t: Tree, s: Seq<usize>, ns: Seq<char>) -> Seq<usize>
    decreases s.len(),
{
    if s.len() == 0 {
        Seq::empty()
    } else {
        let rest = elements_in_ns(t, s.drop_last(), ns);
        match t.data_of(s.last() as int) {
            NodeData::Element(e) => if e.name.ns@ == ns {
                rest.push(s.last())
            } else {
                rest
            },
            _ => rest,
        }
    }
}

/// Keeps the entries of `nodes` that name element nodes.
pub fn filter_elements(t: &Tree, nodes: &Vec<usize>) -> (r: Vec<usize>)
    requires
        forall|m: int| 0 <= m < nodes@.len() ==> t.in_range((#[trigger] nodes@[m]) as int),
    ensures
        r@ == elements_in(*t, nodes@),
{
    let n = nodes.len();
    let mut out: Vec<usize> = Vec::new();
    let mut idx: usize = 0;
    while idx < n
        invariant
            n == nodes@.len(),
            idx <= n,
            forall|m: int| 0 <= m < nodes@.len() ==> t.in_range((#[trigger] nodes@[m]) as int),
            out@ == elements_in(*t, nodes@.subrange(0, idx as int)),
        decreases n - idx,
    {
        let ghost prefix = nodes@.subrange(0, idx as int);
        let x = nodes[idx];
        match t.data(x) {
            NodeData::Element(_) => {
                out.push(x);
            },
            _ => {},
        }
        proof {
            let ext = nodes@.subrange(0, idx + 1 as int);
            assert(ext =~= prefix.push(x));
            assert(ext.drop_last() =~= prefix);
        }
        idx = idx + 1;
    }
    proof {
        assert(nodes@.subrange(0, n as int) =~= nodes@);
    }
    out
}

/// Keeps the entries of `nodes` that name text nodes.
pub fn filter_text_nodes(t: &Tree, nodes: &Vec<usize>) -> (r: Vec<usize>)
    requires
        forall|m: int| 0 <= m < nodes@.len() ==> t.in_range((#[trigger] nodes@[m]) as int),
    ensures
        r@ == text_nodes_in(*t, nodes@),
{
    let n = nodes.len();
    let mut out: Vec<usize> = Vec::new();
    let mut idx: usize = 0;
    while idx < n
        invariant
            n == nodes@.len(),
            idx <= n,
            forall|m: int| 0 <= m < nodes@.len() ==> t.in_range((#[trigger] nodes@[m]) as int),
            out@ == text_nodes_in(*t, nodes@.subrange(0, idx as int)),
        decreases n - idx,
    {
        let ghost prefix = nodes@.subrange(0, idx as int);
        let x = nodes[idx];
        match t.data(x) {
            NodeData::Text(_) => {
                out.push(x);
            },
            _ => {},
        }
        proof {
            let ext = nodes@.subrange(0, idx + 1 as int);
            assert(ext =~= prefix.push(x));
            assert(ext.drop_last() =~= prefix);
        }
        idx = idx + 1;
    }
    proof {
        assert(nodes@.subrange(0, n as int) =~= nodes@);
    }
    out
}

/// Keeps the entries of `nodes` that name comment nodes.
pub fn filter_comments(t: &Tree, nodes: &Vec<usize>) -> (r: Vec<usize>)
    requires
        forall|m: int| 0 <= m < nodes@.len() ==> t.in_range((#[trigger] nodes@[m]) as int),
    ensures
        r@ == comments_in(*t, nodes@),
{
    let n = nodes.len();
    let mut out: Vec<usize> = Vec::new();
    let mut idx: usize = 0;
    while idx < n
        invariant
            n == nodes@.len(),
            idx <= n,
            forall|m: int| 0 <= m < nodes@.len() ==> t.in_range((#[trigger] nodes@[m]) as int),
            out@ == comments_in(*t, nodes@.subrange(0, idx as int)),
        decreases n - idx,
    {
        let ghost prefix = nodes@.subrange(0, idx as int);
        let x = nodes[idx];
        match t.data(x) {
            NodeData::Comment(_) => {
                out.push(x);
            },
            _ => {},
        }
        proof {
            let ext = nodes@.subrange(0, idx + 1 as int);
            assert(ext =~= prefix.push(x));
            assert(ext.drop_last() =~= prefix);
        }
        idx = idx + 1;
    }
    proof {
        assert(nodes@.subrange(0, n as int) =~= nodes@);
    }
    out
}

/// Keeps the entries of `nodes` that name elements in namespace `ns`.
pub fn filter_elements_in_ns(t: &Tree, nodes: &Vec<usize>, ns: &str) -> (r: Vec<usize>)
    requires
        forall|m: int| 0 <= m < nodes@.len() ==> t.in_range((#[trigger] nodes@[m]) as int),
    ensures
        r@ == elements_in_ns(*t, nodes@, ns@),
{
    let n = nodes.len();
    let mut out: Vec<usize> = Vec::new();
    let mut idx: usize = 0;
    while idx < n
        invariant
            n == nodes@.len(),
            idx <= n,
            forall|m: int| 0 <= m < nodes@.len() ==> t.in_range((#[trigger] nodes@[m]) as int),
            out@ == elements_in_ns(*t, nodes@.subrange(0, idx as int), ns@),
        decreases n - idx,
    {
        let ghost prefix = nodes@.subrange(0, idx as int);
        let x = nodes[idx];
        match t.data(x) {
            NodeData::Element(e) => {
                if crate::text::str_eq(e.name.ns.as_str(), ns) {
                    out.push(x);
                }
            },
            _ => {},
        }
        proof {
            let ext = nodes@.subrange(0, idx + 1 as int);
            assert(ext =~= prefix.push(x));
            assert(ext.drop_last() =~= prefix);
        }
        idx = idx + 1;
    }
    proof {
        assert(nodes@.subrange(0, n as int) =~= nodes@);
    }
    out
}

/// The concatenation of the text held by the text nodes among `s`, in order.
pub open spec fn text_in(t: Tree, s: Seq<usize>) -> Seq<char>
    decreases s.len(),
{
    if s.len() == 0 {
        Seq::empty()
    } else {
        text_in(t, s.drop_last()) + (match t.data_of(s.last() as int) {
            NodeData::Text(v) => v@,
            _ => Seq::empty(),
        })
    }
}

/// The concatenation of all text in the subtree of `root`, in tree order.
pub fn text_contents(t: &Tree, root: usize) -> (r: String)
    requires
        t.wf(),
        t.in_range(root as int),
    ensures
        r@ == text_in(*t, descendants_of(*t, root as int)),
{
    proof {
        lemma_desc_props(*t, root as int);
    }
    let nodes = inclusive_descendants(t, root);
    let n = nodes.len();
    let mut out = String::new();
    let mut idx: usize = 0;
    while idx < n
        invariant
            n == nodes@.len(),
            idx <= n,
            forall|m: int| 0 <= m < nodes@.len() ==> t.in_range((#[trigger] nodes@[m]) as int),
            out@ == text_in(*t, nodes@.subrange(0, idx as int)),
        decreases n - idx,
    {
        let ghost prefix = nodes@.subrange(0, idx as int);
        let x = nodes[idx];
        match t.data(x) {
            NodeData::Text(v) => {
                let piece = v.clone();
                out.append(piece.as_str());
            },
            _ => {
                proof {
                    assert(out@ + Seq::<char>::empty() =~= out@);
                }
            },
        }
        proof {
            let ext = nodes@.subrange(0, idx + 1 as int);
            assert(ext =~= prefix.push(x));
            assert(ext.drop_last() =~= prefix);
        }
        idx = idx + 1;
    }
    proof {
        assert(nodes@.subrange(0, n as int) =~= nodes@);
    }
    out
}

} // verus!
