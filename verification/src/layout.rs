//! Tree layout: every leaf gets one slot of width, every inner node spans
//! its children, and nodes sit one level below their parents.

use vstd::prelude::*;
use crate::node::{
    child_starts, flat, flat_forest, forest_size, is_tree, lemma_flat_forest_len, lemma_flat_len, links_ok,
    nodes_view, root_node, tree_nodes, tree_size, Labelled, Node, NodeView, SyntaxTree,
};

verus! {

/// The nodes of the subtree of `v` in post-order: each child's subtree in
/// turn, then `v`.
pub open spec fn post_tree(nv: Seq<NodeView>, v: int) -> Seq<usize>
    decreases nv.len() - v, nv[v].children.len() + 1,
{
    if 0 <= v < nv.len() {
        post_forest(nv, nv[v].children, v).push(v as usize)
    } else {
        seq![]
    }
}

/// The post-orders of the subtrees of `cs`, children of `v`, one after
/// another.
pub open spec fn post_forest(nv: Seq<NodeView>, cs: Seq<usize>, v: int) -> Seq<usize>
    decreases nv.len() - v, cs.len(),
{
    if cs.len() > 0 && 0 <= v < cs[0] < nv.len() {
        post_tree(nv, cs[0] as int) + post_forest(nv, cs.drop_first(), v)
    } else {
        seq![]
    }
}

/// The nodes of the subtree of `v` in pre-order: `v`, then each child's
/// subtree in turn.
pub open spec fn pre_tree(nv: Seq<NodeView>, v: int) -> Seq<usize>
    decreases nv.len() - v, nv[v].children.len() + 1,
{
    if 0 <= v < nv.len() {
        seq![v as usize] + pre_forest(nv, nv[v].children, v)
    } else {
        seq![]
    }
}

/// The pre-orders of the subtrees of `cs`, children of `v`, one after
/// another.
pub open spec fn pre_forest(nv: Seq<NodeView>, cs: Seq<usize>, v: int) -> Seq<usize>
    decreases nv.len() - v, cs.len(),
{
    if cs.len() > 0 && 0 <= v < cs[0] < nv.len() {
        pre_tree(nv, cs[0] as int) + pre_forest(nv, cs.drop_first(), v)
    } else {
        seq![]
    }
}

/// Every child index of every node is a valid index greater than its
/// parent's: the numbering that every list `flatten`, `ast::build` and
/// `hir::build` return has (see [`lemma_links_forward`]).
pub open spec fn children_forward(nv: Seq<NodeView>) -> bool {
    forall|j: int, k: int|
        0 <= j < nv.len() && 0 <= k < nv[j].children.len() ==> j < #[trigger] nv[j].children[k] < nv.len()
}

/// A well-formed node list is numbered forward.
pub proof fn lemma_links_forward(nv: Seq<NodeView>)
    requires
        links_ok(nv, 0),
    ensures
        children_forward(nv),
{
    assert forall|j: int, k: int| 0 <= j < nv.len() && 0 <= k < nv[j].children.len() implies j
        < #[trigger] nv[j].children[k] < nv.len() by {
        assert(0 + j < nv[j].children[k] < 0 + nv.len());
    }
}

/// Every node of `within` is a valid index whose children are in `within`,
/// and every link from a node of `within` lowers `rank`.
pub open spec fn ranked(nv: Seq<NodeView>, within: Set<int>, rank: spec_fn(int) -> nat) -> bool {
    &&& forall|v: int| #[trigger] within.contains(v) ==> 0 <= v < nv.len()
    &&& forall|v: int, k: int|
        #![trigger nv[v].children[k]]
        within.contains(v) && 0 <= k < nv[v].children.len() ==> {
            &&& within.contains(nv[v].children[k] as int)
            &&& rank(nv[v].children[k] as int) < rank(v)
        }
}

/// The nodes reachable from `root` are valid indices and none is its own
/// descendant: they lie in a set closed under the child links along which
/// some rank goes down.
pub open spec fn acyclic_from(nv: Seq<NodeView>, root: int) -> bool {
    exists|within: Set<int>, rank: spec_fn(int) -> nat| within.contains(root) && ranked(nv, within, rank)
}

/// Such a closed set and rank for `root`.
pub open spec fn walk_frame(nv: Seq<NodeView>, root: int) -> (Set<int>, spec_fn(int) -> nat) {
    choose|within: Set<int>, rank: spec_fn(int) -> nat| within.contains(root) && ranked(nv, within, rank)
}

/// No node is listed twice among the children of the nodes of `within`.
pub open spec fn single_listed(nv: Seq<NodeView>, within: Set<int>) -> bool {
    forall|j1: int, k1: int, j2: int, k2: int|
        within.contains(j1) && within.contains(j2) && 0 <= k1 < nv[j1].children.len() && 0 <= k2
            < nv[j2].children.len() && #[trigger] nv[j1].children[k1] == #[trigger] nv[j2].children[k2]
            ==> j1 == j2 && k1 == k2
}

/// The nodes reachable from `root` form a tree: valid indices, no node its
/// own descendant, and none listed as a child twice.
pub open spec fn tree_from(nv: Seq<NodeView>, root: int) -> bool {
    exists|within: Set<int>, rank: spec_fn(int) -> nat|
        within.contains(root) && ranked(nv, within, rank) && single_listed(nv, within)
}

/// Pre-order of the subtree of `v` along links that lower `rank`.
pub open spec fn pre_walk(nv: Seq<NodeView>, rank: spec_fn(int) -> nat, v: int) -> Seq<usize>
    decreases rank(v), nv[v].children.len() + 1,
{
    if 0 <= v < nv.len() {
        seq![v as usize] + pre_walk_forest(nv, rank, nv[v].children, v)
    } else {
        seq![]
    }
}

/// Pre-orders of the subtrees of `cs`, children of `v`, one after another.
pub open spec fn pre_walk_forest(nv: Seq<NodeView>, rank: spec_fn(int) -> nat, cs: Seq<usize>, v: int) -> Seq<usize>
    decreases rank(v), cs.len(),
{
    if cs.len() > 0 && cs[0] < nv.len() && rank(cs[0] as int) < rank(v) {
        pre_walk(nv, rank, cs[0] as int) + pre_walk_forest(nv, rank, cs.drop_first(), v)
    } else {
        seq![]
    }
}

/// Post-order of the subtree of `v` along links that lower `rank`.
pub open spec fn post_walk(nv: Seq<NodeView>, rank: spec_fn(int) -> nat, v: int) -> Seq<usize>
    decreases rank(v), nv[v].children.len() + 1,
{
    if 0 <= v < nv.len() {
        post_walk_forest(nv, rank, nv[v].children, v).push(v as usize)
    } else {
        seq![]
    }
}

/// Post-orders of the subtrees of `cs`, children of `v`, one after another.
pub open spec fn post_walk_forest(nv: Seq<NodeView>, rank: spec_fn(int) -> nat, cs: Seq<usize>, v: int) -> Seq<usize>
    decreases rank(v), cs.len(),
{
    if cs.len() > 0 && cs[0] < nv.len() && rank(cs[0] as int) < rank(v) {
        post_walk(nv, rank, cs[0] as int) + post_walk_forest(nv, rank, cs.drop_first(), v)
    } else {
        seq![]
    }
}

/// The pre-order of the subtree of `v` where it is acyclic: `v`, then the
/// pre-order of each child's subtree in turn.
pub open spec fn preorder_of(nv: Seq<NodeView>, v: int) -> Seq<usize> {
    pre_walk(nv, walk_frame(nv, v).1, v)
}

/// The post-order of the subtree of `v` where it is acyclic: the post-order
/// of each child's subtree in turn, then `v`.
pub open spec fn postorder_of(nv: Seq<NodeView>, v: int) -> Seq<usize> {
    post_walk(nv, walk_frame(nv, v).1, v)
}

/// What remains to be emitted for a stack of frames `(node, next child)`,
/// the top frame last: for each frame from the top down, the post-orders
/// of its remaining children, then its node.
pub open spec fn post_pending(nv: Seq<NodeView>, rank: spec_fn(int) -> nat, frames: Seq<(usize, usize)>) -> Seq<usize>
    decreases frames.len(),
{
    if frames.len() == 0 {
        seq![]
    } else {
        let (v, i) = frames.last();
        post_walk_forest(nv, rank, nv[v as int].children.skip(i as int), v as int).push(v)
            + post_pending(nv, rank, frames.drop_last())
    }
}

/// What remains to be emitted for a stack of nodes, the top last: the
/// pre-order of each node's subtree from the top down.
pub open spec fn pre_pending(nv: Seq<NodeView>, rank: spec_fn(int) -> nat, stack: Seq<usize>) -> Seq<usize>
    decreases stack.len(),
{
    if stack.len() == 0 {
        seq![]
    } else {
        pre_walk(nv, rank, stack.last() as int) + pre_pending(nv, rank, stack.drop_last())
    }
}

proof fn lemma_post_pending_len(nv: Seq<NodeView>, rank: spec_fn(int) -> nat, frames: Seq<(usize, usize)>)
    ensures
        post_pending(nv, rank, frames).len() >= frames.len(),
    decreases frames.len(),
{
    if frames.len() > 0 {
        lemma_post_pending_len(nv, rank, frames.drop_last());
    }
}

/// A well-formed list is a tree from node 0: all indices form a closed
/// set, and the distance to the end goes down along every link.
pub proof fn lemma_tree_walkable(nv: Seq<NodeView>)
    requires
        links_ok(nv, 0),
        nv.len() > 0,
    ensures
        children_forward(nv),
        acyclic_from(nv, 0),
        tree_from(nv, 0),
        walk_frame(nv, 0).0.contains(0),
        ranked(nv, walk_frame(nv, 0).0, walk_frame(nv, 0).1),
{
    lemma_links_forward(nv);
    let within = Set::new(|v: int| 0 <= v < nv.len());
    let rank = |v: int| (nv.len() - v) as nat;
    assert forall|v: int, k: int| within.contains(v) && 0 <= k < nv[v].children.len() implies {
        &&& within.contains(#[trigger] nv[v].children[k] as int)
        &&& rank(nv[v].children[k] as int) < rank(v)
    } by {
        assert(v < nv[v].children[k] < nv.len());
    }
    assert(ranked(nv, within, rank));
    assert(within.contains(0));
    assert forall|j1: int, k1: int, j2: int, k2: int|
        within.contains(j1) && within.contains(j2) && 0 <= k1 < nv[j1].children.len() && 0 <= k2
            < nv[j2].children.len() && #[trigger] nv[j1].children[k1] == #[trigger] nv[j2].children[k2]
        implies j1 == j2 && k1 == k2 by {
        let c = nv[j1].children[k1];
        assert(nv[c - 0].parent == Some((0 + j1) as usize));
        assert(nv[c - 0].parent == Some((0 + j2) as usize));
        if k1 < k2 {
            assert(nv[j1].children[k1] < nv[j1].children[k2]);
        } else if k2 < k1 {
            assert(nv[j1].children[k2] < nv[j1].children[k1]);
        }
    }
    assert(single_listed(nv, within));
}

/// On a list numbered forward the walks give the orders [`pre_tree`] and
/// [`post_tree`], whatever rank they follow.
pub proof fn lemma_walks_forward(nv: Seq<NodeView>, within: Set<int>, rank: spec_fn(int) -> nat, v: int)
    requires
        children_forward(nv),
        ranked(nv, within, rank),
        within.contains(v),
    ensures
        pre_walk(nv, rank, v) == pre_tree(nv, v),
        post_walk(nv, rank, v) == post_tree(nv, v),
    decreases nv.len() - v, nv[v].children.len() + 1,
{
    lemma_children_ranked(nv, within, rank, v);
    lemma_walks_forward_forest(nv, within, rank, nv[v].children, v);
}

proof fn lemma_walks_forward_forest(nv: Seq<NodeView>, within: Set<int>, rank: spec_fn(int) -> nat, cs: Seq<usize>, v: int)
    requires
        children_forward(nv),
        ranked(nv, within, rank),
        0 <= v < nv.len(),
        forall|m: int| 0 <= m < cs.len() ==> v < #[trigger] cs[m] < nv.len(),
        ranked_below(nv, within, rank, cs, v),
    ensures
        pre_walk_forest(nv, rank, cs, v) == pre_forest(nv, cs, v),
        post_walk_forest(nv, rank, cs, v) == post_forest(nv, cs, v),
    decreases nv.len() - v, cs.len(),
{
    if cs.len() > 0 {
        assert(v < cs[0] < nv.len() && rank(cs[0] as int) < rank(v) && within.contains(cs[0] as int));
        lemma_walks_forward(nv, within, rank, cs[0] as int);
        let t = cs.drop_first();
        assert forall|m: int| 0 <= m < t.len() implies v < #[trigger] t[m] < nv.len() by {
            assert(t[m] == cs[m + 1]);
        }
        lemma_ranked_below_tail(nv, within, rank, cs, v);
        lemma_walks_forward_forest(nv, within, rank, t, v);
    }
}

/// Every element of `cs` is a node of `within` of lower rank than `v`.
pub open spec fn ranked_below(nv: Seq<NodeView>, within: Set<int>, rank: spec_fn(int) -> nat, cs: Seq<usize>, v: int) -> bool {
    forall|m: int| 0 <= m < cs.len() ==> #[trigger] cs[m] < nv.len() && within.contains(cs[m] as int) && rank(cs[m] as int) < rank(v)
}

proof fn lemma_children_ranked(nv: Seq<NodeView>, within: Set<int>, rank: spec_fn(int) -> nat, v: int)
    requires
        ranked(nv, within, rank),
        within.contains(v),
    ensures
        0 <= v < nv.len(),
        ranked_below(nv, within, rank, nv[v].children, v),
{
    assert forall|m: int| 0 <= m < nv[v].children.len() implies #[trigger] nv[v].children[m] < nv.len()
        && within.contains(nv[v].children[m] as int) && rank(nv[v].children[m] as int) < rank(v) by {
        assert(within.contains(nv[v].children[m] as int));
    }
}

proof fn lemma_ranked_below_tail(nv: Seq<NodeView>, within: Set<int>, rank: spec_fn(int) -> nat, cs: Seq<usize>, v: int)
    requires
        ranked_below(nv, within, rank, cs, v),
        cs.len() > 0,
    ensures
        ranked_below(nv, within, rank, cs.drop_first(), v),
        ranked_below(nv, within, rank, cs.drop_last(), v),
{
    assert forall|m: int| 0 <= m < cs.drop_first().len() implies #[trigger] cs.drop_first()[m] < nv.len()
        && within.contains(cs.drop_first()[m] as int) && rank(cs.drop_first()[m] as int) < rank(v) by {
        assert(cs.drop_first()[m] == cs[m + 1]);
    }
    assert forall|m: int| 0 <= m < cs.drop_last().len() implies #[trigger] cs.drop_last()[m] < nv.len()
        && within.contains(cs.drop_last()[m] as int) && rank(cs.drop_last()[m] as int) < rank(v) by {
        assert(cs.drop_last()[m] == cs[m]);
    }
}

/// The nodes of the subtree of `root` in post-order. What `root` reaches
/// must be a tree ([`tree_from`]), as in every built list; the rest of the
/// list is not read.
pub fn postorder(nodes: &[Node], root: usize) -> (order: Vec<usize>)
    requires
        root < nodes@.len(),
        tree_from(nodes_view(nodes@), root as int),
    ensures
        order@ == postorder_of(nodes_view(nodes@), root as int),
{
    let ghost nv = nodes_view(nodes@);
    proof {
        let (w0, r0) = choose|within: Set<int>, rank: spec_fn(int) -> nat|
            within.contains(root as int) && ranked(nv, within, rank) && single_listed(nv, within);
        assert(w0.contains(root as int) && ranked(nv, w0, r0));
        assert(acyclic_from(nv, root as int));
    }
    let ghost w = walk_frame(nv, root as int).0;
    let ghost rk = walk_frame(nv, root as int).1;
    let mut result: Vec<usize> = Vec::new();
    let mut stack: Vec<(usize, usize)> = Vec::new();
    stack.push((root, 0));
    proof {
        assert(ranked(nv, w, rk) && w.contains(root as int));
        assert(nv[root as int].children.skip(0) =~= nv[root as int].children);
        assert(stack@.drop_last() =~= Seq::<(usize, usize)>::empty());
        assert(stack@.last() == (root, 0usize));
        assert(post_pending(nv, rk, stack@) == post_walk_forest(nv, rk, nv[root as int].children.skip(0), root as int).push(root)
            + post_pending(nv, rk, stack@.drop_last()));
        assert(result@ + post_pending(nv, rk, stack@) =~= post_walk(nv, rk, root as int));
        lemma_post_pending_len(nv, rk, stack@);
    }
    while stack.len() > 0
        invariant
            nv == nodes_view(nodes@),
            nv.len() == nodes@.len(),
            ranked(nv, w, rk),
            rk == walk_frame(nv, root as int).1,
            root < nv.len(),
            forall|k: int| 0 <= k < stack@.len() ==> {
                let (v, i) = #[trigger] stack@[k];
                &&& w.contains(v as int)
                &&& v < nv.len()
                &&& i <= nv[v as int].children.len()
            },
            result@ + post_pending(nv, rk, stack@) == post_walk(nv, rk, root as int),
        decreases 2 * post_pending(nv, rk, stack@).len() - stack@.len(),
    {
        let ghost before = stack@;
        let top = stack.pop().unwrap();
        let (v, i) = top;
        proof {
            assert(before.drop_last() =~= stack@);
            assert(before.last() == top);
            assert(before[before.len() - 1] == top);
            lemma_post_pending_len(nv, rk, stack@);
        }
        if i < nodes[v].children.len() {
            let c = nodes[v].children[i];
            stack.push((v, i + 1));
            stack.push((c, 0));
            proof {
                let cs = nv[v as int].children;
                assert(cs == nodes@[v as int].children@);
                assert(cs[i as int] == c);
                assert(w.contains(v as int));
                assert(c < nv.len() && rk(c as int) < rk(v as int) && w.contains(c as int));
                let rest = cs.skip(i as int);
                assert(rest.drop_first() =~= cs.skip(i + 1));
                assert(rest[0] == c);
                assert(nv[c as int].children.skip(0) =~= nv[c as int].children);
                let mid = stack@.drop_last();
                assert(mid.drop_last() =~= before.drop_last());
                assert(post_walk_forest(nv, rk, rest, v as int) == post_walk(nv, rk, c as int) + post_walk_forest(nv, rk, cs.skip(i + 1), v as int));
                assert(post_walk(nv, rk, c as int) == post_walk_forest(nv, rk, nv[c as int].children.skip(0), c as int).push(c));
                assert(stack@.last() == (c, 0usize));
                assert(mid.last() == (v, (i + 1) as usize));
                assert(post_pending(nv, rk, stack@) == post_walk(nv, rk, c as int) + post_pending(nv, rk, mid));
                assert(post_pending(nv, rk, mid) == post_walk_forest(nv, rk, cs.skip(i + 1), v as int).push(v) + post_pending(nv, rk, before.drop_last()));
                assert(post_pending(nv, rk, before) == post_walk_forest(nv, rk, rest, v as int).push(v) + post_pending(nv, rk, before.drop_last()));
                assert(post_pending(nv, rk, stack@) =~= post_pending(nv, rk, before));
                assert forall|k: int| 0 <= k < stack@.len() implies {
                    let (u, j) = #[trigger] stack@[k];
                    &&& w.contains(u as int)
                    &&& u < nv.len()
                    &&& j <= nv[u as int].children.len()
                } by {
                    if k < stack@.len() - 2 {
                        assert(stack@[k] == before[k]);
                    }
                }
                lemma_post_pending_len(nv, rk, stack@);
            }
        } else {
            result.push(v);
            proof {
                let cs = nv[v as int].children;
                assert(cs.skip(i as int) =~= Seq::<usize>::empty());
                assert(result@ + post_pending(nv, rk, stack@) =~= post_walk(nv, rk, root as int));
                assert forall|k: int| 0 <= k < stack@.len() implies {
                    let (u, j) = #[trigger] stack@[k];
                    &&& w.contains(u as int)
                    &&& u < nv.len()
                    &&& j <= nv[u as int].children.len()
                } by {
                    assert(stack@[k] == before[k]);
                }
            }
        }
    }
    result
}

/// The nodes of the subtree of `root` in pre-order. What `root` reaches
/// must be acyclic ([`acyclic_from`]), as in every built list; the rest of
/// the list is not read.
pub fn preorder(nodes: &[Node], root: usize) -> (order: Vec<usize>)
    requires
        root < nodes@.len(),
        acyclic_from(nodes_view(nodes@), root as int),
    ensures
        order@ == preorder_of(nodes_view(nodes@), root as int),
{
    let ghost nv = nodes_view(nodes@);
    let ghost w = walk_frame(nv, root as int).0;
    let ghost rk = walk_frame(nv, root as int).1;
    let mut result: Vec<usize> = Vec::new();
    let mut stack: Vec<usize> = Vec::new();
    stack.push(root);
    proof {
        assert(ranked(nv, w, rk) && w.contains(root as int));
        assert(stack@.drop_last() =~= Seq::<usize>::empty());
        assert(pre_pending(nv, rk, stack@) == pre_walk(nv, rk, root as int) + pre_pending(nv, rk, stack@.drop_last()));
        assert(result@ + pre_pending(nv, rk, stack@) =~= pre_walk(nv, rk, root as int));
    }
    while stack.len() > 0
        invariant
            nv == nodes_view(nodes@),
            nv.len() == nodes@.len(),
            ranked(nv, w, rk),
            rk == walk_frame(nv, root as int).1,
            root < nv.len(),
            forall|k: int| 0 <= k < stack@.len() ==> #[trigger] stack@[k] < nv.len() && w.contains(stack@[k] as int),
            result@ + pre_pending(nv, rk, stack@) == pre_walk(nv, rk, root as int),
        decreases pre_walk(nv, rk, root as int).len() - result@.len(),
    {
        let ghost before = stack@;
        let v = stack.pop().unwrap();
        proof {
            assert(before.drop_last() =~= stack@);
            assert(before.last() == v);
            assert(before[before.len() - 1] == v);
        }
        let ghost rest = stack@;
        result.push(v);
        let ghost cs = nv[v as int].children;
        let n = nodes[v].children.len();
        proof {
            assert(cs == nodes@[v as int].children@);
            assert(cs.skip(n as int) =~= Seq::<usize>::empty());
            assert(pre_walk(nv, rk, v as int) == seq![v] + pre_walk_forest(nv, rk, cs, v as int));
            assert(cs.skip(0) =~= cs);
            assert(result@ + pre_walk_forest(nv, rk, cs.skip(0), v as int) + pre_pending(nv, rk, rest)
                =~= pre_walk(nv, rk, root as int));
        }
        let mut j: usize = n;
        while j > 0
            invariant
                nv == nodes_view(nodes@),
                ranked(nv, w, rk),
                w.contains(v as int),
                v < nv.len(),
                cs == nv[v as int].children,
                n == cs.len(),
                j <= n,
                forall|k: int| 0 <= k < stack@.len() ==> #[trigger] stack@[k] < nv.len() && w.contains(stack@[k] as int),
                pre_pending(nv, rk, stack@) == pre_walk_forest(nv, rk, cs.skip(j as int), v as int) + pre_pending(nv, rk, rest),
            decreases j,
        {
            let ghost prev = stack@;
            let c = nodes[v].children[j - 1];
            stack.push(c);
            proof {
                assert(cs[j - 1] == c);
                assert(c < nv.len() && rk(c as int) < rk(v as int) && w.contains(c as int));
                let tail = cs.skip(j - 1);
                assert(tail.drop_first() =~= cs.skip(j as int));
                assert(tail[0] == c);
                assert(pre_walk_forest(nv, rk, tail, v as int) == pre_walk(nv, rk, c as int) + pre_walk_forest(nv, rk, cs.skip(j as int), v as int));
                assert(stack@.drop_last() =~= prev);
                assert(stack@.last() == c);
                assert(pre_pending(nv, rk, stack@) == pre_walk(nv, rk, c as int) + pre_pending(nv, rk, prev));
                assert(pre_pending(nv, rk, stack@) =~= pre_walk_forest(nv, rk, tail, v as int) + pre_pending(nv, rk, rest));
                assert forall|k: int| 0 <= k < stack@.len() implies #[trigger] stack@[k] < nv.len() && w.contains(stack@[k] as int) by {
                    if k < prev.len() {
                        assert(stack@[k] == prev[k]);
                    }
                }
            }
            j = j - 1;
        }
        proof {
            assert(result@ + pre_pending(nv, rk, stack@) =~= pre_walk(nv, rk, root as int));
        }
    }
    proof {
        assert(stack@ =~= Seq::<usize>::empty());
        assert(result@ =~= pre_walk(nv, rk, root as int));
    }
    result
}

/// `nv` with every children list reversed.
pub open spec fn mirror(nv: Seq<NodeView>) -> Seq<NodeView> {
    nv.map_values(|n: NodeView| NodeView { children: n.children.reverse(), ..n })
}

proof fn lemma_reverse_add<A>(a: Seq<A>, b: Seq<A>)
    ensures
        (a + b).reverse() == b.reverse() + a.reverse(),
{
    assert((a + b).reverse() =~= b.reverse() + a.reverse());
}

/// The pre-order walk does not depend on which closed set and rank it
/// follows.
proof fn lemma_pre_walk_rank(
    nv: Seq<NodeView>,
    w1: Set<int>,
    r1: spec_fn(int) -> nat,
    w2: Set<int>,
    r2: spec_fn(int) -> nat,
    v: int,
)
    requires
        ranked(nv, w1, r1),
        ranked(nv, w2, r2),
        w1.contains(v),
        w2.contains(v),
    ensures
        pre_walk(nv, r1, v) == pre_walk(nv, r2, v),
    decreases r1(v), nv[v].children.len() + 1,
{
    lemma_children_ranked(nv, w1, r1, v);
    lemma_children_ranked(nv, w2, r2, v);
    lemma_pre_walk_forest_rank(nv, w1, r1, w2, r2, nv[v].children, v);
}

proof fn lemma_pre_walk_forest_rank(
    nv: Seq<NodeView>,
    w1: Set<int>,
    r1: spec_fn(int) -> nat,
    w2: Set<int>,
    r2: spec_fn(int) -> nat,
    cs: Seq<usize>,
    v: int,
)
    requires
        ranked(nv, w1, r1),
        ranked(nv, w2, r2),
        ranked_below(nv, w1, r1, cs, v),
        ranked_below(nv, w2, r2, cs, v),
    ensures
        pre_walk_forest(nv, r1, cs, v) == pre_walk_forest(nv, r2, cs, v),
    decreases r1(v), cs.len(),
{
    if cs.len() > 0 {
        assert(cs[0] < nv.len() && r1(cs[0] as int) < r1(v) && r2(cs[0] as int) < r2(v));
        assert(w1.contains(cs[0] as int) && w2.contains(cs[0] as int));
        lemma_pre_walk_rank(nv, w1, r1, w2, r2, cs[0] as int);
        lemma_ranked_below_tail(nv, w1, r1, cs, v);
        lemma_ranked_below_tail(nv, w2, r2, cs, v);
        lemma_pre_walk_forest_rank(nv, w1, r1, w2, r2, cs.drop_first(), v);
    }
}

proof fn lemma_post_walk_forest_last(nv: Seq<NodeView>, within: Set<int>, rank: spec_fn(int) -> nat, cs: Seq<usize>, v: int)
    requires
        cs.len() > 0,
        ranked_below(nv, within, rank, cs, v),
    ensures
        post_walk_forest(nv, rank, cs, v) == post_walk_forest(nv, rank, cs.drop_last(), v) + post_walk(
            nv,
            rank,
            cs.last() as int,
        ),
    decreases cs.len(),
{
    assert(cs[0] < nv.len() && rank(cs[0] as int) < rank(v));
    if cs.len() == 1 {
        assert(cs.drop_first().len() == 0);
        assert(cs.drop_last().len() == 0);
        assert(post_walk_forest(nv, rank, cs.drop_first(), v) == Seq::<usize>::empty());
        assert(post_walk_forest(nv, rank, cs.drop_last(), v) == Seq::<usize>::empty());
        assert(cs.last() == cs[0]);
        assert(post_walk_forest(nv, rank, cs, v) =~= post_walk_forest(nv, rank, cs.drop_last(), v)
            + post_walk(nv, rank, cs.last() as int));
    } else {
        let tail = cs.drop_first();
        lemma_ranked_below_tail(nv, within, rank, cs, v);
        lemma_post_walk_forest_last(nv, within, rank, tail, v);
        assert(tail.drop_last() =~= cs.drop_last().drop_first());
        assert(tail.last() == cs.last());
        assert(cs.drop_last()[0] == cs[0]);
        assert(post_walk_forest(nv, rank, cs.drop_last(), v) == post_walk(nv, rank, cs[0] as int)
            + post_walk_forest(nv, rank, cs.drop_last().drop_first(), v));
        assert(post_walk_forest(nv, rank, cs, v) =~= post_walk_forest(nv, rank, cs.drop_last(), v)
            + post_walk(nv, rank, cs.last() as int));
    }
}

proof fn lemma_mirror_ranked(nv: Seq<NodeView>, within: Set<int>, rank: spec_fn(int) -> nat)
    requires
        ranked(nv, within, rank),
    ensures
        ranked(mirror(nv), within, rank),
{
    let m = mirror(nv);
    assert forall|v: int| #[trigger] within.contains(v) implies 0 <= v < m.len() by {}
    assert forall|v: int, k: int| within.contains(v) && 0 <= k < m[v].children.len() implies {
        &&& within.contains(#[trigger] m[v].children[k] as int)
        &&& rank(m[v].children[k] as int) < rank(v)
    } by {
        let cs = nv[v].children;
        assert(m[v].children == cs.reverse());
        assert(m[v].children[k] == cs[cs.len() - 1 - k]);
        assert(within.contains(nv[v].children[cs.len() - 1 - k] as int));
    }
}

proof fn lemma_mirror_walk(nv: Seq<NodeView>, within: Set<int>, rank: spec_fn(int) -> nat, v: int)
    requires
        ranked(nv, within, rank),
        within.contains(v),
    ensures
        post_walk(nv, rank, v) == pre_walk(mirror(nv), rank, v).reverse(),
    decreases rank(v), nv[v].children.len() + 1,
{
    let m = mirror(nv);
    lemma_children_ranked(nv, within, rank, v);
    let cs = nv[v].children;
    assert(m[v].children == cs.reverse());
    lemma_mirror_walk_forest(nv, within, rank, cs, v);
    lemma_reverse_add(seq![v as usize], pre_walk_forest(m, rank, cs.reverse(), v));
    assert(seq![v as usize].reverse() =~= seq![v as usize]);
    assert(post_walk(nv, rank, v) =~= pre_walk(m, rank, v).reverse());
}

proof fn lemma_mirror_walk_forest(nv: Seq<NodeView>, within: Set<int>, rank: spec_fn(int) -> nat, cs: Seq<usize>, v: int)
    requires
        ranked(nv, within, rank),
        ranked_below(nv, within, rank, cs, v),
    ensures
        post_walk_forest(nv, rank, cs, v) == pre_walk_forest(mirror(nv), rank, cs.reverse(), v).reverse(),
    decreases rank(v), cs.len(),
{
    let m = mirror(nv);
    if cs.len() == 0 {
        assert(cs.reverse() =~= Seq::<usize>::empty());
        assert(pre_walk_forest(m, rank, cs.reverse(), v).reverse() =~= Seq::<usize>::empty());
    } else {
        let init = cs.drop_last();
        let last = cs.last();
        assert(last == cs[cs.len() - 1]);
        assert(last < nv.len() && rank(last as int) < rank(v) && within.contains(last as int));
        lemma_ranked_below_tail(nv, within, rank, cs, v);
        lemma_post_walk_forest_last(nv, within, rank, cs, v);
        lemma_mirror_walk_forest(nv, within, rank, init, v);
        lemma_mirror_walk(nv, within, rank, last as int);
        let r = cs.reverse();
        assert(r[0] == last);
        assert(r.drop_first() =~= init.reverse());
        assert(m.len() == nv.len());
        assert(pre_walk_forest(m, rank, r, v) == pre_walk(m, rank, last as int) + pre_walk_forest(
            m,
            rank,
            init.reverse(),
            v,
        ));
        lemma_reverse_add(pre_walk(m, rank, last as int), pre_walk_forest(m, rank, init.reverse(), v));
    }
}

/// Mirror law: the post-order of a subtree is the reversed pre-order of
/// the same subtree in the list with every children list reversed.
pub proof fn lemma_post_mirror(nv: Seq<NodeView>, v: int)
    requires
        acyclic_from(nv, v),
    ensures
        acyclic_from(mirror(nv), v),
        postorder_of(nv, v) == preorder_of(mirror(nv), v).reverse(),
{
    let (w, rank) = walk_frame(nv, v);
    let m = mirror(nv);
    lemma_mirror_ranked(nv, w, rank);
    assert(w.contains(v) && ranked(m, w, rank));
    assert(acyclic_from(m, v));
    let (w2, r2) = walk_frame(m, v);
    lemma_mirror_walk(nv, w, rank, v);
    lemma_pre_walk_rank(m, w, rank, w2, r2, v);
}

/// Number of leaf slots under `v`: one for a leaf, the sum over the
/// children otherwise.
pub open spec fn leaves(nv: Seq<NodeView>, v: int) -> nat
    decreases nv.len() - v, nv[v].children.len() + 1,
{
    if 0 <= v < nv.len() {
        if nv[v].children.len() == 0 {
            1
        } else {
            leaves_sum(nv, nv[v].children, v)
        }
    } else {
        0
    }
}

/// Leaf slots under the nodes `cs`, children of `v`.
pub open spec fn leaves_sum(nv: Seq<NodeView>, cs: Seq<usize>, v: int) -> nat
    decreases nv.len() - v, cs.len(),
{
    if cs.len() > 0 && 0 <= v < cs.last() < nv.len() {
        leaves_sum(nv, cs.drop_last(), v) + leaves(nv, cs.last() as int)
    } else {
        0
    }
}

/// Every element of `cs` is a valid index greater than `v`.
pub open spec fn valid_below(nv: Seq<NodeView>, cs: Seq<usize>, v: int) -> bool {
    forall|m: int| 0 <= m < cs.len() ==> v < #[trigger] cs[m] < nv.len()
}

proof fn lemma_children_valid(nv: Seq<NodeView>, v: int)
    requires
        links_ok(nv, 0),
        0 <= v < nv.len(),
    ensures
        valid_below(nv, nv[v].children, v),
{
    assert forall|m: int| 0 <= m < nv[v].children.len() implies v < #[trigger] nv[v].children[m] < nv.len() by {
        assert(0 + v < nv[v].children[m] < 0 + nv.len());
    }
}

/// Summing from the front gives the same as summing from the back.
proof fn lemma_leaves_sum_first(nv: Seq<NodeView>, cs: Seq<usize>, v: int)
    requires
        cs.len() > 0,
        0 <= v,
        valid_below(nv, cs, v),
    ensures
        leaves_sum(nv, cs, v) == leaves(nv, cs[0] as int) + leaves_sum(nv, cs.drop_first(), v),
    decreases cs.len(),
{
    assert(v < cs[cs.len() - 1] < nv.len());
    if cs.len() == 1 {
        assert(cs.drop_last().len() == 0);
        assert(cs.drop_first().len() == 0);
        assert(cs.last() == cs[0]);
        assert(leaves_sum(nv, cs, v) == leaves_sum(nv, cs.drop_last(), v) + leaves(nv, cs.last() as int));
    } else {
        let init = cs.drop_last();
        assert(valid_below(nv, init, v));
        lemma_leaves_sum_first(nv, init, v);
        assert(init.drop_first() =~= cs.drop_first().drop_last());
        assert(cs.drop_first().last() == cs.last());
        assert(cs.last() == cs[cs.len() - 1]);
        assert(cs.drop_first().last() == cs.drop_first()[cs.len() - 2]);
        assert(leaves_sum(nv, cs, v) == leaves_sum(nv, init, v) + leaves(nv, cs.last() as int));
        assert(leaves_sum(nv, cs.drop_first(), v) == leaves_sum(nv, cs.drop_first().drop_last(), v)
            + leaves(nv, cs.last() as int));
    }
}

/// Prefix sums grow with the prefix, up to the whole sum.
proof fn lemma_leaves_sum_take(nv: Seq<NodeView>, cs: Seq<usize>, v: int, i: int)
    requires
        0 <= i <= cs.len(),
        0 <= v,
        valid_below(nv, cs, v),
    ensures
        leaves_sum(nv, cs.take(i), v) <= leaves_sum(nv, cs, v),
        i < cs.len() ==> leaves_sum(nv, cs.take(i + 1), v) == leaves_sum(nv, cs.take(i), v) + leaves(nv, cs[i] as int),
    decreases cs.len() - i,
{
    if i < cs.len() {
        assert(cs.take(i + 1).drop_last() =~= cs.take(i));
        assert(cs.take(i + 1).last() == cs[i]);
        lemma_leaves_sum_take(nv, cs, v, i + 1);
    } else {
        assert(cs.take(i) =~= cs);
    }
}

/// Slot law: a node has at least one leaf slot and no more slots than
/// nodes in its subtree.
pub proof fn lemma_leaves_bounds(nv: Seq<NodeView>, v: int)
    requires
        links_ok(nv, 0),
        0 <= v < nv.len(),
    ensures
        1 <= leaves(nv, v) <= pre_tree(nv, v).len(),
    decreases nv.len() - v, nv[v].children.len() + 1,
{
    lemma_children_valid(nv, v);
    if nv[v].children.len() > 0 {
        lemma_leaves_sum_bounds(nv, nv[v].children, v);
    }
}

proof fn lemma_leaves_sum_bounds(nv: Seq<NodeView>, cs: Seq<usize>, v: int)
    requires
        links_ok(nv, 0),
        0 <= v < nv.len(),
        valid_below(nv, cs, v),
    ensures
        cs.len() <= leaves_sum(nv, cs, v) <= pre_forest(nv, cs, v).len(),
    decreases nv.len() - v, cs.len(),
{
    if cs.len() > 0 {
        lemma_leaves_sum_first(nv, cs, v);
        let rest = cs.drop_first();
        assert(valid_below(nv, rest, v));
        lemma_leaves_bounds(nv, cs[0] as int);
        lemma_leaves_sum_bounds(nv, rest, v);
    }
}

/// Node `order[k]` is a child of some earlier node of `order`.
pub open spec fn has_parent_before(nv: Seq<NodeView>, order: Seq<usize>, k: int) -> bool {
    exists|j: int| 0 <= j < k && #[trigger] is_child(nv, order[j], order[k])
}

/// Every node of `order` but the first is a child of an earlier one.
pub open spec fn parents_first(nv: Seq<NodeView>, order: Seq<usize>) -> bool {
    forall|k: int| 0 < k < order.len() ==> #[trigger] has_parent_before(nv, order, k)
}

/// `c` is listed among the children of `p`.
pub open spec fn is_child(nv: Seq<NodeView>, p: usize, c: usize) -> bool {
    nv[p as int].children.contains(c)
}

proof fn lemma_pre_forest_mem(nv: Seq<NodeView>, cs: Seq<usize>, v: int)
    requires
        links_ok(nv, 0),
        0 <= v < nv.len(),
        valid_below(nv, cs, v),
    ensures
        forall|x: usize| #[trigger] pre_forest(nv, cs, v).contains(x) <==> exists|m: int|
            0 <= m < cs.len() && #[trigger] pre_tree(nv, cs[m] as int).contains(x),
        forall|m: int| 0 <= m < cs.len() ==> #[trigger] pre_tree(nv, cs[m] as int).len() <= pre_forest(nv, cs, v).len(),
    decreases cs.len(),
{
    if cs.len() > 0 {
        let rest = cs.drop_first();
        assert(valid_below(nv, rest, v));
        lemma_pre_forest_mem(nv, rest, v);
        assert(v < cs[0] < nv.len());
        let t = pre_tree(nv, cs[0] as int);
        let f = pre_forest(nv, rest, v);
        assert(pre_forest(nv, cs, v) == t + f);
        assert forall|x: usize| #[trigger] pre_forest(nv, cs, v).contains(x) <==> exists|m: int|
            0 <= m < cs.len() && #[trigger] pre_tree(nv, cs[m] as int).contains(x) by {
            if pre_forest(nv, cs, v).contains(x) {
                let k = choose|k: int| 0 <= k < (t + f).len() && (t + f)[k] == x;
                if k < t.len() {
                    assert(t[k] == x);
                    assert(pre_tree(nv, cs[0] as int).contains(x));
                } else {
                    assert(f[k - t.len()] == x);
                    assert(f.contains(x));
                    let m = choose|m: int| 0 <= m < rest.len() && #[trigger] pre_tree(nv, rest[m] as int).contains(x);
                    assert(rest[m] == cs[m + 1]);
                    assert(pre_tree(nv, cs[m + 1] as int).contains(x));
                }
            }
            if exists|m: int| 0 <= m < cs.len() && #[trigger] pre_tree(nv, cs[m] as int).contains(x) {
                let m = choose|m: int| 0 <= m < cs.len() && #[trigger] pre_tree(nv, cs[m] as int).contains(x);
                if m == 0 {
                    let k = choose|k: int| 0 <= k < t.len() && t[k] == x;
                    assert((t + f)[k] == x);
                } else {
                    assert(rest[m - 1] == cs[m]);
                    assert(pre_tree(nv, rest[m - 1] as int).contains(x));
                    assert(f.contains(x));
                    let k = choose|k: int| 0 <= k < f.len() && f[k] == x;
                    assert((t + f)[k + t.len()] == x);
                }
            }
        }
        assert forall|m: int| 0 <= m < cs.len() implies #[trigger] pre_tree(nv, cs[m] as int).len() <= pre_forest(nv, cs, v).len() by {
            if m > 0 {
                assert(rest[m - 1] == cs[m]);
                assert(pre_tree(nv, rest[m - 1] as int).len() <= f.len());
            }
        }
    }
}

/// The first element of the pre-order of `v` is `v`.
proof fn lemma_pre_head(nv: Seq<NodeView>, v: int)
    requires
        0 <= v < nv.len(),
    ensures
        pre_tree(nv, v).len() >= 1,
        pre_tree(nv, v)[0] == v as usize,
        pre_tree(nv, v).contains(v as usize),
{
    assert(pre_tree(nv, v)[0] == v as usize);
}

/// A child of a node in the subtree of `r` is in the subtree of `r` too,
/// and the subtree of a node in the subtree of `r` is no larger.
proof fn lemma_pre_child(nv: Seq<NodeView>, r: int, p: usize, u: usize)
    requires
        links_ok(nv, 0),
        nv.len() <= usize::MAX,
        0 <= r < nv.len(),
        pre_tree(nv, r).contains(p),
        p < nv.len(),
        nv[p as int].children.contains(u),
    ensures
        pre_tree(nv, r).contains(u),
        pre_tree(nv, p as int).len() <= pre_tree(nv, r).len(),
    decreases nv.len() - r,
{
    let cs = nv[r].children;
    lemma_children_valid(nv, r);
    lemma_pre_forest_mem(nv, cs, r);
    let f = pre_forest(nv, cs, r);
    let t = pre_tree(nv, r);
    assert(t == seq![r as usize] + f);
    if p as int == r {
        let m = choose|m: int| 0 <= m < cs.len() && cs[m] == u;
        lemma_pre_head(nv, cs[m] as int);
        assert(pre_tree(nv, cs[m] as int).contains(u));
        assert(f.contains(u));
        let k = choose|k: int| 0 <= k < f.len() && f[k] == u;
        assert(t[k + 1] == u);
    } else {
        let k = choose|k: int| 0 <= k < t.len() && t[k] == p;
        assert(t[0] == r as usize);
        assert(k > 0);
        assert(f[k - 1] == p);
        assert(f.contains(p));
        let m = choose|m: int| 0 <= m < cs.len() && #[trigger] pre_tree(nv, cs[m] as int).contains(p);
        lemma_pre_child(nv, cs[m] as int, p, u);
        assert(f.contains(u));
        let k2 = choose|k2: int| 0 <= k2 < f.len() && f[k2] == u;
        assert(t[k2 + 1] == u);
    }
}

/// Pre-order law: in the pre-order of a subtree every node after the first
/// is a child of an earlier node, and every node listed is a valid index.
pub proof fn lemma_pre_parent_earlier(nv: Seq<NodeView>, r: int)
    requires
        links_ok(nv, 0),
        0 <= r < nv.len(),
        nv.len() <= usize::MAX,
    ensures
        forall|k: int| 0 <= k < pre_tree(nv, r).len() ==> #[trigger] pre_tree(nv, r)[k] < nv.len(),
        parents_first(nv, pre_tree(nv, r)),
    decreases nv.len() - r, 1int,
{
    let cs = nv[r].children;
    lemma_children_valid(nv, r);
    lemma_pre_forest_parent_earlier(nv, cs, r);
    let f = pre_forest(nv, cs, r);
    assert(pre_tree(nv, r) == seq![r as usize] + f);
    assert forall|k: int| 0 <= k < pre_tree(nv, r).len() implies #[trigger] pre_tree(nv, r)[k] < nv.len() by {
        if k > 0 {
            assert(pre_tree(nv, r)[k] == f[k - 1]);
        }
    }
    let pt = pre_tree(nv, r);
    assert forall|k: int| 0 < k < pt.len() implies #[trigger] has_parent_before(nv, pt, k) by {
        assert(pre_tree(nv, r)[k] == f[k - 1]);
        if cs.contains(f[k - 1]) {
            assert(pre_tree(nv, r)[0] == r as usize);
            assert(is_child(nv, pt[0], pt[k]));
        } else {
            assert(has_parent_before(nv, f, k - 1));
            let j = choose|j: int| 0 <= j < k - 1 && #[trigger] is_child(nv, f[j], f[k - 1]);
            assert(pre_tree(nv, r)[j + 1] == f[j]);
            assert(is_child(nv, pt[j + 1], pt[k]));
        }
    }
}

proof fn lemma_pre_forest_parent_earlier(nv: Seq<NodeView>, cs: Seq<usize>, v: int)
    requires
        links_ok(nv, 0),
        nv.len() <= usize::MAX,
        0 <= v < nv.len(),
        valid_below(nv, cs, v),
    ensures
        forall|k: int| 0 <= k < pre_forest(nv, cs, v).len() ==> #[trigger] pre_forest(nv, cs, v)[k] < nv.len(),
        forall|k: int| 0 <= k < pre_forest(nv, cs, v).len() ==> cs.contains(pre_forest(nv, cs, v)[k])
            || #[trigger] has_parent_before(nv, pre_forest(nv, cs, v), k),
    decreases nv.len() - v, 0int, cs.len(),
{
    if cs.len() > 0 {
        let rest = cs.drop_first();
        assert(valid_below(nv, rest, v));
        assert(v < cs[0] < nv.len());
        lemma_pre_parent_earlier(nv, cs[0] as int);
        lemma_pre_forest_parent_earlier(nv, rest, v);
        let t = pre_tree(nv, cs[0] as int);
        let f = pre_forest(nv, rest, v);
        let all = pre_forest(nv, cs, v);
        assert(all == t + f);
        lemma_pre_head(nv, cs[0] as int);
        assert forall|k: int| 0 <= k < all.len() implies #[trigger] all[k] < nv.len() by {
            if k < t.len() {
                assert(all[k] == t[k]);
            } else {
                assert(all[k] == f[k - t.len()]);
            }
        }
        assert forall|k: int| 0 <= k < all.len() implies cs.contains(all[k])
            || #[trigger] has_parent_before(nv, all, k) by {
            if k == 0 {
                assert(all[0] == cs[0]);
            } else if k < t.len() {
                assert(all[k] == t[k]);
                assert(has_parent_before(nv, t, k));
                let j = choose|j: int| 0 <= j < k && #[trigger] is_child(nv, t[j], t[k]);
                assert(all[j] == t[j]);
                assert(is_child(nv, all[j], all[k]));
            } else {
                let k2 = k - t.len();
                assert(all[k] == f[k2]);
                if rest.contains(f[k2]) {
                    let m = choose|m: int| 0 <= m < rest.len() && rest[m] == f[k2];
                    assert(cs[m + 1] == rest[m]);
                } else {
                    assert(has_parent_before(nv, f, k2));
                    let j = choose|j: int| 0 <= j < k2 && #[trigger] is_child(nv, f[j], f[k2]);
                    assert(all[j + t.len()] == f[j]);
                    assert(is_child(nv, all[j + t.len()], all[k]));
                }
            }
        }
    }
}

proof fn lemma_post_forest_mem(nv: Seq<NodeView>, cs: Seq<usize>, v: int)
    requires
        links_ok(nv, 0),
        0 <= v < nv.len(),
        valid_below(nv, cs, v),
    ensures
        forall|x: usize| #[trigger] post_forest(nv, cs, v).contains(x) <==> exists|m: int|
            0 <= m < cs.len() && #[trigger] post_tree(nv, cs[m] as int).contains(x),
    decreases cs.len(),
{
    if cs.len() > 0 {
        let rest = cs.drop_first();
        assert(valid_below(nv, rest, v));
        lemma_post_forest_mem(nv, rest, v);
        assert(v < cs[0] < nv.len());
        let t = post_tree(nv, cs[0] as int);
        let f = post_forest(nv, rest, v);
        assert(post_forest(nv, cs, v) == t + f);
        assert forall|x: usize| #[trigger] post_forest(nv, cs, v).contains(x) <==> exists|m: int|
            0 <= m < cs.len() && #[trigger] post_tree(nv, cs[m] as int).contains(x) by {
            if post_forest(nv, cs, v).contains(x) {
                let k = choose|k: int| 0 <= k < (t + f).len() && (t + f)[k] == x;
                if k < t.len() {
                    assert(t[k] == x);
                    assert(post_tree(nv, cs[0] as int).contains(x));
                } else {
                    assert(f[k - t.len()] == x);
                    assert(f.contains(x));
                    let m = choose|m: int| 0 <= m < rest.len() && #[trigger] post_tree(nv, rest[m] as int).contains(x);
                    assert(rest[m] == cs[m + 1]);
                    assert(post_tree(nv, cs[m + 1] as int).contains(x));
                }
            }
            if exists|m: int| 0 <= m < cs.len() && #[trigger] post_tree(nv, cs[m] as int).contains(x) {
                let m = choose|m: int| 0 <= m < cs.len() && #[trigger] post_tree(nv, cs[m] as int).contains(x);
                if m == 0 {
                    let k = choose|k: int| 0 <= k < t.len() && t[k] == x;
                    assert((t + f)[k] == x);
                } else {
                    assert(rest[m - 1] == cs[m]);
                    assert(post_tree(nv, rest[m - 1] as int).contains(x));
                    assert(f.contains(x));
                    let k = choose|k: int| 0 <= k < f.len() && f[k] == x;
                    assert((t + f)[k + t.len()] == x);
                }
            }
        }
    }
}

/// The last element of the post-order of `v` is `v`.
proof fn lemma_post_last(nv: Seq<NodeView>, v: int)
    requires
        0 <= v < nv.len(),
    ensures
        post_tree(nv, v).len() >= 1,
        post_tree(nv, v).last() == v as usize,
        post_tree(nv, v).contains(v as usize),
{
    assert(post_tree(nv, v)[post_tree(nv, v).len() - 1] == v as usize);
}

/// A child of a node in the subtree of `r` is in its post-order too.
proof fn lemma_post_child(nv: Seq<NodeView>, r: int, p: usize, u: usize)
    requires
        links_ok(nv, 0),
        nv.len() <= usize::MAX,
        0 <= r < nv.len(),
        post_tree(nv, r).contains(p),
        p < nv.len(),
        nv[p as int].children.contains(u),
    ensures
        post_tree(nv, r).contains(u),
    decreases nv.len() - r,
{
    let cs = nv[r].children;
    lemma_children_valid(nv, r);
    lemma_post_forest_mem(nv, cs, r);
    let f = post_forest(nv, cs, r);
    let t = post_tree(nv, r);
    assert(t == f.push(r as usize));
    if p as int == r {
        let m = choose|m: int| 0 <= m < cs.len() && cs[m] == u;
        lemma_post_last(nv, cs[m] as int);
        assert(post_tree(nv, cs[m] as int).contains(u));
        assert(f.contains(u));
        let k = choose|k: int| 0 <= k < f.len() && f[k] == u;
        assert(t[k] == u);
    } else {
        let k = choose|k: int| 0 <= k < t.len() && t[k] == p;
        assert(t[t.len() - 1] == r as usize);
        assert(k < t.len() - 1);
        assert(f[k] == p);
        assert(f.contains(p));
        let m = choose|m: int| 0 <= m < cs.len() && #[trigger] post_tree(nv, cs[m] as int).contains(p);
        lemma_post_child(nv, cs[m] as int, p, u);
        assert(f.contains(u));
        let k2 = choose|k2: int| 0 <= k2 < f.len() && f[k2] == u;
        assert(t[k2] == u);
    }
}

/// The children of `order[k]` all occur before position `k`.
pub open spec fn children_before(nv: Seq<NodeView>, order: Seq<usize>, k: int) -> bool {
    forall|m: int| 0 <= m < nv[order[k] as int].children.len() ==> order.take(k).contains(
        #[trigger] nv[order[k] as int].children[m],
    )
}

/// Every node of `order` comes after its children.
pub open spec fn children_first(nv: Seq<NodeView>, order: Seq<usize>) -> bool {
    forall|k: int| 0 <= k < order.len() ==> #[trigger] children_before(nv, order, k)
}

/// Post-order law: in the post-order of a subtree every node comes after
/// all of its children, and every node listed is a valid index.
pub proof fn lemma_post_children_earlier(nv: Seq<NodeView>, r: int)
    requires
        links_ok(nv, 0),
        nv.len() <= usize::MAX,
        0 <= r < nv.len(),
    ensures
        forall|k: int| 0 <= k < post_tree(nv, r).len() ==> #[trigger] post_tree(nv, r)[k] < nv.len(),
        children_first(nv, post_tree(nv, r)),
    decreases nv.len() - r, 1int,
{
    let cs = nv[r].children;
    lemma_children_valid(nv, r);
    lemma_post_forest_children_earlier(nv, cs, r);
    let f = post_forest(nv, cs, r);
    let pt = post_tree(nv, r);
    assert(pt == f.push(r as usize));
    assert forall|k: int| 0 <= k < pt.len() implies #[trigger] pt[k] < nv.len() by {
        if k < f.len() {
            assert(pt[k] == f[k]);
        }
    }
    assert forall|k: int| 0 <= k < pt.len() implies #[trigger] children_before(nv, pt, k) by {
        if k < f.len() {
            assert(pt[k] == f[k]);
            assert(children_before(nv, f, k));
            assert forall|m: int| 0 <= m < nv[pt[k] as int].children.len() implies pt.take(k).contains(
                #[trigger] nv[pt[k] as int].children[m],
            ) by {
                let c = nv[f[k] as int].children[m];
                assert(f.take(k).contains(c));
                let j = choose|j: int| 0 <= j < k && f.take(k)[j] == c;
                assert(f[j] == c);
                assert(pt[j] == f[j]);
                assert(pt[j] == nv[pt[k] as int].children[m]);
                assert(pt.take(k)[j] == pt[j]);
            }
            assert(children_before(nv, pt, k));
        } else {
            assert(pt[k] == r as usize);
            assert forall|m: int| 0 <= m < nv[pt[k] as int].children.len() implies pt.take(k).contains(
                #[trigger] nv[pt[k] as int].children[m],
            ) by {
                assert(f.contains(cs[m]));
                let j = choose|j: int| 0 <= j < f.len() && f[j] == cs[m];
                assert(pt[j] == f[j]);
                assert(pt[j] == nv[pt[k] as int].children[m]);
                assert(pt.take(k)[j] == pt[j]);
            }
            assert(children_before(nv, pt, k));
        }
    }
}

proof fn lemma_post_forest_children_earlier(nv: Seq<NodeView>, cs: Seq<usize>, v: int)
    requires
        links_ok(nv, 0),
        nv.len() <= usize::MAX,
        0 <= v < nv.len(),
        valid_below(nv, cs, v),
    ensures
        forall|k: int| 0 <= k < post_forest(nv, cs, v).len() ==> #[trigger] post_forest(nv, cs, v)[k] < nv.len(),
        children_first(nv, post_forest(nv, cs, v)),
        forall|m: int| 0 <= m < cs.len() ==> post_forest(nv, cs, v).contains(#[trigger] cs[m]),
    decreases nv.len() - v, 0int, cs.len(),
{
    if cs.len() > 0 {
        let rest = cs.drop_first();
        assert(valid_below(nv, rest, v));
        assert(v < cs[0] < nv.len());
        lemma_post_children_earlier(nv, cs[0] as int);
        lemma_post_forest_children_earlier(nv, rest, v);
        lemma_post_last(nv, cs[0] as int);
        let t = post_tree(nv, cs[0] as int);
        let f = post_forest(nv, rest, v);
        let all = post_forest(nv, cs, v);
        assert(all == t + f);
        assert forall|k: int| 0 <= k < all.len() implies #[trigger] all[k] < nv.len() by {
            if k < t.len() {
                assert(all[k] == t[k]);
            } else {
                assert(all[k] == f[k - t.len()]);
            }
        }
        assert forall|k: int| 0 <= k < all.len() implies #[trigger] children_before(nv, all, k) by {
            if k < t.len() {
                assert(all[k] == t[k]);
                assert(children_before(nv, t, k));
                assert forall|m: int| 0 <= m < nv[all[k] as int].children.len() implies all.take(k).contains(
                #[trigger] nv[all[k] as int].children[m],
            ) by {
                    let c = nv[t[k] as int].children[m];
                    assert(t.take(k).contains(c));
                    let j = choose|j: int| 0 <= j < k && t.take(k)[j] == c;
                    assert(t[j] == c);
                    assert(all[j] == t[j]);
                    assert(all[j] == nv[all[k] as int].children[m]);
                    assert(all.take(k)[j] == all[j]);
                }
                assert(children_before(nv, all, k));
            } else {
                let k2 = k - t.len();
                assert(all[k] == f[k2]);
                assert(children_before(nv, f, k2));
                assert forall|m: int| 0 <= m < nv[all[k] as int].children.len() implies all.take(k).contains(
                #[trigger] nv[all[k] as int].children[m],
            ) by {
                    let c = nv[f[k2] as int].children[m];
                    assert(f.take(k2).contains(c));
                    let j = choose|j: int| 0 <= j < k2 && f.take(k2)[j] == c;
                    assert(f[j] == c);
                    assert(all[j + t.len()] == f[j]);
                    assert(all[j + t.len()] == nv[all[k] as int].children[m]);
                    assert(all.take(k)[j + t.len()] == all[j + t.len()]);
                }
                assert(children_before(nv, all, k));
            }
        }
        assert forall|m: int| 0 <= m < cs.len() implies all.contains(#[trigger] cs[m]) by {
            if m == 0 {
                assert(all[t.len() - 1] == t[t.len() - 1]);
            } else {
                assert(rest[m - 1] == cs[m]);
                assert(f.contains(rest[m - 1]));
                let j = choose|j: int| 0 <= j < f.len() && f[j] == rest[m - 1];
                assert(all[j + t.len()] == f[j]);
            }
        }
    }
}

/// Reachability law: in a well-formed node list every node is in the
/// subtree of node 0, so both its pre-order and its post-order list it.
pub proof fn lemma_reachable(nv: Seq<NodeView>, u: int)
    requires
        is_tree(nv),
        nv.len() <= usize::MAX,
        0 <= u < nv.len(),
    ensures
        pre_tree(nv, 0).contains(u as usize),
        post_tree(nv, 0).contains(u as usize),
    decreases u,
{
    if u == 0 {
        lemma_pre_head(nv, 0);
        lemma_post_last(nv, 0);
    } else {
        assert(crate::node::inner_parent(nv, 0, u));
        let p = nv[u].parent->0;
        lemma_reachable(nv, p as int);
        lemma_pre_child(nv, 0, p, u as usize);
        lemma_post_child(nv, 0, p, u as usize);
    }
}

/// Depth of `v`: 0 for a node without parent, one more than its
/// parent's otherwise.
pub open spec fn depth(nv: Seq<NodeView>, v: int) -> nat
    decreases v,
{
    if 0 <= v < nv.len() {
        match nv[v].parent {
            Some(p) => if p < v {
                depth(nv, p as int) + 1
            } else {
                0
            },
            None => 0,
        }
    } else {
        0
    }
}

/// Horizontal centre of `v`, in half leaf slots from the centre of the
/// root: a node without parent sits at 0; the `i`-th child of `p` starts
/// where the children before it end, counted from the left edge of `p`.
pub open spec fn x_offset(nv: Seq<NodeView>, v: int) -> int
    decreases v,
{
    if 0 <= v < nv.len() {
        match nv[v].parent {
            Some(p) => if p < v {
                let cs = nv[p as int].children;
                x_offset(nv, p as int) - leaves(nv, p as int) + 2 * leaves_sum(
                    nv,
                    cs.take(cs.index_of(v as usize)),
                    p as int,
                ) + leaves(nv, v)
            } else {
                0
            },
            None => 0,
        }
    } else {
        0
    }
}

/// Left edge of the span of `v`, in half leaf slots.
pub open spec fn left_edge(nv: Seq<NodeView>, v: int) -> int {
    x_offset(nv, v) - leaves(nv, v)
}

/// Right edge of the span of `v`, in half leaf slots.
pub open spec fn right_edge(nv: Seq<NodeView>, v: int) -> int {
    x_offset(nv, v) + leaves(nv, v)
}

proof fn lemma_index_of_child(nv: Seq<NodeView>, p: int, i: int)
    requires
        links_ok(nv, 0),
        0 <= p < nv.len(),
        0 <= i < nv[p].children.len(),
    ensures
        nv[p].children.index_of(nv[p].children[i]) == i,
{
    let cs = nv[p].children;
    assert(cs[i] == cs[i]);
    let k = cs.index_of(cs[i]);
    assert(0 <= k < cs.len() && cs[k] == cs[i]);
    if k < i {
        assert(cs[k] < cs[i]);
    } else if k > i {
        assert(cs[i] < cs[k]);
    }
}

/// Layout law: the children of a node tile its span from left to right.
/// The `i`-th child spans from the parent's left edge plus twice the leaf
/// slots of the children before it, for twice its own leaf slots; the first
/// child starts at the parent's left edge, each next child starts where the
/// one before ends, the last ends at the parent's right edge; and each
/// child lies one level below its parent.
pub proof fn lemma_children_tile(nv: Seq<NodeView>, p: int, i: int)
    requires
        is_tree(nv),
        nv.len() <= usize::MAX,
        0 <= p < nv.len(),
        0 <= i < nv[p].children.len(),
    ensures
        ({
            let cs = nv[p].children;
            let c = cs[i] as int;
            &&& left_edge(nv, c) == left_edge(nv, p) + 2 * leaves_sum(nv, cs.take(i), p)
            &&& right_edge(nv, c) == left_edge(nv, p) + 2 * leaves_sum(nv, cs.take(i + 1), p)
            &&& i == 0 ==> left_edge(nv, c) == left_edge(nv, p)
            &&& i + 1 < cs.len() ==> right_edge(nv, c) == left_edge(nv, cs[i + 1] as int)
            &&& i + 1 == cs.len() ==> right_edge(nv, c) == right_edge(nv, p)
            &&& depth(nv, c) == depth(nv, p) + 1
        }),
{
    let cs = nv[p].children;
    let c = cs[i] as int;
    lemma_children_valid(nv, p);
    assert(0 + p < cs[i] < nv.len());
    assert(nv[c].parent == Some(p as usize));
    lemma_index_of_child(nv, p, i);
    lemma_leaves_sum_take(nv, cs, p, i);
    assert(cs.take(0) =~= Seq::<usize>::empty());
    if i + 1 < cs.len() {
        assert(0 + p < cs[i + 1] < nv.len());
        assert(nv[cs[i + 1] as int].parent == Some(p as usize));
        lemma_index_of_child(nv, p, i + 1);
        lemma_leaves_sum_take(nv, cs, p, i + 1);
    }
    if i + 1 == cs.len() {
        assert(cs.take(i + 1) =~= cs);
    }
}

/// Span law: every span lies within the root's (its edges stay within the
/// root's leaf slot count on either side of the root's centre), and a
/// node's depth is at most its index.
pub proof fn lemma_span_bounds(nv: Seq<NodeView>, u: int)
    requires
        is_tree(nv),
        nv.len() <= usize::MAX,
        0 <= u < nv.len(),
    ensures
        -leaves(nv, 0) <= left_edge(nv, u),
        right_edge(nv, u) <= leaves(nv, 0),
        depth(nv, u) <= u,
    decreases u,
{
    if u > 0 {
        assert(crate::node::inner_parent(nv, 0, u));
        let p = nv[u].parent->0 as int;
        lemma_span_bounds(nv, p);
        let cs = nv[p].children;
        let i = cs.index_of(u as usize);
        assert(0 <= i < cs.len() && cs[i] == u as usize);
        lemma_children_tile(nv, p, i);
        lemma_leaves_sum_take(nv, cs, p, i);
        lemma_leaves_sum_take(nv, cs, p, i + 1);
        lemma_children_valid(nv, p);
        assert(cs.len() > 0);
        assert(leaves(nv, p) == leaves_sum(nv, cs, p));
    } else {
        assert(nv[0].parent is None);
    }
}

/// Position of a node on the layout grid: horizontal centre in half leaf
/// slots from the root's centre, and depth in levels.
#[derive(Debug)]
pub struct GridNode {
    pub x: i128,
    pub depth: usize,
}

/// Lays out a well-formed node list: leaves get one slot each, inner nodes
/// are centred over their children, children are placed left to right, and
/// each level sits one step below its parent.
pub fn grid_layout(nodes: &[Node]) -> (grid: Vec<GridNode>)
    requires
        is_tree(nodes_view(nodes@)),
    ensures
        grid@.len() == nodes@.len(),
        forall|v: int| 0 <= v < nodes@.len() ==> {
            &&& (#[trigger] grid@[v]).x == x_offset(nodes_view(nodes@), v)
            &&& grid@[v].depth == depth(nodes_view(nodes@), v)
        },
{
    let ghost nv = nodes_view(nodes@);
    let n = nodes.len();
    if n == 0 {
        return Vec::new();
    }
    let root: usize = 0;
    proof {
        assert(nodes@.len() <= usize::MAX);
        lemma_links_forward(nv);
        lemma_tree_walkable(nv);
    }
    let pre = preorder(nodes, root);
    let pre_len = pre.len();
    let post = postorder(nodes, root);
    proof {
        lemma_walks_forward(nv, walk_frame(nv, 0).0, walk_frame(nv, 0).1, 0);
        lemma_pre_parent_earlier(nv, 0);
        lemma_post_children_earlier(nv, 0);
    }
    let mut width: Vec<usize> = vec![0usize; n];
    let mut k: usize = 0;
    while k < post.len()
        invariant
            nv == nodes_view(nodes@),
            n == nv.len(),
            is_tree(nv),
            root == 0,
            post@ == post_tree(nv, 0),
            pre@ == pre_tree(nv, 0),
            pre_len == pre@.len(),
            forall|j: int| 0 <= j < post@.len() ==> #[trigger] post@[j] < nv.len(),
            children_first(nv, post@),
            width@.len() == n,
            0 <= k <= post@.len(),
            forall|j: int| 0 <= j < k ==> #[trigger] width@[post@[j] as int] == leaves(nv, post@[j] as int),
        decreases post@.len() - k,
    {
        let v = post[k];
        let cnt = nodes[v].children.len();
        let ghost cs = nv[v as int].children;
        proof {
            assert(cs == nodes@[v as int].children@);
            lemma_children_valid(nv, v as int);
        }
        if cnt == 0 {
            width[v] = 1;
        } else {
            proof {
                lemma_reachable(nv, v as int);
                assert(crate::layout::is_child(nv, v, cs[0]));
                assert(nodes@[v as int].children@.contains(cs[0]));
                lemma_pre_child(nv, 0, v, cs[0]);
                lemma_leaves_bounds(nv, v as int);
                assert(cs.len() > 0);
                assert(leaves(nv, v as int) == leaves_sum(nv, cs, v as int));
                assert(children_before(nv, post@, k as int));
                assert forall|m: int| 0 <= m < cs.len() implies #[trigger] width@[cs[m] as int] == leaves(nv, cs[m] as int) by {
                    assert(post@.take(k as int).contains(cs[m]));
                    let j = choose|j: int| 0 <= j < k && post@.take(k as int)[j] == cs[m];
                    assert(post@[j] == cs[m]);
                    assert(width@[post@[j] as int] == leaves(nv, post@[j] as int));
                }
            }
            let mut sum: usize = 0;
            let mut i: usize = 0;
            while i < cnt
                invariant
                    nv == nodes_view(nodes@),
                    n == nv.len(),
                    links_ok(nv, 0),
                    v < n,
                    cs == nv[v as int].children,
                    cnt == cs.len(),
                    valid_below(nv, cs, v as int),
                    width@.len() == n,
                    0 <= i <= cnt,
                    sum == leaves_sum(nv, cs.take(i as int), v as int),
                    leaves(nv, v as int) == leaves_sum(nv, cs, v as int),
                    leaves(nv, v as int) <= pre_len,
                    forall|m: int| 0 <= m < cs.len() ==> #[trigger] width@[cs[m] as int] == leaves(nv, cs[m] as int),
                decreases cnt - i,
            {
                let c = nodes[v].children[i];
                proof {
                    assert(c == cs[i as int]);
                    lemma_leaves_sum_take(nv, cs, v as int, i as int);
                    lemma_leaves_sum_take(nv, cs, v as int, i + 1);
                    assert(width@[c as int] == leaves(nv, c as int));
                }
                sum = sum + width[c];
                i = i + 1;
            }
            proof {
                assert(cs.take(cnt as int) =~= cs);
            }
            width[v] = sum;
        }
        proof {
            assert forall|j: int| 0 <= j < k + 1 implies #[trigger] width@[post@[j] as int] == leaves(nv, post@[j] as int) by {
                if post@[j] != v {
                }
            }
        }
        k = k + 1;
    }
    proof {
        assert forall|u: int| 0 <= u < n implies #[trigger] width@[u] == leaves(nv, u) by {
            lemma_reachable(nv, u);
            let j = choose|j: int| 0 <= j < post@.len() && post@[j] == u as usize;
            assert(width@[post@[j] as int] == leaves(nv, post@[j] as int));
        }
    }
    let mut x: Vec<i128> = vec![0i128; n];
    let mut depths: Vec<usize> = vec![0usize; n];
    proof {
        lemma_span_bounds(nv, 0);
        lemma_leaves_bounds(nv, 0);
    }
    let ghost total = leaves(nv, 0);
    let mut k: usize = 0;
    while k < pre.len()
        invariant
            nv == nodes_view(nodes@),
            n == nv.len(),
            is_tree(nv),
            pre@ == pre_tree(nv, 0),
            forall|j: int| 0 <= j < pre@.len() ==> #[trigger] pre@[j] < nv.len(),
            parents_first(nv, pre@),
            width@.len() == n,
            x@.len() == n,
            depths@.len() == n,
            total == leaves(nv, 0),
            total <= usize::MAX,
            forall|u: int| 0 <= u < n ==> #[trigger] width@[u] == leaves(nv, u),
            0 <= k <= pre@.len(),
            x@[0] == 0,
            forall|j: int| 0 <= j < k ==> #[trigger] depths@[pre@[j] as int] == depth(nv, pre@[j] as int),
            forall|j: int, m: int| 0 <= j < k && 0 <= m < nv[pre@[j] as int].children.len() ==>
                x@[#[trigger] nv[pre@[j] as int].children[m] as int] == x_offset(nv, nv[pre@[j] as int].children[m] as int),
        decreases pre@.len() - k,
    {
        let v = pre[k];
        let ghost cs = nv[v as int].children;
        proof {
            assert(cs == nodes@[v as int].children@);
            lemma_children_valid(nv, v as int);
            lemma_span_bounds(nv, v as int);
            if k == 0 {
                assert(pre@[0] == 0);
            } else {
                assert(has_parent_before(nv, pre@, k as int));
                let j = choose|j: int| 0 <= j < k && #[trigger] is_child(nv, pre@[j], pre@[k as int]);
                let m = choose|m: int| 0 <= m < nv[pre@[j] as int].children.len() && nv[pre@[j] as int].children[m] == v;
                assert(x@[nv[pre@[j] as int].children[m] as int] == x_offset(nv, v as int));
                assert(0 + pre@[j] < v < n);
                assert(nv[v as int].parent == Some(pre@[j]));
            }
            if k == 0 {
                assert(nv[0].parent is None);
            }
        }
        match nodes[v].parent {
            Some(p) => {
                proof {
                    assert(nv[v as int].parent == Some(p));
                    assert(k != 0);
                    let j = choose|j: int| 0 <= j < k && #[trigger] is_child(nv, pre@[j], pre@[k as int]);
                    let m = choose|m: int| 0 <= m < nv[pre@[j] as int].children.len() && nv[pre@[j] as int].children[m] == v;
                    assert(0 + pre@[j] < v < n);
                    assert(nv[v as int].parent == Some(pre@[j]));
                    assert(depths@[pre@[j] as int] == depth(nv, pre@[j] as int));
                    lemma_span_bounds(nv, p as int);
                }
                depths[v] = depths[p] + 1;
            },
            None => {
                depths[v] = 0;
            },
        }
        let cnt = nodes[v].children.len();
        let ghost old_x = x@;
        let mut offset: i128 = x[v] - width[v] as i128;
        let mut i: usize = 0;
        while i < cnt
            invariant
                nv == nodes_view(nodes@),
                n == nv.len(),
                is_tree(nv),
                v < n,
                cs == nv[v as int].children,
                cnt == cs.len(),
                valid_below(nv, cs, v as int),
                width@.len() == n,
                x@.len() == n,
                forall|u: int| 0 <= u < n ==> #[trigger] width@[u] == leaves(nv, u),
                total == leaves(nv, 0),
                total <= usize::MAX,
                -(total as int) <= left_edge(nv, v as int),
                right_edge(nv, v as int) <= total,
                x@[0] == 0,
                0 <= i <= cnt,
                offset == left_edge(nv, v as int) + 2 * leaves_sum(nv, cs.take(i as int), v as int),
                forall|m: int| 0 <= m < i ==> x@[#[trigger] cs[m] as int] == x_offset(nv, cs[m] as int),
                x@.len() == old_x.len(),
                forall|u: int| 0 <= u < n && x@[u] != old_x[u] ==> x@[u] == x_offset(nv, u),
            decreases cnt - i,
        {
            let c = nodes[v].children[i];
            proof {
                assert(c == cs[i as int]);
                lemma_children_tile(nv, v as int, i as int);
                lemma_leaves_sum_take(nv, cs, v as int, i as int);
                lemma_leaves_sum_take(nv, cs, v as int, i + 1);
                lemma_span_bounds(nv, c as int);
                assert(width@[c as int] == leaves(nv, c as int));
            }
            x[c] = offset + width[c] as i128;
            offset = offset + 2 * (width[c] as i128);
            i = i + 1;
        }
        k = k + 1;
    }
    proof {
        assert forall|u: int| 0 <= u < n implies x@[u] == x_offset(nv, u) && depths@[u] == depth(nv, u) by {
            lemma_reachable(nv, u);
            let j = choose|j: int| 0 <= j < pre@.len() && pre@[j] == u as usize;
            assert(depths@[pre@[j] as int] == depth(nv, pre@[j] as int));
            if u == 0 {
            } else {
                assert(j > 0);
                assert(has_parent_before(nv, pre@, j));
                let i = choose|i: int| 0 <= i < j && #[trigger] is_child(nv, pre@[i], pre@[j]);
                let m = choose|m: int| 0 <= m < nv[pre@[i] as int].children.len() && nv[pre@[i] as int].children[m] == u as usize;
                assert(x@[nv[pre@[i] as int].children[m] as int] == x_offset(nv, nv[pre@[i] as int].children[m] as int));
            }
        }
    }
    let mut grid: Vec<GridNode> = Vec::new();
    let mut u: usize = 0;
    while u < n
        invariant
            grid@.len() == u,
            u <= n,
            n == nv.len(),
            nv == nodes_view(nodes@),
            x@.len() == n,
            depths@.len() == n,
            forall|w: int| 0 <= w < n ==> x@[w] == x_offset(nv, w) && depths@[w] == depth(nv, w),
            forall|w: int| 0 <= w < u ==> (#[trigger] grid@[w]).x == x@[w] && grid@[w].depth == depths@[w],
        decreases n - u,
    {
        grid.push(GridNode { x: x[u], depth: depths[u] });
        u = u + 1;
    }
    grid
}

/// The indices from `lo` up to, not including, `hi`.
pub open spec fn index_range(lo: int, hi: int) -> Seq<usize> {
    Seq::new((hi - lo) as nat, |i: int| (lo + i) as usize)
}

/// A list of trees splits after its first tree as it does before its last.
proof fn lemma_forest_front<T: Labelled>(ts: Seq<SyntaxTree<T>>, p: Option<usize>, c: int)
    requires
        ts.len() > 0,
    ensures
        forest_size(ts) == tree_size(ts[0]) + forest_size(ts.drop_first()),
        child_starts(ts, c) == seq![c as usize] + child_starts(ts.drop_first(), c + tree_size(ts[0])),
        flat_forest(ts, p, c) == flat(ts[0], p, c) + flat_forest(ts.drop_first(), p, c + tree_size(ts[0])),
    decreases ts.len(),
{
    let df = ts.drop_first();
    if ts.len() == 1 {
        assert(ts.drop_last() =~= Seq::<SyntaxTree<T>>::empty());
        assert(df =~= Seq::<SyntaxTree<T>>::empty());
        assert(ts.last() == ts[0]);
        assert(forest_size(ts.drop_last()) == 0);
        assert(child_starts(ts.drop_last(), c) =~= Seq::<usize>::empty());
        assert(child_starts(df, c + tree_size(ts[0])) =~= Seq::<usize>::empty());
        assert(flat_forest(ts.drop_last(), p, c) =~= Seq::<NodeView>::empty());
        assert(flat_forest(df, p, c + tree_size(ts[0])) =~= Seq::<NodeView>::empty());
        assert(child_starts(ts, c) =~= seq![c as usize] + child_starts(df, c + tree_size(ts[0])));
        assert(flat_forest(ts, p, c) =~= flat(ts[0], p, c) + flat_forest(df, p, c + tree_size(ts[0])));
    } else {
        let dl = ts.drop_last();
        lemma_forest_front(dl, p, c);
        assert(dl[0] == ts[0]);
        assert(dl.drop_first() =~= df.drop_last());
        assert(df.last() == ts.last());
        let s0 = tree_size(ts[0]);
        assert(forest_size(ts) == tree_size(ts[0]) + forest_size(df));
        assert(child_starts(ts, c) =~= seq![c as usize] + child_starts(df, c + s0));
        assert(flat_forest(ts, p, c) =~= flat(ts[0], p, c) + flat_forest(df, p, c + s0));
    }
}

proof fn lemma_pre_numbering<T: Labelled>(nv: Seq<NodeView>, t: SyntaxTree<T>, p: Option<usize>, b: int)
    requires
        0 <= b,
        nv.len() <= usize::MAX,
        b + tree_size(t) <= nv.len(),
        nv.subrange(b, b + tree_size(t)) == flat(t, p, b),
    ensures
        pre_tree(nv, b) == index_range(b, b + tree_size(t)),
    decreases t,
{
    lemma_flat_len(t, p, b);
    let cs = t.children@;
    lemma_flat_forest_len(cs, Some(b as usize), b + 1);
    let f = flat_forest(cs, Some(b as usize), b + 1);
    assert(flat(t, p, b) == seq![root_node(t, p, b)] + f);
    assert(nv[b] == nv.subrange(b, b + tree_size(t))[0]);
    assert(nv[b].children == child_starts(cs, b + 1));
    assert(nv.subrange(b + 1, b + 1 + forest_size(cs)) =~= nv.subrange(b, b + tree_size(t)).subrange(1, tree_size(t) as int));
    assert(nv.subrange(b + 1, b + 1 + forest_size(cs)) =~= f);
    lemma_pre_forest_numbering(nv, cs, Some(b as usize), b, b + 1);
    assert(pre_tree(nv, b) =~= index_range(b, b + tree_size(t)));
}

proof fn lemma_pre_forest_numbering<T: Labelled>(
    nv: Seq<NodeView>,
    ts: Seq<SyntaxTree<T>>,
    p: Option<usize>,
    v: int,
    c: int,
)
    requires
        0 <= v < c,
        nv.len() <= usize::MAX,
        c + forest_size(ts) <= nv.len(),
        nv.subrange(c, c + forest_size(ts)) == flat_forest(ts, p, c),
    ensures
        pre_forest(nv, child_starts(ts, c), v) == index_range(c, c + forest_size(ts)),
    decreases ts,
{
    if ts.len() == 0 {
        assert(pre_forest(nv, child_starts(ts, c), v) =~= index_range(c, c + forest_size(ts)));
    } else {
        lemma_forest_front(ts, p, c);
        let df = ts.drop_first();
        let s0 = tree_size(ts[0]);
        assert(s0 >= 1);
        lemma_flat_len(ts[0], p, c);
        lemma_flat_forest_len(df, p, c + s0);
        let starts = child_starts(ts, c);
        assert(starts[0] == c as usize);
        assert(starts.drop_first() =~= child_starts(df, c + s0));
        assert(nv.subrange(c, c + s0) =~= nv.subrange(c, c + forest_size(ts)).subrange(0, s0 as int));
        assert(nv.subrange(c, c + s0) =~= flat(ts[0], p, c));
        lemma_pre_numbering(nv, ts[0], p, c);
        assert(nv.subrange(c + s0, c + forest_size(ts)) =~= nv.subrange(c, c + forest_size(ts)).subrange(
            s0 as int,
            forest_size(ts) as int,
        ));
        assert(nv.subrange(c + s0, c + s0 + forest_size(df)) =~= flat_forest(df, p, c + s0));
        lemma_pre_forest_numbering(nv, df, p, v, c + s0);
        assert(pre_forest(nv, starts, v) == pre_tree(nv, c) + pre_forest(nv, starts.drop_first(), v));
        assert(pre_forest(nv, starts, v) =~= index_range(c, c + forest_size(ts)));
    }
}

/// Numbering law: a flattened tree is numbered in pre-order, so the
/// pre-order of its node list from node 0 is 0, 1, 2, ... in turn.
pub proof fn lemma_flatten_preorder<T: Labelled>(t: SyntaxTree<T>)
    requires
        tree_size(t) <= usize::MAX,
    ensures
        pre_tree(tree_nodes(t), 0) == index_range(0, tree_size(t) as int),
{
    lemma_flat_len(t, None, 0);
    assert(tree_nodes(t).subrange(0, tree_size(t) as int) =~= flat(t, None, 0));
    lemma_pre_numbering(tree_nodes(t), t, None, 0);
}

} // verus!
