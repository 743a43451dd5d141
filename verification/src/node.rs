//! Indexed tree nodes, syntax trees, and the builder that flattens the
//! latter into the former.

use vstd::prelude::*;

verus! {

/// One node of a flattened syntax tree.
#[derive(Debug)]
pub struct Node {
    pub label: String,
    pub kind: String,
    pub parent: Option<usize>,
    pub children: Vec<usize>,
}

/// The mathematical value of a [`Node`].
pub struct NodeView {
    pub label: Seq<char>,
    pub kind: Seq<char>,
    pub parent: Option<usize>,
    pub children: Seq<usize>,
}

impl View for Node {
    type V = NodeView;

    open spec fn view(&self) -> NodeView {
        NodeView {
            label: self.label@,
            kind: self.kind@,
            parent: self.parent,
            children: self.children@,
        }
    }
}

/// The values of a list of nodes.
pub open spec fn nodes_view(nodes: Seq<Node>) -> Seq<NodeView> {
    nodes.map_values(|n: Node| n@)
}

/// What a syntax tree node shows: its label and its kind.
pub trait Labelled {
    /// The label of a node with this item; `printed` is the outside
    /// printer's rendering of the node, read by the kinds labelled with it.
    spec fn label_of(&self, printed: Seq<char>) -> Seq<char>;

    /// The kind name of a node with this item.
    spec fn kind_of(&self) -> Seq<char>;

    fn label(&self, printed: &str) -> (s: String)
        ensures
            s@ == self.label_of(printed@),
    ;

    fn kind(&self) -> (s: String)
        ensures
            s@ == self.kind_of(),
    ;
}

/// A syntax tree: an item, the printer's rendering of the node (which the
/// labels of some kinds show), and the sub-trees in order.
pub struct SyntaxTree<T> {
    pub item: T,
    pub printed: String,
    pub children: Vec<SyntaxTree<T>>,
}

/// Number of nodes of a tree.
pub open spec fn tree_size<T>(t: SyntaxTree<T>) -> nat
    decreases t,
{
    1 + forest_size(t.children@)
}

/// Number of nodes of a list of trees.
pub open spec fn forest_size<T>(ts: Seq<SyntaxTree<T>>) -> nat
    decreases ts,
{
    if ts.len() == 0 {
        0
    } else {
        forest_size(ts.drop_last()) + tree_size(ts.last())
    }
}

/// Indices of the roots of a list of trees laid out one after another
/// from index `base` on.
pub open spec fn child_starts<T>(ts: Seq<SyntaxTree<T>>, base: int) -> Seq<usize>
    decreases ts.len(),
{
    if ts.len() == 0 {
        seq![]
    } else {
        child_starts(ts.drop_last(), base).push((base + forest_size(ts.drop_last())) as usize)
    }
}

/// The node that the root of `t` becomes at index `base`.
pub open spec fn root_node<T: Labelled>(t: SyntaxTree<T>, parent: Option<usize>, base: int) -> NodeView {
    NodeView {
        label: t.item.label_of(t.printed@),
        kind: t.item.kind_of(),
        parent,
        children: child_starts(t.children@, base + 1),
    }
}

/// The nodes of `t` in pre-order, placed from index `base` on, with
/// `parent` as the parent of its root.
pub open spec fn flat<T: Labelled>(t: SyntaxTree<T>, parent: Option<usize>, base: int) -> Seq<NodeView>
    decreases t,
{
    seq![root_node(t, parent, base)] + flat_forest(t.children@, Some(base as usize), base + 1)
}

/// The nodes of a list of trees in pre-order, one tree after another,
/// placed from index `base` on.
pub open spec fn flat_forest<T: Labelled>(ts: Seq<SyntaxTree<T>>, parent: Option<usize>, base: int) -> Seq<NodeView>
    decreases ts,
{
    if ts.len() == 0 {
        seq![]
    } else {
        flat_forest(ts.drop_last(), parent, base)
            + flat(ts.last(), parent, base + forest_size(ts.drop_last()))
    }
}

/// The node list of a whole tree.
pub open spec fn tree_nodes<T: Labelled>(t: SyntaxTree<T>) -> Seq<NodeView> {
    flat(t, None, 0)
}

/// Every child link of the nodes `s`, numbered from `base` on, points
/// forward to a node of `s` whose parent is the linking node, and the
/// children of each node are listed in increasing order.
pub open spec fn links_ok(s: Seq<NodeView>, base: int) -> bool {
    &&& forall|j: int, k: int|
        0 <= j < s.len() && 0 <= k < s[j].children.len() ==> {
            let c = #[trigger] s[j].children[k];
            &&& base + j < c < base + s.len()
            &&& s[c - base].parent == Some((base + j) as usize)
        }
    &&& forall|j: int, k1: int, k2: int|
        0 <= j < s.len() && 0 <= k1 < k2 < s[j].children.len() ==> #[trigger] s[j].children[k1]
            < #[trigger] s[j].children[k2]
}

/// Node `j` of `s` (numbered from `base` on) has an earlier node of `s` as
/// its parent, which lists it among its children.
pub open spec fn inner_parent(s: Seq<NodeView>, base: int, j: int) -> bool {
    s[j].parent matches Some(q) && base <= q < base + j && s[q - base].children.contains(
        (base + j) as usize,
    )
}

/// A well-formed node list: the first node is the root, every other node
/// has an earlier parent that lists it as a child, and every child link
/// points forward to a node whose parent is the linking node.
pub open spec fn is_tree(nodes: Seq<NodeView>) -> bool {
    &&& nodes.len() > 0 ==> nodes[0].parent is None
    &&& forall|i: int| 0 < i < nodes.len() ==> #[trigger] inner_parent(nodes, 0, i)
    &&& links_ok(nodes, 0)
}

/// Builds a node list from pre-order and post-order visits.
pub struct TreeBuilder {
    pub nodes: Vec<Node>,
    pub stack: Vec<usize>,
}

/// The parent that a node pushed now receives: the top of the stack.
pub open spec fn stack_top(stack: Seq<usize>) -> Option<usize> {
    if stack.len() == 0 {
        None
    } else {
        Some(stack.last())
    }
}

/// `nodes` with `child` appended to the children of `parent`, if any.
pub open spec fn attach(nodes: Seq<NodeView>, parent: Option<usize>, child: usize) -> Seq<NodeView> {
    match parent {
        Some(p) => nodes.update(
            p as int,
            NodeView { children: nodes[p as int].children.push(child), ..nodes[p as int] },
        ),
        None => nodes,
    }
}

/// The first `i` trees weigh no more than all of them, and adding the
/// next one adds its size.
pub proof fn lemma_forest_size_take<T>(ts: Seq<SyntaxTree<T>>, i: int)
    requires
        0 <= i <= ts.len(),
    ensures
        forest_size(ts.take(i)) <= forest_size(ts),
        i < ts.len() ==> forest_size(ts.take(i + 1)) == forest_size(ts.take(i)) + tree_size(ts[i]),
    decreases ts.len(),
{
    if i < ts.len() {
        assert(ts.take(i + 1).drop_last() =~= ts.take(i));
        assert(ts.take(i + 1).last() == ts[i]);
    }
    if i == ts.len() {
        assert(ts.take(i) =~= ts);
    } else {
        lemma_forest_size_take(ts.drop_last(), i);
        assert(ts.drop_last().take(i) =~= ts.take(i));
    }
}

/// A flattened tree has one node per tree node.
pub proof fn lemma_flat_len<T: Labelled>(t: SyntaxTree<T>, parent: Option<usize>, base: int)
    ensures
        flat(t, parent, base).len() == tree_size(t),
    decreases t,
{
    lemma_flat_forest_len(t.children@, Some(base as usize), base + 1);
}

/// A flattened list of trees has one node per tree node.
pub proof fn lemma_flat_forest_len<T: Labelled>(ts: Seq<SyntaxTree<T>>, parent: Option<usize>, base: int)
    ensures
        flat_forest(ts, parent, base).len() == forest_size(ts),
    decreases ts,
{
    if ts.len() > 0 {
        lemma_flat_forest_len(ts.drop_last(), parent, base);
        lemma_flat_len(ts.last(), parent, base + forest_size(ts.drop_last()));
    }
}

proof fn lemma_flat_shape<T: Labelled>(t: SyntaxTree<T>, parent: Option<usize>, base: int)
    requires
        0 <= base,
        base + tree_size(t) <= usize::MAX,
        parent matches Some(q) ==> q < base,
    ensures
        flat(t, parent, base).len() == tree_size(t),
        flat(t, parent, base)[0].parent == parent,
        forall|j: int| 0 < j < tree_size(t) ==> #[trigger] inner_parent(flat(t, parent, base), base, j),
        links_ok(flat(t, parent, base), base),
    decreases t,
{
    let ts = t.children@;
    let f = flat_forest(ts, Some(base as usize), base + 1);
    let s = flat(t, parent, base);
    let starts = child_starts(ts, base + 1);
    lemma_flat_forest_shape(ts, Some(base as usize), base + 1);
    assert(s =~= seq![root_node(t, parent, base)] + f);
    assert(s[0].children == starts);
    assert forall|j: int| 0 < j < tree_size(t) implies #[trigger] inner_parent(s, base, j) by {
        assert(s[j] == f[j - 1]);
        if f[j - 1].parent == Some(base as usize) && starts.contains((base + 1 + (j - 1)) as usize) {
        } else {
            assert(inner_parent(f, base + 1, j - 1));
            let q = f[j - 1].parent->0;
            assert(s[q - base] == f[q - base - 1]);
        }
    }
    assert forall|j: int, k: int| 0 <= j < s.len() && 0 <= k < s[j].children.len() implies {
        let c = #[trigger] s[j].children[k];
        &&& base + j < c < base + s.len()
        &&& s[c - base].parent == Some((base + j) as usize)
    } by {
        if j == 0 {
            let c = starts[k];
            assert(s[c - base] == f[c - base - 1]);
        } else {
            assert(s[j] == f[j - 1]);
            let c = f[j - 1].children[k];
            assert(s[c - base] == f[c - (base + 1)]);
        }
    }
    assert forall|j: int, k1: int, k2: int|
        0 <= j < s.len() && 0 <= k1 < k2 < s[j].children.len() implies #[trigger] s[j].children[k1]
        < #[trigger] s[j].children[k2] by {
        if j > 0 {
            assert(s[j] == f[j - 1]);
        }
    }
}

proof fn lemma_flat_forest_shape<T: Labelled>(ts: Seq<SyntaxTree<T>>, parent: Option<usize>, base: int)
    requires
        0 <= base,
        base + forest_size(ts) <= usize::MAX,
        parent matches Some(q) ==> q < base,
    ensures
        flat_forest(ts, parent, base).len() == forest_size(ts),
        child_starts(ts, base).len() == ts.len(),
        forall|j: int| 0 <= j < forest_size(ts) ==> {
            ||| flat_forest(ts, parent, base)[j].parent == parent && child_starts(ts, base).contains((base + j) as usize)
            ||| #[trigger] inner_parent(flat_forest(ts, parent, base), base, j)
        },
        forall|m: int| 0 <= m < ts.len() ==> {
            let c = #[trigger] child_starts(ts, base)[m];
            &&& base <= c < base + forest_size(ts)
            &&& flat_forest(ts, parent, base)[c - base].parent == parent
        },
        forall|m1: int, m2: int| 0 <= m1 < m2 < ts.len() ==> #[trigger] child_starts(ts, base)[m1]
            < #[trigger] child_starts(ts, base)[m2],
        links_ok(flat_forest(ts, parent, base), base),
    decreases ts,
{
    if ts.len() > 0 {
        let init = ts.drop_last();
        let last = ts.last();
        let fi = flat_forest(init, parent, base);
        let mid = base + forest_size(init);
        let g = flat(last, parent, mid);
        let f = flat_forest(ts, parent, base);
        let si = child_starts(init, base);
        let starts = child_starts(ts, base);
        lemma_flat_forest_shape(init, parent, base);
        lemma_flat_shape(last, parent, mid);
        assert(f =~= fi + g);
        assert(starts == si.push(mid as usize));
        let n1 = fi.len();
        assert forall|j: int| 0 <= j < forest_size(ts) implies {
            ||| f[j].parent == parent && starts.contains((base + j) as usize)
            ||| #[trigger] inner_parent(f, base, j)
        } by {
            if j < n1 {
                assert(f[j] == fi[j]);
                if fi[j].parent == parent && si.contains((base + j) as usize) {
                    let m = choose|m: int| 0 <= m < si.len() && si[m] == (base + j) as usize;
                    assert(starts[m] == si[m]);
                } else {
                    assert(inner_parent(fi, base, j));
                    let q = fi[j].parent->0;
                    assert(f[q - base] == fi[q - base]);
                }
            } else if j == n1 {
                assert(f[j] == g[0]);
                assert(starts[ts.len() - 1] == mid as usize);
            } else {
                assert(f[j] == g[j - n1]);
                assert(inner_parent(g, mid, j - n1));
                let q = g[j - n1].parent->0;
                assert(f[q - base] == g[q - mid]);
            }
        }
        assert forall|m: int| 0 <= m < ts.len() implies {
            let c = #[trigger] starts[m];
            &&& base <= c < base + forest_size(ts)
            &&& f[c - base].parent == parent
        } by {
            if m < ts.len() - 1 {
                assert(starts[m] == si[m]);
                assert(f[starts[m] - base] == fi[starts[m] - base]);
            } else {
                assert(f[mid - base] == g[0]);
            }
        }
        assert forall|m1: int, m2: int| 0 <= m1 < m2 < ts.len() implies #[trigger] starts[m1]
            < #[trigger] starts[m2] by {
            assert(starts[m1] == si[m1]);
            if m2 < ts.len() - 1 {
                assert(starts[m2] == si[m2]);
            }
        }
        assert forall|j: int, k: int| 0 <= j < f.len() && 0 <= k < f[j].children.len() implies {
            let c = #[trigger] f[j].children[k];
            &&& base + j < c < base + f.len()
            &&& f[c - base].parent == Some((base + j) as usize)
        } by {
            if j < n1 {
                assert(f[j] == fi[j]);
                let c = fi[j].children[k];
                assert(f[c - base] == fi[c - base]);
            } else {
                assert(f[j] == g[j - n1]);
                let c = g[j - n1].children[k];
                assert(f[c - base] == g[c - mid]);
            }
        }
        assert forall|j: int, k1: int, k2: int|
            0 <= j < f.len() && 0 <= k1 < k2 < f[j].children.len() implies #[trigger] f[j].children[k1]
            < #[trigger] f[j].children[k2] by {
            if j < n1 {
                assert(f[j] == fi[j]);
            } else {
                assert(f[j] == g[j - n1]);
            }
        }
    }
}

/// A flattened tree is a well-formed node list with one node per tree node.
pub proof fn lemma_tree_nodes_is_tree<T: Labelled>(t: SyntaxTree<T>)
    requires
        tree_size(t) <= usize::MAX,
    ensures
        tree_nodes(t).len() == tree_size(t),
        is_tree(tree_nodes(t)),
{
    lemma_flat_shape(t, None, 0);
    let s = tree_nodes(t);
    assert forall|i: int| 0 < i < s.len() implies #[trigger] inner_parent(s, 0, i) by {
        assert(inner_parent(flat(t, None, 0), 0, i));
    }
}

/// The state a builder keeps between visits: each node's parent is an
/// earlier node that lists it, every child link is consistent, children
/// are listed in increasing order, and the stack is a chain of open nodes
/// from an outermost one down, each the parent of the next.
pub open spec fn builder_ok(nodes: Seq<NodeView>, stack: Seq<usize>) -> bool {
    &&& forall|i: int| 0 <= i < nodes.len() && nodes[i].parent is Some ==> #[trigger] inner_parent(nodes, 0, i)
    &&& links_ok(nodes, 0)
    &&& forall|j: int| 0 <= j < stack.len() ==> #[trigger] stack[j] < nodes.len()
    &&& forall|j: int| 0 < j < stack.len() ==> {
        &&& stack[j - 1] < #[trigger] stack[j]
        &&& nodes[stack[j] as int].parent == Some(stack[j - 1])
    }
}

/// Builder law: a new builder is in order, and `visit_pre` and
/// `visit_post` (as their contracts state them) keep it in order, so every
/// builder reached from [`TreeBuilder::new`] by visits is.
pub proof fn lemma_builder_steps(nodes: Seq<NodeView>, stack: Seq<usize>, label: Seq<char>, kind: Seq<char>)
    requires
        builder_ok(nodes, stack),
        nodes.len() < usize::MAX,
    ensures
        builder_ok(Seq::empty(), Seq::empty()),
        builder_ok(
            attach(nodes, stack_top(stack), nodes.len() as usize).push(
                NodeView { label, kind, parent: stack_top(stack), children: seq![] },
            ),
            stack.push(nodes.len() as usize),
        ),
        builder_ok(nodes, if stack.len() == 0 { stack } else { stack.drop_last() }),
{
    let n = nodes.len() as int;
    let p = stack_top(stack);
    let node = NodeView { label, kind, parent: p, children: seq![] };
    let a = attach(nodes, p, n as usize);
    let s2 = a.push(node);
    let st2 = stack.push(n as usize);
    if stack.len() > 0 {
        assert(stack.last() == stack[stack.len() - 1]);
    }
    assert(a.len() == n);
    assert forall|i: int| 0 <= i < n implies #[trigger] a[i].parent == nodes[i].parent && (a[i].children
        == nodes[i].children || (p == Some(i as usize) && a[i].children == nodes[i].children.push(
        n as usize,
    ))) by {}
    assert forall|i: int| 0 <= i < s2.len() && s2[i].parent is Some implies #[trigger] inner_parent(s2, 0, i) by {
        if i < n {
            assert(inner_parent(nodes, 0, i));
            let q = nodes[i].parent->0;
            assert(s2[q as int] == a[q as int]);
            assert(nodes[q as int].children.contains(i as usize));
            let k = choose|k: int| 0 <= k < nodes[q as int].children.len() && nodes[q as int].children[k] == i as usize;
            assert(s2[q as int].children[k] == i as usize);
        } else {
            let q = p->0;
            assert(s2[q as int] == a[q as int]);
            assert(s2[q as int].children.last() == n as usize);
            assert(s2[q as int].children[s2[q as int].children.len() - 1] == n as usize);
        }
    }
    assert forall|j: int, k: int| 0 <= j < s2.len() && 0 <= k < s2[j].children.len() implies {
        let c = #[trigger] s2[j].children[k];
        &&& 0 + j < c < 0 + s2.len()
        &&& s2[c - 0].parent == Some((0 + j) as usize)
    } by {
        assert(j < n);
        assert(s2[j] == a[j]);
        if k < nodes[j].children.len() {
            assert(s2[j].children[k] == nodes[j].children[k]);
            let c = nodes[j].children[k];
            assert(0 + j < c < 0 + nodes.len());
            assert(s2[c as int] == a[c as int]);
        } else {
            assert(p == Some(j as usize));
        }
    }
    assert forall|j: int, k1: int, k2: int|
        0 <= j < s2.len() && 0 <= k1 < k2 < s2[j].children.len() implies #[trigger] s2[j].children[k1]
        < #[trigger] s2[j].children[k2] by {
        assert(s2[j] == a[j]);
        if k2 < nodes[j].children.len() {
            assert(s2[j].children[k1] == nodes[j].children[k1]);
            assert(s2[j].children[k2] == nodes[j].children[k2]);
        } else {
            assert(s2[j].children[k1] == nodes[j].children[k1]);
            let c = nodes[j].children[k1];
            assert(0 + j < c < 0 + nodes.len());
        }
    }
    assert(links_ok(s2, 0));
    assert forall|j: int| 0 <= j < st2.len() implies #[trigger] st2[j] < s2.len() by {
        if j < stack.len() {
            assert(st2[j] == stack[j]);
        }
    }
    assert forall|j: int| 0 < j < st2.len() implies {
        &&& st2[j - 1] < #[trigger] st2[j]
        &&& s2[st2[j] as int].parent == Some(st2[j - 1])
    } by {
        if j < stack.len() {
            assert(st2[j] == stack[j]);
            assert(st2[j - 1] == stack[j - 1]);
            assert(s2[stack[j] as int] == a[stack[j] as int]);
        } else {
            assert(st2[j - 1] == stack[j - 1]);
            assert(stack[j - 1] < n);
        }
    }
    if stack.len() > 0 {
        let d = stack.drop_last();
        assert forall|j: int| 0 <= j < d.len() implies #[trigger] d[j] < nodes.len() by {
            assert(d[j] == stack[j]);
        }
        assert forall|j: int| 0 < j < d.len() implies {
            &&& d[j - 1] < #[trigger] d[j]
            &&& nodes[d[j] as int].parent == Some(d[j - 1])
        } by {
            assert(d[j] == stack[j]);
            assert(d[j - 1] == stack[j - 1]);
        }
    }
}

impl TreeBuilder {
    pub fn new() -> (b: Self)
        ensures
            b.nodes@.len() == 0,
            b.stack@.len() == 0,
    {
        TreeBuilder { nodes: Vec::new(), stack: Vec::new() }
    }

    /// Opens a node: it is appended with the top of the stack as its
    /// parent, listed among that parent's children, and pushed on the stack.
    pub fn visit_pre(&mut self, label: String, kind: String)
        requires
            stack_top(old(self).stack@) matches Some(p) ==> p < old(self).nodes@.len(),
        ensures
            nodes_view(final(self).nodes@) == attach(
                nodes_view(old(self).nodes@),
                stack_top(old(self).stack@),
                old(self).nodes@.len() as usize,
            ).push(
                NodeView {
                    label: label@,
                    kind: kind@,
                    parent: stack_top(old(self).stack@),
                    children: seq![],
                },
            ),
            final(self).stack@ == old(self).stack@.push(old(self).nodes@.len() as usize),
    {
        let parent: Option<usize> = if self.stack.len() == 0 {
            None
        } else {
            Some(self.stack[self.stack.len() - 1])
        };
        let index: usize = self.nodes.len();
        let ghost old_nodes = nodes_view(self.nodes@);
        self.nodes.push(Node { label, kind, parent, children: Vec::new() });
        if let Some(p) = parent {
            self.nodes[p].children.push(index);
        }
        self.stack.push(index);
        proof {
            let want = attach(old_nodes, parent, index).push(
                NodeView { label: label@, kind: kind@, parent, children: seq![] },
            );
            assert(nodes_view(self.nodes@) =~= want);
        }
    }

    /// Closes the node on top of the stack.
    pub fn visit_post(&mut self)
        ensures
            final(self).nodes@ == old(self).nodes@,
            final(self).stack@ == if old(self).stack@.len() == 0 {
                old(self).stack@
            } else {
                old(self).stack@.drop_last()
            },
    {
        self.stack.pop();
    }

    /// Appends the nodes of `t` in pre-order, as `visit_pre` and
    /// `visit_post` would for each of its nodes, the root hanging under
    /// the top of the stack.
    pub fn visit<T: Labelled>(&mut self, t: &SyntaxTree<T>)
        requires
            stack_top(old(self).stack@) matches Some(p) ==> p < old(self).nodes@.len(),
            old(self).nodes@.len() + tree_size(*t) <= usize::MAX,
        ensures
            final(self).stack@ == old(self).stack@,
            nodes_view(final(self).nodes@) == attach(
                nodes_view(old(self).nodes@),
                stack_top(old(self).stack@),
                old(self).nodes@.len() as usize,
            ) + flat(*t, stack_top(old(self).stack@), old(self).nodes@.len() as int),
        decreases t,
    {
        let ghost parent = stack_top(self.stack@);
        let ghost old_nodes = nodes_view(self.nodes@);
        let ghost old_stack = self.stack@;
        let n: usize = self.nodes.len();
        let label = t.item.label(t.printed.as_str());
        let kind = t.item.kind();
        self.visit_pre(label, kind);
        let ghost head = attach(old_nodes, parent, n);
        let ghost label_v = t.item.label_of(t.printed@);
        let ghost kind_v = t.item.kind_of();
        proof {
            lemma_forest_size_take(t.children@, 0);
            assert(t.children@.take(0) =~= Seq::<SyntaxTree<T>>::empty());
            assert(flat_forest(t.children@.take(0), Some(n), n + 1) =~= Seq::<NodeView>::empty());
            assert(nodes_view(self.nodes@) =~= head + seq![
                NodeView { label: label_v, kind: kind_v, parent, children: child_starts(t.children@.take(0), n + 1) },
            ] + flat_forest(t.children@.take(0), Some(n), n + 1));
        }
        let mut i: usize = 0;
        while i < t.children.len()
            invariant
                0 <= i <= t.children@.len(),
                n == old_nodes.len(),
                head.len() == n,
                self.stack@ == old_stack.push(n),
                n + tree_size(*t) <= usize::MAX,
                tree_size(*t) == 1 + forest_size(t.children@),
                nodes_view(self.nodes@) == head + seq![
                    NodeView { label: label_v, kind: kind_v, parent, children: child_starts(t.children@.take(i as int), n + 1) },
                ] + flat_forest(t.children@.take(i as int), Some(n), n + 1),
            decreases t.children@.len() - i,
        {
            let ghost before = nodes_view(self.nodes@);
            proof {
                lemma_forest_size_take(t.children@, i as int);
                lemma_flat_forest_len(t.children@.take(i as int), Some(n), n + 1);
                lemma_forest_size_take(t.children@, i + 1);
                assert(t.children@.take(i + 1).drop_last() =~= t.children@.take(i as int));
                assert(nodes_view(self.nodes@).len() == self.nodes@.len());
                assert(self.nodes@.len() == n + 1 + forest_size(t.children@.take(i as int)));
            }
            self.visit(&t.children[i]);
            proof {
                let c = t.children@[i as int];
                let start = n + 1 + forest_size(t.children@.take(i as int));
                assert(t.children@.take(i + 1).last() == c);
                let next_node = NodeView {
                    label: label_v,
                    kind: kind_v,
                    parent,
                    children: child_starts(t.children@.take(i + 1), n + 1),
                };
                assert(attach(before, Some(n), start as usize) =~= head + seq![next_node]
                    + flat_forest(t.children@.take(i as int), Some(n), n + 1));
                assert(nodes_view(self.nodes@) =~= head + seq![next_node]
                    + flat_forest(t.children@.take(i + 1), Some(n), n + 1));
            }
            i = i + 1;
        }
        self.visit_post();
        proof {
            assert(t.children@.take(t.children@.len() as int) =~= t.children@);
            assert(self.stack@ =~= old_stack);
            assert(nodes_view(self.nodes@) =~= head + flat(*t, parent, n as int));
        }
    }

    /// The nodes built so far.
    pub fn finish(self) -> (nodes: Vec<Node>)
        ensures
            nodes@ == self.nodes@,
    {
        self.nodes
    }
}

/// The node list of a syntax tree: its nodes in pre-order, each with its
/// parent and its children by index.
pub fn flatten<T: Labelled>(t: &SyntaxTree<T>) -> (nodes: Vec<Node>)
    requires
        tree_size(*t) <= usize::MAX,
    ensures
        nodes_view(nodes@) == tree_nodes(*t),
        nodes@.len() == tree_size(*t),
        is_tree(nodes_view(nodes@)),
        crate::layout::pre_tree(nodes_view(nodes@), 0) == crate::layout::index_range(0, nodes@.len() as int),
{
    let mut b = TreeBuilder::new();
    b.visit(t);
    proof {
        lemma_tree_nodes_is_tree(*t);
        crate::layout::lemma_flatten_preorder(*t);
        assert(nodes_view(b.nodes@) =~= tree_nodes(*t));
    }
    b.finish()
}

/// The number of nodes of `t`, where a `usize` can count them.
pub fn checked_size<T>(t: &SyntaxTree<T>) -> (r: Option<usize>)
    ensures
        r matches Some(n) ==> n == tree_size(*t),
        r is None <==> tree_size(*t) > usize::MAX,
    decreases t,
{
    let mut size: usize = 1;
    let mut i: usize = 0;
    while i < t.children.len()
        invariant
            i <= t.children@.len(),
            size == 1 + forest_size(t.children@.take(i as int)),
            tree_size(*t) == 1 + forest_size(t.children@),
        decreases t.children@.len() - i,
    {
        proof {
            lemma_forest_size_take(t.children@, i as int);
            lemma_forest_size_take(t.children@, i + 1);
        }
        match checked_size(&t.children[i]) {
            None => {
                return None;
            },
            Some(n) => {
                if size > usize::MAX - n {
                    return None;
                }
                size = size + n;
            },
        }
        i = i + 1;
    }
    proof {
        assert(t.children@.take(t.children@.len() as int) =~= t.children@);
    }
    Some(size)
}

fn list_contains(v: &Vec<usize>, x: usize) -> (r: bool)
    ensures
        r == v@.contains(x),
{
    let mut i: usize = 0;
    while i < v.len()
        invariant
            i <= v@.len(),
            forall|k: int| 0 <= k < i ==> v@[k] != x,
        decreases v@.len() - i,
    {
        if v[i] == x {
            return true;
        }
        i = i + 1;
    }
    false
}

/// Whether `nodes` is a well-formed node list: the test of [`is_tree`].
pub fn check_tree(nodes: &[Node]) -> (ok: bool)
    ensures
        ok == is_tree(nodes_view(nodes@)),
{
    let ghost nv = nodes_view(nodes@);
    let n = nodes.len();
    proof {
        assert(nv.len() == n);
    }
    if n > 0 && nodes[0].parent.is_some() {
        return false;
    }
    let mut i: usize = 1;
    while i < n
        invariant
            nv == nodes_view(nodes@),
            nv.len() == n,
            1 <= i <= n || n == 0,
            forall|j: int| 0 < j < i && j < n ==> #[trigger] inner_parent(nv, 0, j),
        decreases n - i,
    {
        match nodes[i].parent {
            None => {
                proof {
                    assert(!inner_parent(nv, 0, i as int));
                }
                return false;
            },
            Some(q) => {
                if q >= i {
                    proof {
                        assert(!inner_parent(nv, 0, i as int));
                    }
                    return false;
                }
                if !list_contains(&nodes[q].children, i) {
                    proof {
                        assert(nv[q as int].children == nodes@[q as int].children@);
                        assert(!inner_parent(nv, 0, i as int));
                    }
                    return false;
                }
                proof {
                    assert(nv[q as int].children == nodes@[q as int].children@);
                    assert(inner_parent(nv, 0, i as int));
                }
            },
        }
        i = i + 1;
    }
    let mut j: usize = 0;
    while j < n
        invariant
            nv == nodes_view(nodes@),
            nv.len() == n,
            j <= n,
            forall|a: int, k: int|
                0 <= a < j && 0 <= k < nv[a].children.len() ==> {
                    let c = #[trigger] nv[a].children[k];
                    &&& a < c < nv.len()
                    &&& nv[c as int].parent == Some(a as usize)
                },
            forall|a: int, k1: int, k2: int|
                0 <= a < j && 0 <= k1 < k2 < nv[a].children.len() ==> #[trigger] nv[a].children[k1]
                    < #[trigger] nv[a].children[k2],
        decreases n - j,
    {
        let ch = &nodes[j].children;
        let ghost cv = nv[j as int].children;
        proof {
            assert(cv == ch@);
        }
        let mut k: usize = 0;
        while k < ch.len()
            invariant
                nv == nodes_view(nodes@),
                nv.len() == n,
                j < n,
                cv == ch@,
                cv == nv[j as int].children,
                k <= cv.len(),
                forall|k0: int| 0 <= k0 < k ==> {
                    let c = #[trigger] cv[k0];
                    &&& j < c < nv.len()
                    &&& nv[c as int].parent == Some(j)
                },
                forall|k1: int, k2: int| 0 <= k1 < k2 < k ==> #[trigger] cv[k1] < #[trigger] cv[k2],
            decreases cv.len() - k,
        {
            let c = ch[k];
            if !(j < c && c < n) {
                return false;
            }
            let linked = match nodes[c].parent {
                Some(p) => p == j,
                None => false,
            };
            proof {
                assert(nv[c as int].parent == nodes@[c as int].parent);
            }
            if !linked {
                return false;
            }
            if k > 0 && !(ch[k - 1] < c) {
                return false;
            }
            k = k + 1;
        }
        j = j + 1;
    }
    proof {
        assert(links_ok(nv, 0));
    }
    true
}

} // verus!
