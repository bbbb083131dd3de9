//! The tree of scopes as it is spoken of in contracts, and the order in which a part of it is
//! closed.

use vstd::prelude::*;

use super::node_::{NodeId, NodeView};

verus! {

/// The scopes by their keys.
pub type Nodes = Map<NodeId, NodeView>;

/// The tree: its scopes, and those that are closed and wait to be reclaimed, in the order in
/// which they were closed.
#[verifier::ext_equal]
pub struct TreeView {
    pub nodes: Nodes,
    pub root: NodeId,
    pub pending: Seq<NodeId>,
    /// How many scopes were ever opened.
    pub clock: nat,
}

/// The `i`-th child of `p` is a scope, knows that it is below `p`, and was opened later.
pub open spec fn child_at(nodes: Nodes, p: NodeId, i: int) -> bool {
    let c = nodes[p].children[i];
    &&& nodes.contains_key(c)
    &&& nodes[c].parent == Some(p)
    &&& nodes[c].stamp > nodes[p].stamp
}

/// The scope above `c`, if there is one, has `c` among its children.
pub open spec fn parent_ok(nodes: Nodes, c: NodeId) -> bool {
    match nodes[c].parent {
        None => true,
        Some(p) => nodes.contains_key(p) && nodes[p].children.contains(c),
    }
}

/// Parents and children agree, and a child was opened after its parent.
pub open spec fn nodes_wf(nodes: Nodes, clock: nat) -> bool {
    &&& forall|p: NodeId, i: int|
        nodes.contains_key(p) && 0 <= i < nodes[p].children.len() ==> #[trigger] child_at(
            nodes,
            p,
            i,
        )
    &&& forall|c: NodeId| #[trigger] nodes.contains_key(c) ==> parent_ok(nodes, c)
    &&& forall|n: NodeId| #[trigger]
        nodes.contains_key(n) ==> nodes[n].stamp < clock && nodes[n].children.no_duplicates()
}

/// Whether `x` is the scope `a` or below it.
pub open spec fn below(nodes: Nodes, a: NodeId, x: NodeId) -> bool
    decreases nodes[x].stamp,
{
    x == a || match nodes[x].parent {
        None => false,
        Some(p) => nodes.contains_key(p) && nodes[p].stamp < nodes[x].stamp && below(nodes, a, p),
    }
}

/// Whether the scope `x`, or one above it, is closed.
pub open spec fn closed_above(nodes: Nodes, x: NodeId) -> bool
    decreases nodes[x].stamp,
{
    nodes[x].closed || match nodes[x].parent {
        None => false,
        Some(p) => nodes.contains_key(p) && nodes[p].stamp < nodes[x].stamp && closed_above(
            nodes,
            p,
        ),
    }
}

/// The scope above another was opened before it.
pub proof fn lemma_parent_is_older(nodes: Nodes, clock: nat, c: NodeId)
    requires
        nodes_wf(nodes, clock),
        nodes.contains_key(c),
    ensures
        nodes[c].parent matches Some(p) ==> {
            &&& nodes.contains_key(p)
            &&& nodes[p].stamp < nodes[c].stamp
            &&& nodes[p].children.len() > 0
        },
{
    assert(parent_ok(nodes, c));
    if let Some(p) = nodes[c].parent {
        let i = nodes[p].children.index_of(c);
        assert(child_at(nodes, p, i));
    }
}

/// A scope counts as closed exactly where it is below one that is, or is one itself.
pub proof fn law_closed_above(nodes: Nodes, x: NodeId)
    requires
        nodes.contains_key(x),
    ensures
        closed_above(nodes, x) <==> exists|a: NodeId|
            nodes.contains_key(a) && nodes[a].closed && #[trigger] below(nodes, a, x),
    decreases nodes[x].stamp,
{
    if nodes[x].closed {
        assert(below(nodes, x, x));
    } else if let Some(p) = nodes[x].parent {
        if nodes.contains_key(p) && nodes[p].stamp < nodes[x].stamp {
            law_closed_above(nodes, p);
            if closed_above(nodes, p) {
                let a = choose|a: NodeId|
                    nodes.contains_key(a) && nodes[a].closed && #[trigger] below(nodes, a, p);
                assert(below(nodes, a, x));
            }
            assert forall|a: NodeId|
                nodes.contains_key(a) && nodes[a].closed && #[trigger] below(
                    nodes,
                    a,
                    x,
                ) implies closed_above(nodes, x) by {
                assert(below(nodes, a, p));
            }
        }
    }
}

/// The scope `n` and all below it, in the order in which they are closed: children before
/// parents, and the youngest child, with all below it, before its elder siblings.
pub open spec fn close_order(nodes: Nodes, clock: nat, n: NodeId) -> Seq<NodeId>
    decreases clock - nodes[n].stamp, 1nat, 0nat,
{
    close_list(nodes, clock, n, nodes[n].children.len()).push(n)
}

/// The first `k` children of `n`, each with all below it, the youngest first.
pub open spec fn close_list(nodes: Nodes, clock: nat, n: NodeId, k: nat) -> Seq<NodeId>
    decreases clock - nodes[n].stamp, 0nat, k,
{
    if k == 0 {
        Seq::empty()
    } else {
        let c = nodes[n].children[k - 1];
        if nodes[n].stamp < nodes[c].stamp < clock {
            close_order(nodes, clock, c) + close_list(nodes, clock, n, (k - 1) as nat)
        } else {
            Seq::empty()
        }
    }
}

/// A scope below another was opened no earlier.
proof fn lemma_below_stamp(nodes: Nodes, a: NodeId, x: NodeId)
    requires
        below(nodes, a, x),
    ensures
        nodes[x].stamp >= nodes[a].stamp,
        x != a ==> nodes[x].stamp > nodes[a].stamp,
    decreases nodes[x].stamp,
{
    if x != a {
        let p = nodes[x].parent->0;
        lemma_below_stamp(nodes, a, p);
    }
}

/// What is below a child is below its parent.
proof fn lemma_below_child(nodes: Nodes, clock: nat, n: NodeId, c: NodeId, x: NodeId)
    requires
        nodes_wf(nodes, clock),
        nodes.contains_key(n),
        nodes.contains_key(c),
        nodes[c].parent == Some(n),
        nodes[c].stamp > nodes[n].stamp,
        below(nodes, c, x),
    ensures
        below(nodes, n, x),
    decreases nodes[x].stamp,
{
    if x != c {
        lemma_below_child(nodes, clock, n, c, nodes[x].parent->0);
    } else {
        assert(below(nodes, n, n));
    }
}

/// What is below a scope, and is not the scope itself, is below one of its children.
proof fn lemma_below_some_child(nodes: Nodes, clock: nat, n: NodeId, x: NodeId) -> (i: int)
    requires
        nodes_wf(nodes, clock),
        nodes.contains_key(n),
        nodes.contains_key(x),
        below(nodes, n, x),
        x != n,
    ensures
        0 <= i < nodes[n].children.len(),
        below(nodes, nodes[n].children[i], x),
    decreases nodes[x].stamp,
{
    let p = nodes[x].parent->0;
    assert(parent_ok(nodes, x));
    if p == n {
        let i = choose|i: int| 0 <= i < nodes[n].children.len() && nodes[n].children[i] == x;
        i
    } else {
        lemma_below_some_child(nodes, clock, n, p)
    }
}

/// Of two scopes that the same scope is below, one is below the other.
proof fn lemma_below_both(nodes: Nodes, a: NodeId, b: NodeId, x: NodeId)
    requires
        below(nodes, a, x),
        below(nodes, b, x),
    ensures
        below(nodes, a, b) || below(nodes, b, a),
    decreases nodes[x].stamp,
{
    if x != a && x != b {
        lemma_below_both(nodes, a, b, nodes[x].parent->0);
    }
}

/// Nothing is below two children of the same scope.
proof fn lemma_siblings_apart(
    nodes: Nodes,
    clock: nat,
    n: NodeId,
    i: int,
    j: int,
    x: NodeId,
)
    requires
        nodes_wf(nodes, clock),
        nodes.contains_key(n),
        0 <= i < nodes[n].children.len(),
        0 <= j < nodes[n].children.len(),
        i != j,
        below(nodes, nodes[n].children[i], x),
    ensures
        !below(nodes, nodes[n].children[j], x),
{
    let a = nodes[n].children[i];
    let b = nodes[n].children[j];
    assert(child_at(nodes, n, i));
    assert(child_at(nodes, n, j));
    if below(nodes, b, x) {
        lemma_below_both(nodes, a, b, x);
        assert(a != b);
        if below(nodes, a, b) {
            lemma_below_stamp(nodes, a, n);
        } else {
            lemma_below_stamp(nodes, b, n);
        }
    }
}

/// The closing order of a scope holds the scope and what is below it, and nothing else.
pub proof fn law_close_order_members(nodes: Nodes, clock: nat, n: NodeId, x: NodeId)
    requires
        nodes_wf(nodes, clock),
        nodes.contains_key(n),
    ensures
        close_order(nodes, clock, n).contains(x) <==> nodes.contains_key(x) && below(nodes, n, x),
    decreases clock - nodes[n].stamp, 1nat, 0nat,
{
    let k = nodes[n].children.len();
    let list = close_list(nodes, clock, n, k);
    lemma_close_list_members(nodes, clock, n, k, x);
    let order = list.push(n);
    assert(order == close_order(nodes, clock, n));
    if list.contains(x) {
        let i = choose|i: int| 0 <= i < list.len() && list[i] == x;
        assert(order[i] == x);
        let j = choose|j: int| 0 <= j < k && below(nodes, #[trigger] nodes[n].children[j], x);
        assert(child_at(nodes, n, j));
        lemma_below_child(nodes, clock, n, nodes[n].children[j], x);
    }
    if x == n {
        assert(order[list.len() as int] == x);
    }
    if order.contains(x) && x != n {
        let i = choose|i: int| 0 <= i < order.len() && order[i] == x;
        assert(list[i] == x);
    }
    if nodes.contains_key(x) && below(nodes, n, x) && x != n {
        let j = lemma_below_some_child(nodes, clock, n, x);
        assert(below(nodes, nodes[n].children[j], x));
    }
}

proof fn lemma_close_list_members(nodes: Nodes, clock: nat, n: NodeId, k: nat, x: NodeId)
    requires
        nodes_wf(nodes, clock),
        nodes.contains_key(n),
        k <= nodes[n].children.len(),
    ensures
        close_list(nodes, clock, n, k).contains(x) <==> nodes.contains_key(x) && exists|j: int|
            0 <= j < k && below(nodes, #[trigger] nodes[n].children[j], x),
    decreases clock - nodes[n].stamp, 0nat, k,
{
    if k > 0 {
        let c = nodes[n].children[k - 1];
        assert(child_at(nodes, n, k - 1));
        let first = close_order(nodes, clock, c);
        let rest = close_list(nodes, clock, n, (k - 1) as nat);
        law_close_order_members(nodes, clock, c, x);
        lemma_close_list_members(nodes, clock, n, (k - 1) as nat, x);
        let list = close_list(nodes, clock, n, k);
        assert(list == first + rest);
        if first.contains(x) {
            let i = choose|i: int| 0 <= i < first.len() && first[i] == x;
            assert(list[i] == x);
            assert(below(nodes, nodes[n].children[k - 1], x));
        }
        if rest.contains(x) {
            let i = choose|i: int| 0 <= i < rest.len() && rest[i] == x;
            assert(list[first.len() + i] == x);
        }
        if list.contains(x) {
            let i = choose|i: int| 0 <= i < list.len() && list[i] == x;
            if i < first.len() {
                assert(first[i] == x);
            } else {
                assert(rest[i - first.len()] == x);
            }
        }
        if nodes.contains_key(x) && exists|j: int|
            0 <= j < k && below(nodes, #[trigger] nodes[n].children[j], x) {
            let j = choose|j: int| 0 <= j < k && below(nodes, #[trigger] nodes[n].children[j], x);
            if j < k - 1 {
                assert(below(nodes, nodes[n].children[j], x));
            }
        }
    }
}

/// Whether no scope in `s` comes behind the one that it is directly below.
pub open spec fn children_first(nodes: Nodes, s: Seq<NodeId>) -> bool {
    forall|i: int, j: int|
        0 <= i < s.len() && 0 <= j < s.len() && nodes[#[trigger] s[i]].parent == Some(
            #[trigger] s[j],
        ) ==> i < j
}

/// Every scope is closed once, and after all that are below it.
pub proof fn law_close_order_children_first(nodes: Nodes, clock: nat, n: NodeId)
    requires
        nodes_wf(nodes, clock),
        nodes.contains_key(n),
    ensures
        close_order(nodes, clock, n).no_duplicates(),
        children_first(nodes, close_order(nodes, clock, n)),
    decreases clock - nodes[n].stamp, 1nat, 0nat,
{
    let k = nodes[n].children.len();
    let list = close_list(nodes, clock, n, k);
    let order = list.push(n);
    assert(order == close_order(nodes, clock, n));
    lemma_close_list_children_first(nodes, clock, n, k);
    assert forall|i: int| 0 <= i < list.len() implies nodes.contains_key(#[trigger] list[i]) && below(
        nodes,
        n,
        list[i],
    ) && list[i] != n by {
        lemma_close_list_members(nodes, clock, n, k, list[i]);
        let j = choose|j: int| 0 <= j < k && below(nodes, #[trigger] nodes[n].children[j], list[i]);
        assert(child_at(nodes, n, j));
        lemma_below_child(nodes, clock, n, nodes[n].children[j], list[i]);
        lemma_below_stamp(nodes, nodes[n].children[j], list[i]);
    }
    assert forall|i: int, j: int|
        0 <= i < order.len() && 0 <= j < order.len() && nodes[#[trigger] order[i]].parent == Some(
            #[trigger] order[j],
        ) implies i < j by {
        if i == list.len() {
            assert(parent_ok(nodes, n));
            let p = order[j];
            let c = choose|c: int| 0 <= c < nodes[p].children.len() && nodes[p].children[c] == n;
            assert(child_at(nodes, p, c));
            if j < list.len() {
                assert(list[j] == p);
                lemma_below_stamp(nodes, n, p);
            }
        } else if j < list.len() {
            assert(list[i] == order[i] && list[j] == order[j]);
        }
    }
}

proof fn lemma_close_list_children_first(nodes: Nodes, clock: nat, n: NodeId, k: nat)
    requires
        nodes_wf(nodes, clock),
        nodes.contains_key(n),
        k <= nodes[n].children.len(),
    ensures
        close_list(nodes, clock, n, k).no_duplicates(),
        children_first(nodes, close_list(nodes, clock, n, k)),
    decreases clock - nodes[n].stamp, 0nat, k,
{
    if k > 0 {
        let c = nodes[n].children[k - 1];
        assert(child_at(nodes, n, k - 1));
        let first = close_order(nodes, clock, c);
        let rest = close_list(nodes, clock, n, (k - 1) as nat);
        let list = close_list(nodes, clock, n, k);
        assert(list == first + rest);
        law_close_order_children_first(nodes, clock, c);
        lemma_close_list_children_first(nodes, clock, n, (k - 1) as nat);
        assert forall|i: int| 0 <= i < first.len() implies nodes.contains_key(#[trigger] first[i])
            && below(nodes, c, first[i]) by {
            law_close_order_members(nodes, clock, c, first[i]);
        }
        assert forall|i: int| 0 <= i < rest.len() implies nodes.contains_key(#[trigger] rest[i])
            && !below(nodes, c, rest[i]) by {
            lemma_close_list_members(nodes, clock, n, (k - 1) as nat, rest[i]);
            let j = choose|j: int|
                0 <= j < k - 1 && below(nodes, #[trigger] nodes[n].children[j], rest[i]);
            lemma_siblings_apart(nodes, clock, n, j, k - 1, rest[i]);
        }
        assert forall|i: int, j: int| 0 <= i < list.len() && 0 <= j < list.len() && i != j implies
            #[trigger] list[i] != #[trigger] list[j] by {
            if i < first.len() && j < first.len() {
                assert(list[i] == first[i] && list[j] == first[j]);
            } else if i >= first.len() && j >= first.len() {
                assert(list[i] == rest[i - first.len()] && list[j] == rest[j - first.len()]);
            } else if i < first.len() {
                assert(list[i] == first[i] && list[j] == rest[j - first.len()]);
            } else {
                assert(list[i] == rest[i - first.len()] && list[j] == first[j]);
            }
        }
        assert forall|i: int, j: int|
            0 <= i < list.len() && 0 <= j < list.len() && nodes[#[trigger] list[i]].parent == Some(
                #[trigger] list[j],
            ) implies i < j by {
            if i < first.len() && j < first.len() {
                assert(list[i] == first[i] && list[j] == first[j]);
            } else if i >= first.len() && j >= first.len() {
                assert(list[i] == rest[i - first.len()] && list[j] == rest[j - first.len()]);
            } else if i >= first.len() {
                let x = rest[i - first.len()];
                assert(list[i] == x && list[j] == first[j]);
                assert(parent_ok(nodes, x));
                let p = first[j];
                let m = choose|m: int| 0 <= m < nodes[p].children.len() && nodes[p].children[m] == x;
                assert(child_at(nodes, p, m));
                assert(below(nodes, c, x));
            }
        }
    }
}

/// Whether one scope is below another depends on who is below whom alone.
pub proof fn lemma_below_same(a: Nodes, b: Nodes, n: NodeId, x: NodeId)
    requires
        forall|m: NodeId| #[trigger] b.contains_key(m) == a.contains_key(m),
        forall|m: NodeId|
            #![trigger b[m]]
            #![trigger a[m]]
            b[m].parent == a[m].parent && b[m].stamp == a[m].stamp,
    ensures
        below(b, n, x) == below(a, n, x),
    decreases a[x].stamp,
{
    assert(b[x].parent == a[x].parent);
    if x != n && a[x].parent is Some {
        let p = a[x].parent->0;
        assert(b[p].stamp == a[p].stamp);
        if a.contains_key(p) && a[p].stamp < a[x].stamp {
            lemma_below_same(a, b, n, p);
        }
    }
}

/// A closing order does not depend on scopes outside it.
proof fn lemma_close_order_frame(a: Nodes, b: Nodes, clock: nat, n: NodeId)
    requires
        nodes_wf(a, clock),
        a.contains_key(n),
        forall|x: NodeId| #[trigger]
            a.contains_key(x) && below(a, n, x) ==> b[x].children == a[x].children && b[x].stamp
                == a[x].stamp,
    ensures
        close_order(b, clock, n) == close_order(a, clock, n),
    decreases clock - a[n].stamp, 1nat, 0nat,
{
    assert(a.contains_key(n) && below(a, n, n));
    assert forall|x: NodeId, j: int|
        #![trigger below(a, a[n].children[j], x)]
        0 <= j < a[n].children.len() && a.contains_key(x) && below(
            a,
            a[n].children[j],
            x,
        ) implies b[x].children == a[x].children && b[x].stamp == a[x].stamp by {
        assert(child_at(a, n, j));
        lemma_below_child(a, clock, n, a[n].children[j], x);
    }
    lemma_close_list_frame(a, b, clock, n, a[n].children.len());
}

proof fn lemma_close_list_frame(a: Nodes, b: Nodes, clock: nat, n: NodeId, k: nat)
    requires
        nodes_wf(a, clock),
        a.contains_key(n),
        k <= a[n].children.len(),
        b[n].children == a[n].children,
        b[n].stamp == a[n].stamp,
        forall|x: NodeId, j: int|
            #![trigger below(a, a[n].children[j], x)]
            0 <= j < k && a.contains_key(x) && below(a, a[n].children[j], x) ==> b[x].children
                == a[x].children && b[x].stamp == a[x].stamp,
    ensures
        close_list(b, clock, n, k) == close_list(a, clock, n, k),
    decreases clock - a[n].stamp, 0nat, k,
{
    if k > 0 {
        let c = a[n].children[k - 1];
        assert(child_at(a, n, k - 1));
        assert forall|x: NodeId| #[trigger] a.contains_key(x) && below(a, c, x) implies b[x].children
            == a[x].children && b[x].stamp == a[x].stamp by {
            assert(below(a, a[n].children[k - 1], x));
        }
        lemma_close_order_frame(a, b, clock, c);
        lemma_close_list_frame(a, b, clock, n, (k - 1) as nat);
        assert(a.contains_key(c) && below(a, c, c));
    }
}

/// `s` without `x`.
pub open spec fn without(s: Seq<NodeId>, x: NodeId) -> Seq<NodeId> {
    s.remove(s.index_of(x))
}

/// A scope that is closed, apart from all others.
pub open spec fn closed_node(node: NodeView) -> NodeView {
    NodeView { parent: None, children: Seq::empty(), closed: true, ..node }
}

impl TreeView {
    /// Parents and children agree, the closed scopes are those that wait, and every scope that
    /// is not closed hangs below the root.
    pub open spec fn wf(&self) -> bool {
        &&& nodes_wf(self.nodes, self.clock)
        &&& self.nodes.dom().finite()
        &&& self.nodes.contains_key(self.root)
        &&& !self.nodes[self.root].closed
        &&& forall|n: NodeId| #[trigger]
            self.nodes.contains_key(n) ==> {
                &&& self.nodes[n].closed <==> self.pending.contains(n)
                &&& self.nodes[n].parent is None <==> (self.nodes[n].closed || n == self.root)
            }
        &&& self.pending.no_duplicates()
        &&& forall|i: int|
            0 <= i < self.pending.len() ==> self.nodes.contains_key(#[trigger] self.pending[i])
    }

    /// The tree after the scope `c` was opened below `p`.
    pub open spec fn with_child(&self, p: NodeId, c: NodeId, addr: usize) -> TreeView {
        TreeView {
            nodes: self.nodes.insert(
                p,
                NodeView { children: self.nodes[p].children.push(c), ..self.nodes[p] },
            ).insert(c, NodeView::fresh(Some(p), addr, self.clock)),
            clock: self.clock + 1,
            ..*self
        }
    }

    /// The tree after `n`, which has nothing below it, was taken from its parent and closed.
    pub open spec fn with_closed(&self, n: NodeId) -> TreeView {
        let p = self.nodes[n].parent->0;
        TreeView {
            nodes: self.nodes.insert(
                p,
                NodeView { children: without(self.nodes[p].children, n), ..self.nodes[p] },
            ).insert(n, NodeView { parent: None, closed: true, ..self.nodes[n] }),
            pending: self.pending.push(n),
            ..*self
        }
    }

    /// The tree after `n` and all below it were closed: each apart from all others, and in line
    /// behind those that waited already.
    pub open spec fn closed_below(&self, n: NodeId) -> TreeView {
        let p = self.nodes[n].parent;
        TreeView {
            nodes: Map::new(
                |m: NodeId| self.nodes.contains_key(m),
                |m: NodeId|
                    if below(self.nodes, n, m) {
                        closed_node(self.nodes[m])
                    } else if p == Some(m) {
                        NodeView {
                            children: without(self.nodes[m].children, n),
                            ..self.nodes[m]
                        }
                    } else {
                        self.nodes[m]
                    },
            ),
            pending: self.pending + close_order(self.nodes, self.clock, n),
            ..*self
        }
    }

    /// The tree with what is in the scope `n` replaced.
    pub open spec fn with_content(&self, n: NodeId, content: super::node_::ContentView) -> TreeView {
        TreeView {
            nodes: self.nodes.insert(n, NodeView { content, ..self.nodes[n] }),
            ..*self
        }
    }

    /// The tree after the handle of `n` went.
    pub open spec fn with_dropped(&self, n: NodeId) -> TreeView {
        TreeView {
            nodes: self.nodes.insert(n, NodeView { dropped: true, ..self.nodes[n] }),
            ..*self
        }
    }

    /// The tree without the scope `n`, which waited to be reclaimed.
    pub open spec fn without_node(&self, n: NodeId) -> TreeView {
        TreeView {
            nodes: self.nodes.remove(n),
            pending: without(self.pending, n),
            ..*self
        }
    }
}

/// Whether one gets from `n` to `l` by going down to the youngest child again and again.
pub open spec fn on_spine(nodes: Nodes, clock: nat, n: NodeId, l: NodeId) -> bool
    decreases clock - nodes[n].stamp,
{
    n == l || {
        let c = nodes[n].children.last();
        nodes[n].children.len() > 0 && nodes[n].stamp < nodes[c].stamp < clock && on_spine(
            nodes,
            clock,
            c,
            l,
        )
    }
}

/// What is on the way down is below.
pub proof fn lemma_spine_below(nodes: Nodes, clock: nat, n: NodeId, l: NodeId)
    requires
        nodes_wf(nodes, clock),
        nodes.contains_key(n),
        on_spine(nodes, clock, n, l),
    ensures
        nodes.contains_key(l),
        below(nodes, n, l),
    decreases clock - nodes[n].stamp,
{
    if n != l {
        let c = nodes[n].children.last();
        assert(child_at(nodes, n, nodes[n].children.len() - 1));
        lemma_spine_below(nodes, clock, c, l);
        lemma_below_child(nodes, clock, n, c, l);
    }
}

/// One more step down stays on the way.
pub proof fn lemma_spine_step(nodes: Nodes, clock: nat, n: NodeId, l: NodeId)
    requires
        nodes_wf(nodes, clock),
        nodes.contains_key(n),
        on_spine(nodes, clock, n, l),
        nodes[l].children.len() > 0,
    ensures
        on_spine(nodes, clock, n, nodes[l].children.last()),
    decreases clock - nodes[n].stamp,
{
    lemma_spine_below(nodes, clock, n, l);
    if n != l {
        let c = nodes[n].children.last();
        assert(child_at(nodes, n, nodes[n].children.len() - 1));
        lemma_spine_step(nodes, clock, c, l);
    } else {
        let c = nodes[l].children.last();
        assert(child_at(nodes, l, nodes[l].children.len() - 1));
        assert(on_spine(nodes, clock, c, c));
    }
}

/// Closing a scope without children keeps the tree sound.
pub proof fn lemma_with_closed_wf(t: TreeView, l: NodeId)
    requires
        t.wf(),
        t.nodes.contains_key(l),
        t.nodes[l].parent is Some,
    ensures
        t.with_closed(l).wf(),
{
    let p = t.nodes[l].parent->0;
    let s = t.nodes[p].children;
    let u = t.with_closed(l);
    assert(parent_ok(t.nodes, l));
    let k = s.index_of(l);
    assert(0 <= k < s.len() && s[k] == l);
    assert(p != l) by {
        assert(child_at(t.nodes, p, k));
    }
    assert(u.nodes[p].children =~= s.remove(k));
    assert forall|q: NodeId, i: int|
        u.nodes.contains_key(q) && 0 <= i < u.nodes[q].children.len() implies #[trigger] child_at(
        u.nodes,
        q,
        i,
    ) by {
        let j = if q == p && i >= k {
            i + 1
        } else {
            i
        };
        assert(child_at(t.nodes, q, j));
        assert(u.nodes[q].children[i] == t.nodes[q].children[j]);
        assert(u.nodes[q].children[i] != l) by {
            if q == p {
                assert(j != k);
            }
        }
    }
    assert forall|c: NodeId| #[trigger] u.nodes.contains_key(c) implies parent_ok(u.nodes, c) by {
        assert(parent_ok(t.nodes, c));
        if c != l && t.nodes[c].parent == Some(p) {
            let j = choose|j: int| 0 <= j < s.len() && s[j] == c;
            let i = if j < k {
                j
            } else {
                j - 1
            };
            assert(u.nodes[p].children[i] == c);
        }
    }
    assert(u.nodes[p].children.no_duplicates());
    assert forall|n: NodeId| #[trigger] u.nodes.contains_key(n) implies {
        &&& u.nodes[n].closed <==> u.pending.contains(n)
        &&& u.nodes[n].parent is None <==> (u.nodes[n].closed || n == u.root)
    } by {
        if u.pending.contains(n) && n != l {
            let i = choose|i: int| 0 <= i < u.pending.len() && u.pending[i] == n;
            assert(t.pending[i] == n);
        }
        if t.pending.contains(n) {
            let i = choose|i: int| 0 <= i < t.pending.len() && t.pending[i] == n;
            assert(u.pending[i] == n);
        }
        if n == l {
            assert(u.pending[t.pending.len() as int] == n);
        }
    }
    assert(!t.pending.contains(l));
    assert(u.pending.no_duplicates());
    assert forall|i: int| 0 <= i < u.pending.len() implies u.nodes.contains_key(
        #[trigger] u.pending[i],
    ) by {
        if i < t.pending.len() {
            assert(t.nodes.contains_key(t.pending[i]));
        }
    }
}

/// Closing the youngest scope at the end of the way down takes it off the front of the closing
/// order.
proof fn lemma_close_order_step(t: TreeView, n: NodeId, l: NodeId)
    requires
        t.wf(),
        t.nodes.contains_key(n),
        on_spine(t.nodes, t.clock, n, l),
        t.nodes[l].children.len() == 0,
        l != n,
    ensures
        close_order(t.nodes, t.clock, n) == seq![l] + close_order(
            t.with_closed(l).nodes,
            t.clock,
            n,
        ),
    decreases t.clock - t.nodes[n].stamp,
{
    let a = t.nodes;
    let clock = t.clock;
    let u = t.with_closed(l);
    let b = u.nodes;
    let k = a[n].children.len();
    let c = a[n].children.last();
    assert(child_at(a, n, k - 1));
    lemma_spine_below(a, clock, n, l);
    lemma_spine_below(a, clock, c, l);
    let p = a[l].parent->0;
    assert(parent_ok(a, l));
    // What is below the elder children of `n` is not touched.
    assert forall|x: NodeId, j: int|
        #![trigger below(a, a[n].children[j], x)]
        0 <= j < k - 1 && a.contains_key(x) && below(a, a[n].children[j], x) implies b[x].children
        == a[x].children && b[x].stamp == a[x].stamp by {
        assert(child_at(a, n, j));
        lemma_siblings_apart(a, clock, n, k - 1, j, l);
        if x == p {
            if c == l {
                lemma_below_stamp(a, a[n].children[j], n);
            } else {
                assert(below(a, c, p));
                lemma_siblings_apart(a, clock, n, k - 1, j, p);
            }
        }
    }
    let rest = close_list(a, clock, n, (k - 1) as nat);
    assert(close_list(a, clock, n, k) == close_order(a, clock, c) + rest);
    if c == l {
        assert(a[n].children.index_of(l) == k - 1) by {
            let i = a[n].children.index_of(l);
            assert(a[n].children[k - 1] == l);
            assert(a[n].children[i] == l);
        }
        assert(b[n].children =~= a[n].children.drop_last());
        assert(close_list(a, clock, l, 0) =~= Seq::empty());
        assert(close_order(a, clock, l) =~= seq![l]);
        // The list of the elder children, read off the shortened row.
        lemma_close_list_prefix(a, b, clock, n, (k - 1) as nat);
        assert(close_order(b, clock, n) =~= rest.push(n));
        assert(close_order(a, clock, n) =~= seq![l] + rest.push(n));
    } else {
        lemma_close_order_step(t, c, l);
        assert(n != l);
        assert(n != p) by {
            if n == p {
                assert(below(a, c, n));
                lemma_below_stamp(a, c, n);
            }
        }
        assert(b[n] == a[n]);
        lemma_close_list_frame(a, b, clock, n, (k - 1) as nat);
        let cb = close_order(b, clock, c);
        assert(b[c].stamp == a[c].stamp);
        assert(close_list(b, clock, n, k) == cb + rest);
        assert(close_order(a, clock, n) =~= (seq![l] + cb + rest).push(n));
        assert(close_order(b, clock, n) =~= (cb + rest).push(n));
        assert(close_order(a, clock, n) =~= seq![l] + close_order(b, clock, n));
    }
}

/// As [`lemma_close_list_frame`], where the row of children agrees in the part that counts.
proof fn lemma_close_list_prefix(a: Nodes, b: Nodes, clock: nat, n: NodeId, k: nat)
    requires
        nodes_wf(a, clock),
        a.contains_key(n),
        k <= a[n].children.len(),
        k <= b[n].children.len(),
        forall|j: int| 0 <= j < k ==> b[n].children[j] == #[trigger] a[n].children[j],
        b[n].stamp == a[n].stamp,
        forall|x: NodeId, j: int|
            #![trigger below(a, a[n].children[j], x)]
            0 <= j < k && a.contains_key(x) && below(a, a[n].children[j], x) ==> b[x].children
                == a[x].children && b[x].stamp == a[x].stamp,
    ensures
        close_list(b, clock, n, k) == close_list(a, clock, n, k),
    decreases k,
{
    if k > 0 {
        let c = a[n].children[k - 1];
        assert(child_at(a, n, k - 1));
        assert forall|x: NodeId| #[trigger] a.contains_key(x) && below(a, c, x) implies b[x].children
            == a[x].children && b[x].stamp == a[x].stamp by {
            assert(below(a, a[n].children[k - 1], x));
        }
        lemma_close_order_frame(a, b, clock, c);
        lemma_close_list_prefix(a, b, clock, n, (k - 1) as nat);
        assert(a.contains_key(c) && below(a, c, c));
    }
}

/// When the scope at the end of the way down is closed, its parent is on the way.
proof fn lemma_spine_parent(t: TreeView, n: NodeId, l: NodeId)
    requires
        t.wf(),
        t.nodes.contains_key(n),
        on_spine(t.nodes, t.clock, n, l),
        l != n,
    ensures
        on_spine(t.with_closed(l).nodes, t.clock, n, t.nodes[l].parent->0),
    decreases t.clock - t.nodes[n].stamp,
{
    let a = t.nodes;
    let c = a[n].children.last();
    let p = a[l].parent->0;
    assert(child_at(a, n, a[n].children.len() - 1));
    lemma_spine_below(a, t.clock, c, l);
    assert(parent_ok(a, l));
    if c != l {
        lemma_spine_parent(t, c, l);
        assert(n != p) by {
            if n == p {
                assert(below(a, c, n));
                lemma_below_stamp(a, c, n);
            }
        }
        lemma_below_child(a, t.clock, n, c, l);
        lemma_below_stamp(a, n, l);
    }
}

/// Closing the youngest scope at the end of the way down leaves the goal where it was.
pub proof fn lemma_close_step(t: TreeView, n: NodeId, l: NodeId)
    requires
        t.wf(),
        t.nodes.contains_key(n),
        t.nodes[n].parent is Some,
        on_spine(t.nodes, t.clock, n, l),
        t.nodes[l].children.len() == 0,
        l != n,
    ensures
        t.with_closed(l).wf(),
        t.with_closed(l).nodes.contains_key(n),
        t.with_closed(l).nodes[n].parent == t.nodes[n].parent,
        t.with_closed(l).closed_below(n) == t.closed_below(n),
        close_order(t.with_closed(l).nodes, t.clock, n).len() < close_order(
            t.nodes,
            t.clock,
            n,
        ).len(),
        on_spine(t.with_closed(l).nodes, t.clock, n, t.nodes[l].parent->0),
{
    let u = t.with_closed(l);
    lemma_spine_parent(t, n, l);
    lemma_spine_below(t.nodes, t.clock, n, l);
    lemma_below_stamp(t.nodes, n, l);
    let p = t.nodes[l].parent->0;
    assert(parent_ok(t.nodes, l));
    lemma_with_closed_wf(t, l);
    lemma_close_order_step(t, n, l);
    let order_t = close_order(t.nodes, t.clock, n);
    let order_u = close_order(u.nodes, t.clock, n);
    let x = t.closed_below(n);
    let y = u.closed_below(n);
    assert(y.pending =~= x.pending);
    assert forall|m: NodeId| t.nodes.contains_key(m) && m != l implies below(t.nodes, n, m)
        == #[trigger] below(u.nodes, n, m) by {
        law_close_order_members(t.nodes, t.clock, n, m);
        law_close_order_members(u.nodes, t.clock, n, m);
        if order_t.contains(m) {
            let i = choose|i: int| 0 <= i < order_t.len() && order_t[i] == m;
            assert(order_u[i - 1] == m);
        }
        if order_u.contains(m) {
            let i = choose|i: int| 0 <= i < order_u.len() && order_u[i] == m;
            assert(order_t[i + 1] == m);
        }
    }
    assert(!below(u.nodes, n, l));
    assert(t.nodes[n].parent != Some(l)) by {
        if t.nodes[n].parent == Some(l) {
            assert(parent_ok(t.nodes, n));
            let i = choose|i: int| 0 <= i < t.nodes[l].children.len() && t.nodes[l].children[i] == n;
        }
    }
    assert(t.nodes[l].children =~= Seq::empty());
    assert forall|m: NodeId| x.nodes.contains_key(m) implies #[trigger] x.nodes[m] == y.nodes[m] by {
        if m != l {
            assert(below(t.nodes, n, m) == below(u.nodes, n, m));
            if m == p {
                assert(below(t.nodes, n, p));
            }
        }
    }
    assert(x.nodes =~= y.nodes);
    assert(x =~= y);
}

/// A scope with nothing below it is closed by closing it.
pub proof fn lemma_close_last(t: TreeView, n: NodeId)
    requires
        t.wf(),
        t.nodes.contains_key(n),
        t.nodes[n].parent is Some,
        t.nodes[n].children.len() == 0,
    ensures
        t.with_closed(n).wf(),
        t.with_closed(n) == t.closed_below(n),
{
    lemma_with_closed_wf(t, n);
    let x = t.with_closed(n);
    let y = t.closed_below(n);
    let p = t.nodes[n].parent->0;
    assert(parent_ok(t.nodes, n));
    assert(p != n) by {
        let i = choose|i: int| 0 <= i < t.nodes[p].children.len() && t.nodes[p].children[i] == n;
        assert(child_at(t.nodes, p, i));
    }
    assert(close_list(t.nodes, t.clock, n, 0) =~= Seq::empty());
    assert(close_order(t.nodes, t.clock, n) =~= seq![n]);
    assert(x.pending =~= y.pending);
    assert(t.nodes[n].children =~= Seq::empty());
    assert forall|m: NodeId| t.nodes.contains_key(m) && m != n implies !#[trigger] below(
        t.nodes,
        n,
        m,
    ) by {
        if below(t.nodes, n, m) {
            let i = lemma_below_some_child(t.nodes, t.clock, n, m);
        }
    }
    assert forall|m: NodeId| x.nodes.contains_key(m) implies #[trigger] x.nodes[m] == y.nodes[m] by {
        if m != n {
            assert(!below(t.nodes, n, m));
        }
    }
    assert(x.nodes =~= y.nodes);
    assert(x =~= y);
}

/// Going down to the youngest child again and again ends at a scope with nothing below it.
proof fn lemma_spine_end(t: TreeView, n: NodeId, cur: NodeId) -> (l: NodeId)
    requires
        t.wf(),
        t.nodes.contains_key(n),
        t.nodes.contains_key(cur),
        on_spine(t.nodes, t.clock, n, cur),
    ensures
        t.nodes.contains_key(l),
        on_spine(t.nodes, t.clock, n, l),
        t.nodes[l].children.len() == 0,
    decreases t.clock - t.nodes[cur].stamp,
{
    if t.nodes[cur].children.len() == 0 {
        cur
    } else {
        let i = t.nodes[cur].children.len() - 1;
        assert(child_at(t.nodes, cur, i));
        lemma_spine_step(t.nodes, t.clock, n, cur);
        lemma_spine_end(t, n, t.nodes[cur].children[i])
    }
}

/// Closing a scope and all below it keeps the tree sound.
pub proof fn lemma_closed_below_wf(t: TreeView, n: NodeId)
    requires
        t.wf(),
        t.nodes.contains_key(n),
        t.nodes[n].parent is Some,
    ensures
        t.closed_below(n).wf(),
    decreases close_order(t.nodes, t.clock, n).len(),
{
    let l = lemma_spine_end(t, n, n);
    if l == n {
        lemma_close_last(t, n);
    } else {
        lemma_close_step(t, n, l);
        lemma_closed_below_wf(t.with_closed(l), n);
    }
}

/// A scope is below another exactly where the one above it is the other, or below the other.
pub proof fn law_below(nodes: Nodes, clock: nat, a: NodeId, x: NodeId)
    requires
        nodes_wf(nodes, clock),
        nodes.contains_key(x),
    ensures
        below(nodes, x, x),
        x != a && nodes[x].parent is None ==> !below(nodes, a, x),
        x != a && nodes[x].parent is Some ==> below(nodes, a, x) == below(
            nodes,
            a,
            nodes[x].parent->0,
        ),
        closed_above(nodes, x) <==> nodes[x].closed || (nodes[x].parent is Some && closed_above(
            nodes,
            nodes[x].parent->0,
        )),
{
    lemma_parent_is_older(nodes, clock, x);
}

/// Whether `x` and `y` are below the same scope, directly, and `y` is the younger.
pub open spec fn younger(nodes: Nodes, x: NodeId, y: NodeId) -> bool {
    exists|p: NodeId, i: int, j: int|
        {
            &&& nodes.contains_key(p)
            &&& 0 <= i < j < nodes[p].children.len()
            &&& #[trigger] nodes[p].children[i] == x
            &&& #[trigger] nodes[p].children[j] == y
        }
}

/// Whether no scope in `s` comes before a younger one that is directly below the same scope.
pub open spec fn youngest_first(nodes: Nodes, s: Seq<NodeId>) -> bool {
    forall|i: int, j: int|
        0 <= i < s.len() && 0 <= j < s.len() && #[trigger] younger(nodes, s[i], s[j]) ==> j < i
}

/// Of two scopes that are directly below the same one, the younger is closed first.
pub proof fn law_close_order_youngest_first(nodes: Nodes, clock: nat, n: NodeId)
    requires
        nodes_wf(nodes, clock),
        nodes.contains_key(n),
    ensures
        youngest_first(nodes, close_order(nodes, clock, n)),
    decreases clock - nodes[n].stamp, 1nat, 0nat,
{
    let k = nodes[n].children.len();
    let list = close_list(nodes, clock, n, k);
    let order = list.push(n);
    lemma_close_list_youngest_first(nodes, clock, n, k);
    assert forall|i: int, j: int|
        0 <= i < order.len() && 0 <= j < order.len() && #[trigger] younger(
            nodes,
            order[i],
            order[j],
        ) implies j < i by {
        let (p, x, y) = choose|p: NodeId, x: int, y: int|
            {
                &&& nodes.contains_key(p)
                &&& 0 <= x < y < nodes[p].children.len()
                &&& #[trigger] nodes[p].children[x] == order[i]
                &&& #[trigger] nodes[p].children[y] == order[j]
            };
        assert(child_at(nodes, p, x) && child_at(nodes, p, y));
        assert(order[i] != order[j]);
        if i == list.len() || j == list.len() {
            let other = if i == list.len() {
                order[j]
            } else {
                order[i]
            };
            assert(list.contains(other)) by {
                if i == list.len() {
                    assert(list[j] == other);
                } else {
                    assert(list[i] == other);
                }
            }
            lemma_close_list_members(nodes, clock, n, k, other);
            let c = choose|c: int| 0 <= c < k && below(nodes, #[trigger] nodes[n].children[c], other);
            assert(child_at(nodes, n, c));
            lemma_below_child(nodes, clock, n, nodes[n].children[c], other);
            assert(below(nodes, n, other) && other != n);
            assert(below(nodes, n, p));
            lemma_below_stamp(nodes, n, p);
        } else {
            assert(younger(nodes, list[i], list[j]));
        }
    }
}

proof fn lemma_close_list_youngest_first(nodes: Nodes, clock: nat, n: NodeId, k: nat)
    requires
        nodes_wf(nodes, clock),
        nodes.contains_key(n),
        k <= nodes[n].children.len(),
    ensures
        youngest_first(nodes, close_list(nodes, clock, n, k)),
    decreases clock - nodes[n].stamp, 0nat, k,
{
    if k > 0 {
        let c = nodes[n].children[k - 1];
        assert(child_at(nodes, n, k - 1));
        let first = close_order(nodes, clock, c);
        let rest = close_list(nodes, clock, n, (k - 1) as nat);
        let list = close_list(nodes, clock, n, k);
        assert(list == first + rest);
        law_close_order_youngest_first(nodes, clock, c);
        lemma_close_list_youngest_first(nodes, clock, n, (k - 1) as nat);
        assert forall|i: int, j: int|
            0 <= i < list.len() && 0 <= j < list.len() && #[trigger] younger(
                nodes,
                list[i],
                list[j],
            ) implies j < i by {
            if i < first.len() && j < first.len() {
                assert(younger(nodes, first[i], first[j]));
            } else if i >= first.len() && j >= first.len() {
                assert(younger(nodes, rest[i - first.len()], rest[j - first.len()]));
            } else if i < first.len() {
                let x = first[i];
                let y = rest[j - first.len()];
                let (p, a, b) = choose|p: NodeId, a: int, b: int|
                    {
                        &&& nodes.contains_key(p)
                        &&& 0 <= a < b < nodes[p].children.len()
                        &&& #[trigger] nodes[p].children[a] == x
                        &&& #[trigger] nodes[p].children[b] == y
                    };
                assert(child_at(nodes, p, a) && child_at(nodes, p, b));
                assert(first.contains(x));
                law_close_order_members(nodes, clock, c, x);
                assert(rest.contains(y));
                lemma_close_list_members(nodes, clock, n, (k - 1) as nat, y);
                let m = choose|m: int|
                    0 <= m < k - 1 && below(nodes, #[trigger] nodes[n].children[m], y);
                if x == c {
                    assert(p == n);
                    assert(a == k - 1);
                    assert(below(nodes, nodes[n].children[b], y));
                    lemma_siblings_apart(nodes, clock, n, m, b, y);
                } else {
                    assert(below(nodes, c, p));
                    assert(below(nodes, c, y));
                    lemma_siblings_apart(nodes, clock, n, m, k - 1, y);
                }
            }
        }
    }
}

} // verus!
