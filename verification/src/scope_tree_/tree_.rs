//! The tree of scopes: opening, closing, and the line of those that wait to be reclaimed.

use vstd::prelude::*;

use crate::slab_::Slab;

use super::node_::{ContentView, NodeId, NodeView, ScopeContent, ScopeNode};
use super::order_::{
    child_at, close_order, lemma_close_last, lemma_close_step, lemma_spine_below, lemma_spine_step,
    lemma_with_closed_wf, on_spine, parent_ok, without, Nodes, TreeView,
};

verus! {

/// The nodes as they are stored.
type Raw = Map<NodeId, ScopeNode>;

/// The `i`-th entry, if there is one.
pub open spec fn opt_at(s: Seq<NodeId>, i: int) -> Option<NodeId> {
    if 0 <= i < s.len() {
        Some(s[i])
    } else {
        None
    }
}

/// The `i`-th child of `p` knows its siblings on both sides.
spec fn sibling_at(raw: Raw, p: NodeId, i: int) -> bool {
    let s = raw[p].children_@;
    let c = raw[s[i]].scope_ext_;
    c.prev_sibling_ == opt_at(s, i - 1) && c.next_sibling_ == opt_at(s, i + 1)
}

/// A scope knows its first and its last child.
spec fn ends_at(raw: Raw, p: NodeId) -> bool {
    let s = raw[p].children_@;
    raw[p].node_base_@.child_head == opt_at(s, 0) && raw[p].node_base_@.child_tail == opt_at(
        s,
        s.len() - 1,
    )
}

/// The `i`-th scope that waits knows the one behind it.
spec fn waiting_at(raw: Raw, pending: Seq<NodeId>, i: int) -> bool {
    raw[pending[i]].scope_ext_.pending_next_ == opt_at(pending, i + 1)
}

/// The links between the nodes are those that their rows of children ask for.
spec fn links_wf(raw: Raw) -> bool {
    &&& forall|p: NodeId, i: int|
        raw.contains_key(p) && 0 <= i < raw[p].children_@.len() ==> #[trigger] sibling_at(raw, p, i)
    &&& forall|p: NodeId| #[trigger] raw.contains_key(p) ==> ends_at(raw, p)
}

/// The links between the scopes that wait are those that their line asks for.
spec fn line_wf(raw: Raw, pending: Seq<NodeId>) -> bool {
    forall|i: int| 0 <= i < pending.len() ==> #[trigger] waiting_at(raw, pending, i)
}

/// What is stored, as it is spoken of in contracts.
spec fn raw_view(raw: Raw) -> Nodes {
    raw.map_values(|node: ScopeNode| node@)
}

/// Whether two nodes have the same place in the tree and in the line.
spec fn same_place(a: ScopeNode, b: ScopeNode) -> bool {
    &&& a.node_base_@ == b.node_base_@
    &&& a.scope_ext_.prev_sibling_ == b.scope_ext_.prev_sibling_
    &&& a.scope_ext_.next_sibling_ == b.scope_ext_.next_sibling_
    &&& a.scope_ext_.pending_next_ == b.scope_ext_.pending_next_
    &&& a.children_ == b.children_
}

/// The links stay as they are when a node is replaced by one with the same place.
proof fn lemma_place_kept(raw: Raw, pending: Seq<NodeId>, n: NodeId, node: ScopeNode)
    requires
        links_wf(raw),
        line_wf(raw, pending),
        raw.contains_key(n),
        same_place(node, raw[n]),
    ensures
        links_wf(raw.insert(n, node)),
        line_wf(raw.insert(n, node), pending),
{
    let next = raw.insert(n, node);
    assert forall|p: NodeId, i: int|
        next.contains_key(p) && 0 <= i < next[p].children_@.len() implies #[trigger] sibling_at(
        next,
        p,
        i,
    ) by {
        assert(sibling_at(raw, p, i));
    }
    assert forall|p: NodeId| #[trigger] next.contains_key(p) implies ends_at(next, p) by {
        assert(raw.contains_key(p) && ends_at(raw, p));
    }
    assert forall|i: int| 0 <= i < pending.len() implies #[trigger] waiting_at(next, pending, i) by {
        assert(waiting_at(raw, pending, i));
    }
}

/// A tree stays sound when a scope changes in nothing that the tree is made of.
pub proof fn lemma_tree_kept(t: TreeView, n: NodeId, node: NodeView)
    requires
        t.wf(),
        t.nodes.contains_key(n),
        node.parent == t.nodes[n].parent,
        node.children == t.nodes[n].children,
        node.closed == t.nodes[n].closed,
        node.stamp == t.nodes[n].stamp,
    ensures
        (TreeView { nodes: t.nodes.insert(n, node), ..t }).wf(),
{
    let u = TreeView { nodes: t.nodes.insert(n, node), ..t };
    assert forall|p: NodeId, i: int|
        u.nodes.contains_key(p) && 0 <= i < u.nodes[p].children.len() implies #[trigger] child_at(
        u.nodes,
        p,
        i,
    ) by {
        assert(child_at(t.nodes, p, i));
    }
    assert forall|c: NodeId| #[trigger] u.nodes.contains_key(c) implies parent_ok(u.nodes, c) by {
        assert(parent_ok(t.nodes, c));
    }
    assert forall|i: int| 0 <= i < u.pending.len() implies u.nodes.contains_key(
        #[trigger] u.pending[i],
    ) by {
        assert(t.nodes.contains_key(t.pending[i]));
    }
}

/// The scopes, linked to their parents, children and siblings.
pub struct ScopeTree {
    nodes_: Slab<ScopeNode>,
    root_: NodeId,
    pending_head_: Option<NodeId>,
    pending_tail_: Option<NodeId>,
    pending_: Ghost<Seq<NodeId>>,
    clock_: Ghost<nat>,
}

impl View for ScopeTree {
    type V = TreeView;

    closed spec fn view(&self) -> TreeView {
        TreeView {
            nodes: raw_view(self.nodes_@),
            root: self.root_,
            pending: self.pending_@,
            clock: self.clock_@,
        }
    }
}

impl ScopeTree {
    pub closed spec fn wf(&self) -> bool {
        &&& self@.wf()
        &&& self.nodes_.wf()
        &&& links_wf(self.nodes_@)
        &&& line_wf(self.nodes_@, self.pending_@)
        &&& self.pending_head_ == opt_at(self.pending_@, 0)
        &&& self.pending_tail_ == opt_at(self.pending_@, self.pending_@.len() - 1)
        &&& forall|n: NodeId| #[trigger]
            self.nodes_@.contains_key(n) ==> self.nodes_@[n].scope_ext_.content_.wf()
    }

    /// What the tree's invariant says of its view.
    pub broadcast proof fn lemma_view_wf(&self)
        ensures
            #[trigger] self.wf() ==> self@.wf(),
    {
    }

    /// The tree of a root alone.
    pub fn new(addr: usize) -> (r: Self)
        ensures
            r.wf(),
            r@.nodes == Map::<NodeId, NodeView>::empty().insert(
                r@.root,
                NodeView::fresh(None, addr, 0),
            ),
            r@.pending == Seq::<NodeId>::empty(),
            r@.clock == 1,
    {
        let mut nodes: Slab<ScopeNode> = Slab::new();
        let root: NodeId = nodes.insert(ScopeNode::child_of_(None, addr, Ghost(0)));
        let r = ScopeTree {
            nodes_: nodes,
            root_: root,
            pending_head_: None,
            pending_tail_: None,
            pending_: Ghost(Seq::empty()),
            clock_: Ghost(1),
        };
        assert(r@.nodes =~= Map::<NodeId, NodeView>::empty().insert(
            root,
            NodeView::fresh(None, addr, 0),
        ));
        r
    }

    /// The key of the root.
    pub fn root(&self) -> (r: NodeId)
        ensures
            r == self@.root,
    {
        self.root_
    }

    pub fn contains(&self, n: NodeId) -> (r: bool)
        ensures
            r == self@.nodes.contains_key(n),
    {
        self.nodes_.contains(n)
    }

    /// The scope `n`.
    pub fn node(&self, n: NodeId) -> (r: &ScopeNode)
        requires
            self.wf(),
            self@.nodes.contains_key(n),
        ensures
            r@ == self@.nodes[n],
            r.scope_ext_.content_.wf(),
    {
        self.nodes_.get(n)
    }

    /// Whether there is no scope below `n`.
    pub fn is_leaf(&self, n: NodeId) -> (r: bool)
        requires
            self.wf(),
            self@.nodes.contains_key(n),
        ensures
            r == (self@.nodes[n].children.len() == 0),
    {
        assert(ends_at(self.nodes_@, n));
        self.nodes_.get(n).node_base_.child_tail().is_none()
    }

    /// The first scope that waits to be reclaimed.
    pub fn pending_head(&self) -> (r: Option<NodeId>)
        requires
            self.wf(),
        ensures
            r == opt_at(self@.pending, 0),
    {
        self.pending_head_
    }

    /// The scope that waits behind `n`, the `i`-th in line.
    pub(crate) fn pending_next(&self, n: NodeId, Ghost(i): Ghost<int>) -> (r: Option<NodeId>)
        requires
            self.wf(),
            0 <= i < self@.pending.len(),
            self@.pending[i] == n,
        ensures
            r == opt_at(self@.pending, i + 1),
    {
        assert(waiting_at(self.nodes_@, self.pending_@, i));
        self.nodes_.get(n).scope_ext_.pending_next_
    }

    /// What is in the scope `n`, to change.
    pub fn content_mut(&mut self, n: NodeId) -> (r: &mut ScopeContent)
        requires
            old(self).wf(),
            old(self)@.nodes.contains_key(n),
        ensures
            r@ == old(self)@.nodes[n].content,
            r.wf(),
            final(r).wf() ==> final(self).wf(),
            final(self)@ == old(self)@.with_content(n, final(r)@),
    {
        let ghost before = *self;
        proof {
            assert forall|node: ScopeNode|
                same_place(node, before.nodes_@[n]) implies links_wf(
                #[trigger] before.nodes_@.insert(n, node),
            ) && line_wf(before.nodes_@.insert(n, node), before.pending_@) by {
                lemma_place_kept(before.nodes_@, before.pending_@, n, node);
            }
            assert forall|content: ContentView| (
            #[trigger] before@.with_content(n, content)).wf() by {
                lemma_tree_kept(before@, n, NodeView { content, ..before@.nodes[n] });
            }
        }
        let node = self.nodes_.get_mut(n);
        let content = &mut node.scope_ext_.content_;
        assert(after_borrow(*self)@ =~= before@.with_content(n, (*final(content))@));
        content
    }

    /// Notes that the handle of `n` is gone.
    pub fn mark_handle_dropped_(&mut self, n: NodeId)
        requires
            old(self).wf(),
            old(self)@.nodes.contains_key(n),
        ensures
            final(self).wf(),
            final(self)@ == old(self)@.with_dropped(n),
    {
        let ghost before = *self;
        let node = self.nodes_.get_mut(n);
        node.mark_handle_dropped_();
        proof {
            let node = self.nodes_@[n];
            lemma_place_kept(before.nodes_@, before.pending_@, n, node);
            lemma_tree_kept(before@, n, node@);
            assert(self@ =~= before@.with_dropped(n));
        }
    }

    /// Opens a scope below `parent`, as its youngest child. `addr` is where its block is.
    pub fn new_child_(&mut self, parent: NodeId, addr: usize) -> (c: NodeId)
        requires
            old(self).wf(),
            old(self)@.nodes.contains_key(parent),
        ensures
            final(self).wf(),
            !old(self)@.nodes.contains_key(c),
            final(self)@ == old(self)@.with_child(parent, c, addr),
    {
        let ghost before = *self;
        let ghost t = self@;
        let ghost s = self.nodes_@[parent].children_@;
        let last = self.nodes_.get(parent).node_base_.child_tail();
        assert(ends_at(self.nodes_@, parent));
        let c: NodeId = self.nodes_.insert(
            ScopeNode::child_of_(Some(parent), addr, Ghost(self.clock_@)),
        );
        match last {
            Some(last) => {
                proof {
                    assert(child_at(t.nodes, parent, s.len() - 1));
                    assert(last == s[s.len() - 1]);
                    assert(self.nodes_@.contains_key(last));
                }
                let eldest = self.nodes_.get_mut(last);
                eldest.scope_ext_.next_sibling_ = Some(c);
                let child = self.nodes_.get_mut(c);
                child.scope_ext_.prev_sibling_ = Some(last);
            },
            None => {
                let above = self.nodes_.get_mut(parent);
                above.node_base_.update_child_head(Some(c));
            },
        }
        let above = self.nodes_.get_mut(parent);
        above.node_base_.update_child_tail(Some(c));
        above.children_ = Ghost(above.children_@.push(c));
        self.clock_ = Ghost(self.clock_@ + 1);
        proof {
            let raw = before.nodes_@;
            let next = self.nodes_@;
            assert(next[parent].children_@ =~= s.push(c));
            assert(self@ =~= t.with_child(parent, c, addr)) by {
                assert forall|m: NodeId| self@.nodes.contains_key(m) implies #[trigger] self@.nodes[m]
                    == t.with_child(parent, c, addr).nodes[m] by {
                    assert(m != c && m != parent ==> next[m]@ == raw[m]@);
                }
                assert(self@.nodes =~= t.with_child(parent, c, addr).nodes);
            }
            lemma_with_child_wf(t, parent, c, addr);
            assert forall|p: NodeId, i: int|
                next.contains_key(p) && 0 <= i < next[p].children_@.len() implies #[trigger] sibling_at(
                next,
                p,
                i,
            ) by {
                if p == parent {
                    if i < s.len() {
                        assert(sibling_at(raw, p, i));
                        assert(child_at(t.nodes, p, i));
                        assert(s[i] != c);
                        if i < s.len() - 1 {
                            assert(s[i] != s[s.len() - 1]);
                        }
                    }
                } else if p != c {
                    assert(sibling_at(raw, p, i));
                    assert(child_at(t.nodes, p, i));
                    if s.len() > 0 {
                        assert(child_at(t.nodes, parent, s.len() - 1));
                    }
                }
            }
            assert forall|p: NodeId| #[trigger] next.contains_key(p) implies ends_at(next, p) by {
                if p != c {
                    assert(raw.contains_key(p) && ends_at(raw, p));
                }
            }
            assert forall|i: int| 0 <= i < self.pending_@.len() implies #[trigger] waiting_at(
                next,
                self.pending_@,
                i,
            ) by {
                assert(waiting_at(raw, self.pending_@, i));
                assert(t.nodes.contains_key(t.pending[i]));
            }
        }
        c
    }

    /// Takes `n` from its parent, closes it, and puts it at the end of the line of those that
    /// wait to be reclaimed.
    fn close_node_(&mut self, n: NodeId)
        requires
            old(self).wf(),
            old(self)@.nodes.contains_key(n),
            old(self)@.nodes[n].parent is Some,
        ensures
            final(self).wf(),
            final(self)@ == old(self)@.with_closed(n),
    {
        let ghost before = *self;
        let ghost t = self@;
        let ghost p = t.nodes[n].parent->0;
        let ghost s = t.nodes[p].children;
        let ghost k = s.index_of(n);
        proof {
            assert(parent_ok(t.nodes, n));
            assert(0 <= k < s.len() && s[k] == n);
            assert(child_at(t.nodes, p, k));
            assert(sibling_at(self.nodes_@, p, k));
            assert(ends_at(self.nodes_@, p));
            if k > 0 {
                assert(child_at(t.nodes, p, k - 1));
                assert(s[k - 1] != n);
            }
            if k + 1 < s.len() {
                assert(child_at(t.nodes, p, k + 1));
                assert(s[k + 1] != n);
            }
        }
        let node = self.nodes_.get(n);
        let prev = node.scope_ext_.prev_sibling_;
        let next = node.scope_ext_.next_sibling_;
        let parent = match node.node_base_.parent() {
            Some(parent) => parent,
            None => {
                return ;
            },
        };
        match prev {
            Some(q) => {
                let elder = self.nodes_.get_mut(q);
                elder.scope_ext_.next_sibling_ = next;
            },
            None => {
                let above = self.nodes_.get_mut(parent);
                above.node_base_.update_child_head(next);
            },
        }
        match next {
            Some(q) => {
                let younger = self.nodes_.get_mut(q);
                younger.scope_ext_.prev_sibling_ = prev;
            },
            None => {
                let above = self.nodes_.get_mut(parent);
                above.node_base_.update_child_tail(prev);
            },
        }
        let above = self.nodes_.get_mut(parent);
        above.children_ = Ghost(without(above.children_@, n));
        let node = self.nodes_.get_mut(n);
        node.scope_ext_.prev_sibling_ = None;
        node.scope_ext_.next_sibling_ = None;
        node.node_base_.clear_parent();
        node.mark_closed_();
        proof {
            lemma_with_closed_wf(t, n);
            let raw = before.nodes_@;
            let cut = self.nodes_@;
            let u = t.with_closed(n);
            assert(cut[p].children_@ =~= s.remove(k));
            assert(cut.dom() =~= raw.dom());
            assert(raw_view(cut) =~= u.nodes);
            lemma_cut_links(raw, cut, t, n);
            assert forall|i: int| 0 <= i < self.pending_@.len() implies #[trigger] waiting_at(
                cut,
                self.pending_@,
                i,
            ) by {
                assert(waiting_at(raw, self.pending_@, i));
                assert(t.nodes.contains_key(t.pending[i]));
            }
            assert(!t.nodes[n].closed);
            assert(!self.pending_@.contains(n));
        }
        self.push_pending_(n);
        proof {
            assert(self@ =~= t.with_closed(n));
        }
    }

    /// Closes `n` and all below it: children before parents, the youngest first. Each is taken
    /// from its parent and put in line to be reclaimed.
    pub fn close_subtree_(&mut self, n: NodeId)
        requires
            old(self).wf(),
            old(self)@.nodes.contains_key(n),
            !old(self)@.nodes[n].closed,
            n != old(self)@.root,
        ensures
            final(self).wf(),
            final(self)@ == old(self)@.closed_below(n),
    {
        let mut cur: NodeId = n;
        loop
            invariant
                self.wf(),
                self@.nodes.contains_key(n),
                self@.nodes[n].parent is Some,
                self@.closed_below(n) == old(self)@.closed_below(n),
                on_spine(self@.nodes, self@.clock, n, cur),
            decreases close_order(self@.nodes, self@.clock, n).len(),
        {
            proof {
                lemma_spine_below(self@.nodes, self@.clock, n, cur);
            }
            // Down to the youngest scope that has nothing below it.
            loop
                invariant
                    self.wf(),
                    self@.nodes.contains_key(n),
                    on_spine(self@.nodes, self@.clock, n, cur),
                    self@.nodes.contains_key(cur),
                ensures
                    self@.nodes[cur].children.len() == 0,
                decreases self@.clock - self@.nodes[cur].stamp,
            {
                assert(ends_at(self.nodes_@, cur));
                match self.nodes_.get(cur).node_base_.child_tail() {
                    None => {
                        break ;
                    },
                    Some(child) => {
                        proof {
                            let i = self@.nodes[cur].children.len() - 1;
                            assert(child_at(self@.nodes, cur, i));
                            lemma_spine_step(self@.nodes, self@.clock, n, cur);
                        }
                        cur = child;
                    },
                }
            }
            let ghost t = self@;
            proof {
                lemma_spine_below(t.nodes, t.clock, n, cur);
            }
            if cur == n {
                proof {
                    lemma_close_last(t, n);
                }
                self.close_node_(n);
                return ;
            }
            proof {
                lemma_close_step(t, n, cur);
                assert(parent_ok(t.nodes, cur));
                assert(t.nodes[cur].parent is Some);
            }
            let parent = self.nodes_.get(cur).node_base_.parent();
            self.close_node_(cur);
            match parent {
                Some(parent) => {
                    cur = parent;
                },
                None => {},
            }
        }
    }

    /// Takes `n`, the `i`-th in line and with nothing below it, out of the line and out of the
    /// tree. `prev` is the one before it in line.
    pub(crate) fn remove_pending_(&mut self, prev: Option<NodeId>, n: NodeId, Ghost(i): Ghost<int>) -> (r:
        ScopeNode)
        requires
            old(self).wf(),
            0 <= i < old(self)@.pending.len(),
            old(self)@.pending[i] == n,
            prev == opt_at(old(self)@.pending, i - 1),
            old(self)@.nodes[n].children.len() == 0,
        ensures
            final(self).wf(),
            final(self)@ == old(self)@.without_node(n),
            r@ == old(self)@.nodes[n],
    {
        let ghost before = *self;
        let ghost t = self@;
        let ghost line = t.pending;
        proof {
            assert(t.nodes.contains_key(line[i]));
            assert(waiting_at(self.nodes_@, line, i));
            assert(line.index_of(n) == i) by {
                assert(line.contains(n));
                let k = line.index_of(n);
                assert(line[k] == n);
            }
        }
        let next = self.nodes_.get(n).scope_ext_.pending_next_;
        match prev {
            Some(q) => {
                assert(t.nodes.contains_key(line[i - 1]));
                let ahead = self.nodes_.get_mut(q);
                ahead.scope_ext_.pending_next_ = next;
            },
            None => {
                self.pending_head_ = next;
            },
        }
        match self.pending_tail_ {
            Some(tail) => {
                if tail == n {
                    self.pending_tail_ = prev;
                }
            },
            None => {},
        }
        let node = self.nodes_.remove(n);
        self.pending_ = Ghost(line.remove(i));
        proof {
            let raw = before.nodes_@;
            let cut = self.nodes_@;
            lemma_without_node_wf(t, n);
            assert(self.pending_@ =~= without(line, n));
            if i > 0 {
                assert(line[i - 1] != line[i]);
            }
            assert forall|m: NodeId| cut.contains_key(m) implies (#[trigger] cut[m])@ == raw[m]@ by {}
            assert(raw_view(cut) =~= t.without_node(n).nodes);
            assert(self@ =~= t.without_node(n));
            assert forall|p: NodeId, j: int|
                cut.contains_key(p) && 0 <= j < cut[p].children_@.len() implies #[trigger] sibling_at(
                cut,
                p,
                j,
            ) by {
                assert(sibling_at(raw, p, j));
                assert(child_at(t.nodes, p, j));
            }
            assert forall|p: NodeId| #[trigger] cut.contains_key(p) implies ends_at(cut, p) by {
                assert(raw.contains_key(p) && ends_at(raw, p));
            }
            assert forall|j: int| 0 <= j < self.pending_@.len() implies #[trigger] waiting_at(
                cut,
                self.pending_@,
                j,
            ) by {
                let l = if j < i {
                    j
                } else {
                    j + 1
                };
                assert(waiting_at(raw, line, l));
                assert(self.pending_@[j] == line[l]);
                assert(line[l] != line[i]);
                assert(t.nodes.contains_key(line[l]));
                if i > 0 && l != i - 1 {
                    assert(line[l] != line[i - 1]);
                }
            }
            if line.last() == n {
                assert(i == line.len() - 1);
            }
        }
        node
    }

    /// Puts `n` at the end of the line of those that wait to be reclaimed.
    fn push_pending_(&mut self, n: NodeId)
        requires
            old(self).nodes_.wf(),
            old(self).nodes_@.contains_key(n),
            links_wf(old(self).nodes_@),
            line_wf(old(self).nodes_@, old(self).pending_@),
            old(self).pending_head_ == opt_at(old(self).pending_@, 0),
            old(self).pending_tail_ == opt_at(old(self).pending_@, old(self).pending_@.len() - 1),
            forall|i: int|
                0 <= i < old(self).pending_@.len() ==> old(self).nodes_@.contains_key(
                    #[trigger] old(self).pending_@[i],
                ),
            old(self).pending_@.no_duplicates(),
            !old(self).pending_@.contains(n),
        ensures
            final(self).nodes_.wf(),
            final(self).pending_@ == old(self).pending_@.push(n),
            final(self).root_ == old(self).root_,
            final(self).clock_ == old(self).clock_,
            raw_view(final(self).nodes_@) == raw_view(old(self).nodes_@),
            final(self).nodes_@.dom() == old(self).nodes_@.dom(),
            forall|m: NodeId| #[trigger]
                final(self).nodes_@.contains_key(m) ==> final(self).nodes_@[m].scope_ext_.content_
                    == old(self).nodes_@[m].scope_ext_.content_,
            links_wf(final(self).nodes_@),
            line_wf(final(self).nodes_@, final(self).pending_@),
            final(self).pending_head_ == opt_at(final(self).pending_@, 0),
            final(self).pending_tail_ == Some(n),
    {
        let ghost before = *self;
        let node = self.nodes_.get_mut(n);
        node.scope_ext_.pending_next_ = None;
        match self.pending_tail_ {
            Some(tail) => {
                proof {
                    let k = before.pending_@.len() - 1;
                    assert(before.nodes_@.contains_key(before.pending_@[k]));
                    assert(before.pending_@.contains(before.pending_@[k]));
                }
                let last = self.nodes_.get_mut(tail);
                last.scope_ext_.pending_next_ = Some(n);
            },
            None => {
                self.pending_head_ = Some(n);
            },
        }
        self.pending_tail_ = Some(n);
        self.pending_ = Ghost(self.pending_@.push(n));
        proof {
            let raw = before.nodes_@;
            let next = self.nodes_@;
            let line = before.pending_@;
            assert(next.dom() =~= raw.dom());
            assert forall|m: NodeId| next.contains_key(m) implies (#[trigger] next[m])@ == raw[m]@
                && next[m].scope_ext_.prev_sibling_ == raw[m].scope_ext_.prev_sibling_
                && next[m].scope_ext_.next_sibling_ == raw[m].scope_ext_.next_sibling_
                && next[m].node_base_ == raw[m].node_base_ && next[m].children_
                == raw[m].children_ by {}
            assert(raw_view(next) =~= raw_view(raw));
            assert forall|p: NodeId, i: int|
                next.contains_key(p) && 0 <= i < next[p].children_@.len() implies #[trigger] sibling_at(
                next,
                p,
                i,
            ) by {
                assert(sibling_at(raw, p, i));
                let c = raw[p].children_@[i];
                assert(next.contains_key(c) ==> next[c]@ == raw[c]@);
            }
            assert forall|p: NodeId| #[trigger] next.contains_key(p) implies ends_at(next, p) by {
                assert(raw.contains_key(p) && ends_at(raw, p));
                assert(next[p]@ == raw[p]@);
            }
            assert forall|i: int| 0 <= i < self.pending_@.len() implies #[trigger] waiting_at(
                next,
                self.pending_@,
                i,
            ) by {
                if i < line.len() {
                    assert(waiting_at(raw, line, i));
                    assert(raw.contains_key(line[i]));
                    assert(line.contains(line[i]));
                }
            }
        }
    }
}

/// The links after `n` was cut out between its siblings.
proof fn lemma_cut_links(raw: Raw, cut: Raw, t: TreeView, n: NodeId)
    requires
        t.wf(),
        t.nodes == raw_view(raw),
        links_wf(raw),
        raw.contains_key(n),
        t.nodes[n].parent is Some,
        cut.dom() == raw.dom(),
        ({
            let p = t.nodes[n].parent->0;
            let s = t.nodes[p].children;
            let k = s.index_of(n);
            &&& cut[p].children_@ == s.remove(k)
            &&& cut[p].node_base_@.child_head == (if k == 0 {
                opt_at(s, 1)
            } else {
                opt_at(s, 0)
            })
            &&& cut[p].node_base_@.child_tail == (if k == s.len() - 1 {
                opt_at(s, k - 1)
            } else {
                opt_at(s, s.len() - 1)
            })
            &&& forall|m: NodeId|
                #![trigger cut[m]]
                raw.contains_key(m) ==> {
                    &&& m != p ==> cut[m].children_ == raw[m].children_
                    &&& m != p ==> cut[m].node_base_@.child_head == raw[m].node_base_@.child_head
                    &&& m != p ==> cut[m].node_base_@.child_tail == raw[m].node_base_@.child_tail
                    &&& m != n ==> cut[m].scope_ext_.next_sibling_ == (if opt_at(s, k - 1) == Some(
                        m,
                    ) {
                        opt_at(s, k + 1)
                    } else {
                        raw[m].scope_ext_.next_sibling_
                    })
                    &&& m != n ==> cut[m].scope_ext_.prev_sibling_ == (if opt_at(s, k + 1) == Some(
                        m,
                    ) {
                        opt_at(s, k - 1)
                    } else {
                        raw[m].scope_ext_.prev_sibling_
                    })
                }
        }),
    ensures
        links_wf(cut),
{
    let p = t.nodes[n].parent->0;
    let s = t.nodes[p].children;
    let k = s.index_of(n);
    assert(parent_ok(t.nodes, n));
    assert(0 <= k < s.len() && s[k] == n);
    assert forall|q: NodeId, i: int|
        cut.contains_key(q) && 0 <= i < cut[q].children_@.len() implies #[trigger] sibling_at(
        cut,
        q,
        i,
    ) by {
        let j = if q == p && i >= k {
            i + 1
        } else {
            i
        };
        assert(sibling_at(raw, q, j));
        assert(child_at(t.nodes, q, j));
        let c = raw[q].children_@[j];
        assert(cut[q].children_@[i] == c);
        assert(raw.contains_key(c));
        if q == p {
            assert(s[j] != s[k]);
            if k > 0 && j != k - 1 {
                assert(s[j] != s[k - 1]);
            }
            if k + 1 < s.len() && j != k + 1 {
                assert(s[j] != s[k + 1]);
            }
        } else {
            if k > 0 {
                assert(child_at(t.nodes, p, k - 1));
            }
            if k + 1 < s.len() {
                assert(child_at(t.nodes, p, k + 1));
            }
        }
    }
    assert forall|q: NodeId| #[trigger] cut.contains_key(q) implies ends_at(cut, q) by {
        assert(raw.contains_key(q) && ends_at(raw, q));
    }
}

/// Taking a closed scope with nothing below it out of the tree keeps the tree sound.
pub proof fn lemma_without_node_wf(t: TreeView, n: NodeId)
    requires
        t.wf(),
        t.pending.contains(n),
        t.nodes.contains_key(n),
        t.nodes[n].children.len() == 0,
    ensures
        t.without_node(n).wf(),
{
    let u = t.without_node(n);
    let line = t.pending;
    let k = line.index_of(n);
    assert(0 <= k < line.len() && line[k] == n);
    assert(u.pending =~= line.remove(k));
    assert forall|p: NodeId, i: int|
        u.nodes.contains_key(p) && 0 <= i < u.nodes[p].children.len() implies #[trigger] child_at(
        u.nodes,
        p,
        i,
    ) by {
        assert(child_at(t.nodes, p, i));
    }
    assert forall|c: NodeId| #[trigger] u.nodes.contains_key(c) implies parent_ok(u.nodes, c) by {
        assert(t.nodes.contains_key(c) && parent_ok(t.nodes, c));
    }
    assert forall|m: NodeId| #[trigger] u.nodes.contains_key(m) implies {
        &&& u.nodes[m].closed <==> u.pending.contains(m)
        &&& u.nodes[m].parent is None <==> (u.nodes[m].closed || m == u.root)
    } by {
        assert(t.nodes.contains_key(m));
        if line.contains(m) {
            let i = choose|i: int| 0 <= i < line.len() && line[i] == m;
            let j = if i < k {
                i
            } else {
                i - 1
            };
            assert(u.pending[j] == m);
        }
        if u.pending.contains(m) {
            let j = choose|j: int| 0 <= j < u.pending.len() && u.pending[j] == m;
            let i = if j < k {
                j
            } else {
                j + 1
            };
            assert(line[i] == m);
        }
    }
    assert forall|j: int| 0 <= j < u.pending.len() implies u.nodes.contains_key(
        #[trigger] u.pending[j],
    ) by {
        let i = if j < k {
            j
        } else {
            j + 1
        };
        assert(u.pending[j] == line[i]);
        assert(t.nodes.contains_key(line[i]));
        assert(line[i] != line[k]);
    }
    assert(u.pending.no_duplicates());
}

/// Opening a scope keeps the tree sound.
proof fn lemma_with_child_wf(t: TreeView, p: NodeId, c: NodeId, addr: usize)
    requires
        t.wf(),
        t.nodes.contains_key(p),
        !t.nodes.contains_key(c),
    ensures
        t.with_child(p, c, addr).wf(),
{
    let u = t.with_child(p, c, addr);
    let s = t.nodes[p].children;
    assert forall|q: NodeId, i: int|
        u.nodes.contains_key(q) && 0 <= i < u.nodes[q].children.len() implies #[trigger] child_at(
        u.nodes,
        q,
        i,
    ) by {
        if q != c && !(q == p && i == s.len()) {
            assert(child_at(t.nodes, q, i));
        }
    }
    assert forall|m: NodeId| #[trigger] u.nodes.contains_key(m) implies parent_ok(u.nodes, m) by {
        if m == c {
            assert(u.nodes[p].children[s.len() as int] == c);
        } else {
            assert(t.nodes.contains_key(m) && parent_ok(t.nodes, m));
            if t.nodes[m].parent == Some(p) {
                let i = choose|i: int| 0 <= i < s.len() && s[i] == m;
                assert(u.nodes[p].children[i] == m);
            }
        }
    }
    assert(!s.contains(c)) by {
        if s.contains(c) {
            let i = choose|i: int| 0 <= i < s.len() && s[i] == c;
            assert(child_at(t.nodes, p, i));
        }
    }
    assert(u.nodes[p].children.no_duplicates());
    assert forall|i: int| 0 <= i < u.pending.len() implies u.nodes.contains_key(
        #[trigger] u.pending[i],
    ) by {
        assert(t.nodes.contains_key(t.pending[i]));
    }
    assert(!t.pending.contains(c)) by {
        if t.pending.contains(c) {
            let i = choose|i: int| 0 <= i < t.pending.len() && t.pending[i] == c;
            assert(t.nodes.contains_key(t.pending[i]));
        }
    }
}

} // verus!
