//! How scopes are closed and, once nothing holds them any more, reclaimed.

use vstd::prelude::*;

use crate::abs_::TrPreDrop;
use crate::mem_::{Layout, TrAllocator};
use crate::ptr_::SlotPtr;
use crate::weak_::chain_::in_use;
use crate::weak_::chunk_::DataState;

use super::node_::{node_layout, ContentView, NodeId, NODE_ALIGN, NODE_SIZE};
use super::order_::without;
use super::promises_::{
    law_none_forgotten, law_release_closes_only_below, none_forgotten, only_below_closed,
};
use super::root_::RootScope;
use super::state_::{lemma_tree_changed, BlockUse, RootView};
use super::teardown_::{freed_pools, released, Victim};
use super::tree_::{opt_at, ScopeTree};

verus! {

impl<V, H: Copy> RootView<V, H> {
    /// Whether no slot of the scope `n` has its data.
    pub open spec fn is_quiescent(&self, n: NodeId) -> bool {
        forall|i: int|
            0 <= i < self.live(n).len() ==> !(#[trigger] self.slot(self.live(n)[i])).state.alive()
    }

    /// Whether nothing holds the scope `n` any more: it is closed, its handle is gone, nothing
    /// is alive in it, and there is no scope below it.
    pub open spec fn is_reclaimable(&self, n: NodeId) -> bool {
        let node = self.tree.nodes[n];
        node.closed && node.dropped && node.children.len() == 0 && self.is_quiescent(n)
    }

    /// The tree after the scope `n` was emptied and taken out.
    pub open spec fn without_scope(&self, n: NodeId) -> Self {
        let s = self.flushed(n);
        let addr = self.tree.nodes[n].addr;
        RootView {
            tree: s.tree.without_node(n),
            blocks: s.blocks.remove(addr),
            uses: s.uses.remove(addr),
            ..s
        }
    }

    /// The tree after those of the scopes in `line` that nothing holds were taken out.
    pub open spec fn reclaimed_along(&self, line: Seq<NodeId>) -> Self
        decreases line.len(),
    {
        if line.len() == 0 {
            *self
        } else if self.is_reclaimable(line[0]) {
            self.without_scope(line[0]).reclaimed_along(line.skip(1))
        } else {
            self.reclaimed_along(line.skip(1))
        }
    }

    /// What is destroyed on the way: what was left in those scopes.
    pub open spec fn victims_along(&self, line: Seq<NodeId>) -> Seq<Victim<V, H>>
        decreases line.len(),
    {
        if line.len() == 0 {
            Seq::empty()
        } else if self.is_reclaimable(line[0]) {
            self.victims(line[0]) + self.without_scope(line[0]).victims_along(line.skip(1))
        } else {
            self.victims_along(line.skip(1))
        }
    }

    /// The allocator after the scope `n` was emptied and taken out: the memory of its pools was
    /// given back, and then its own.
    pub open spec fn freed_scope<A: TrAllocator>(&self, alloc: A, n: NodeId) -> A {
        freed_pools(alloc, self.scope_pools(n)).freed(self.tree.nodes[n].addr, node_layout())
    }

    /// The allocator after those of the scopes in `line` that nothing holds were taken out.
    pub open spec fn freed_along<A: TrAllocator>(&self, alloc: A, line: Seq<NodeId>) -> A
        decreases line.len(),
    {
        if line.len() == 0 {
            alloc
        } else if self.is_reclaimable(line[0]) {
            self.without_scope(line[0]).freed_along(
                self.freed_scope(alloc, line[0]),
                line.skip(1),
            )
        } else {
            self.freed_along(alloc, line.skip(1))
        }
    }

    /// The tree after those of the waiting scopes that nothing holds were taken out.
    pub open spec fn reclaimed(&self) -> Self {
        self.reclaimed_along(self.tree.pending)
    }

    /// What is destroyed when the waiting scopes that nothing holds are taken out.
    pub open spec fn reclaim_victims(&self) -> Seq<Victim<V, H>> {
        self.victims_along(self.tree.pending)
    }

    /// The allocator after those of the waiting scopes that nothing holds were taken out.
    pub open spec fn reclaimed_memory<A: TrAllocator>(&self, alloc: A) -> A {
        self.freed_along(alloc, self.tree.pending)
    }

    /// The tree after the handle of the scope `n` went: the scope and all below it are closed,
    /// and wait. Nothing in them is destroyed by that.
    pub open spec fn let_go(&self, n: NodeId) -> Self {
        let t = self.tree.with_dropped(n);
        RootView {
            tree: if t.nodes[n].closed {
                t
            } else {
                t.closed_below(n)
            },
            ..*self
        }
    }
}

/// A scope that is empty and waits may be taken out of the tree.
pub proof fn lemma_taken_out<V, H: Copy>(a: RootView<V, H>, n: NodeId)
    requires
        a.wf(),
        a.tree.nodes.contains_key(n),
        n != a.tree.root,
        a.tree.nodes[n].content == ContentView::empty(),
        a.tree.without_node(n).wf(),
    ensures
        ({
            let addr = a.tree.nodes[n].addr;
            let b = RootView {
                tree: a.tree.without_node(n),
                blocks: a.blocks.remove(addr),
                uses: a.uses.remove(addr),
                ..a
            };
            b.wf()
        }),
{
    let addr = a.tree.nodes[n].addr;
    let b = RootView {
        tree: a.tree.without_node(n),
        blocks: a.blocks.remove(addr),
        uses: a.uses.remove(addr),
        ..a
    };
    assert(a.uses_as(addr, BlockUse::Node(n)));
    assert forall|q: SlotPtr| #[trigger] b.homes.contains_key(q) implies {
        &&& b.slot_ok(q)
        &&& b.tree.nodes.contains_key(b.homes[q])
        &&& b.live(b.homes[q]).contains(q)
    } by {
        assert(a.homes.contains_key(q) && a.slot_ok(q));
    }
    assert forall|q: SlotPtr| #[trigger]
        in_use(b.pools, q) && !b.homes.contains_key(q) implies b.stray_ok(q) by {
        assert(a.stray_ok(q));
    }
    assert forall|m: NodeId, i: int|
        b.tree.nodes.contains_key(m) && 0 <= i < b.live(m).len() implies #[trigger] b.live_at(
        m,
        i,
    ) by {
        assert(a.live_at(m, i));
    }
    assert forall|m: NodeId| #[trigger] b.tree.nodes.contains_key(m) implies b.live(
        m,
    ).no_duplicates() && b.objects(m).no_duplicates() by {
        assert(a.tree.nodes.contains_key(m));
    }
    assert forall|j: usize| #[trigger] b.cells.contains_key(j) implies b.cell_ok(j) by {
        assert(a.cells.contains_key(j) && a.cell_ok(j));
    }
    assert forall|m: NodeId, i: int|
        b.tree.nodes.contains_key(m) && 0 <= i < b.objects(m).len() implies #[trigger] b.object_at(
        m,
        i,
    ) by {
        assert(a.object_at(m, i));
    }
    assert forall|x: usize| #[trigger] b.uses.contains_key(x) implies b.use_ok(x) by {
        assert(a.uses.contains_key(x) && a.use_ok(x));
    }
    assert forall|m: NodeId| #[trigger]
        b.tree.nodes.contains_key(m) && m != b.tree.root implies b.uses_as(
        b.tree.nodes[m].addr,
        BlockUse::Node(m),
    ) by {
        assert(a.tree.nodes.contains_key(m));
        assert(a.uses_as(a.tree.nodes[m].addr, BlockUse::Node(m)));
    }
    assert forall|m: NodeId, i: int|
        b.tree.nodes.contains_key(m) && 0 <= i < b.scope_pools(m).len() implies b.uses_as(
        (#[trigger] b.scope_pools(m)[i]).addr_,
        BlockUse::Strong(m, i),
    ) by {
        assert(a.tree.nodes.contains_key(m));
        assert(a.uses_as(a.scope_pools(m)[i].addr_, BlockUse::Strong(m, i)));
    }
    assert forall|x: usize, y: usize| #[trigger] b.apart_at(x, y) by {
        assert(a.apart_at(x, y));
    }
    assert forall|i: int| 0 <= i < b.pools.len() implies b.uses_as(
        (#[trigger] b.pools[i]).addr,
        BlockUse::Weak(i),
    ) by {
        assert(a.uses_as(a.pools[i].addr, BlockUse::Weak(i)));
    }
}

impl<V, H: Copy, A: TrAllocator> RootScope<V, H, A> {
    /// Whether no slot of the scope `n` has its data.
    pub fn is_quiescent_(&self, n: NodeId) -> (r: bool)
        requires
            self.wf(),
            self@.tree.nodes.contains_key(n),
        ensures
            r == self@.is_quiescent(n),
            r <==> forall|i: int|
                0 <= i < self@.live(n).len() ==> (#[trigger] self@.slot(self@.live(n)[i])).state
                    != DataState::Created && self@.slot(self@.live(n)[i]).state
                    != DataState::Owning && self@.slot(self@.live(n)[i]).state
                    != DataState::Sharing,
    {
        match self.next_bound_(n) {
            None => true,
            Some((_, at)) => {
                assert(self@.slot(self@.live(n)[at@]).state.alive());
                false
            },
        }
    }

    /// Whether nothing holds the scope `n` any more.
    pub fn is_reclaimable_(&self, n: NodeId) -> (r: bool)
        requires
            self.wf(),
            self@.tree.nodes.contains_key(n),
        ensures
            r == self@.is_reclaimable(n),
            r <==> self@.tree.nodes[n].closed && self@.tree.nodes[n].dropped
                && self@.tree.nodes[n].children.len() == 0 && forall|i: int|
                0 <= i < self@.live(n).len() ==> (#[trigger] self@.slot(self@.live(n)[i])).state
                    != DataState::Created && self@.slot(self@.live(n)[i]).state
                    != DataState::Owning && self@.slot(self@.live(n)[i]).state
                    != DataState::Sharing,
    {
        let node = self.tree_.node(n);
        if !node.is_closed_() || !node.is_handle_dropped_() {
            return false;
        }
        self.tree_.is_leaf(n) && self.is_quiescent_(n)
    }

    /// Closes the scope `n` and all below it: children before parents, the youngest first. Each
    /// waits to be reclaimed then, with what is in it.
    pub fn close_subtree_(&mut self, n: NodeId)
        requires
            old(self).wf(),
            old(self)@.tree.nodes.contains_key(n),
            !old(self)@.tree.nodes[n].closed,
            n != old(self)@.tree.root,
        ensures
            final(self).wf(),
            final(self)@ == (RootView { tree: old(self)@.tree.closed_below(n), ..old(self)@ }),
            final(self).allocator_ == old(self).allocator_,
    {
        broadcast use ScopeTree::lemma_view_wf;

        let ghost before = self@;
        self.tree_.close_subtree_(n);
        proof {
            assert(self.tree_@.nodes.dom() =~= before.tree.nodes.dom());
            lemma_tree_changed(before, self.tree_@);
            assert(self@ =~= (RootView { tree: before.tree.closed_below(n), ..before }));
        }
    }

    /// Notes that the handle of the scope `n` is gone.
    pub fn mark_handle_dropped_(&mut self, n: NodeId)
        requires
            old(self).wf(),
            old(self)@.tree.nodes.contains_key(n),
        ensures
            final(self).wf(),
            final(self)@ == (RootView { tree: old(self)@.tree.with_dropped(n), ..old(self)@ }),
            final(self).allocator_ == old(self).allocator_,
    {
        broadcast use ScopeTree::lemma_view_wf;

        let ghost before = self@;
        self.tree_.mark_handle_dropped_(n);
        proof {
            assert(self.tree_@.nodes.dom() =~= before.tree.nodes.dom());
            lemma_tree_changed(before, self.tree_@);
            assert(self@ =~= (RootView { tree: before.tree.with_dropped(n), ..before }));
        }
    }
}

/// Taking out the `i`-th of a line without repetitions.
pub proof fn lemma_without_at(line: Seq<NodeId>, i: int)
    requires
        line.no_duplicates(),
        0 <= i < line.len(),
    ensures
        without(line, line[i]) == line.take(i) + line.skip(i + 1),
{
    let k = line.index_of(line[i]);
    assert(line.contains(line[i]));
    assert(line[k] == line[i]);
    assert(without(line, line[i]) =~= line.take(i) + line.skip(i + 1));
}

impl<V, H: Copy + TrPreDrop<V>, A: TrAllocator> RootScope<V, H, A> {
    /// Empties the scope `n`, the `i`-th in line, takes it out of the tree, and gives its memory
    /// back. `prev` is the one before it in line.
    fn destroy_scope_(&mut self, prev: Option<NodeId>, n: NodeId, Ghost(i): Ghost<int>) -> (r: Vec<
        V,
    >)
        requires
            old(self).wf(),
            0 <= i < old(self)@.tree.pending.len(),
            old(self)@.tree.pending[i] == n,
            prev == opt_at(old(self)@.tree.pending, i - 1),
            old(self)@.is_reclaimable(n),
        ensures
            final(self).wf(),
            final(self)@ == old(self)@.without_scope(n),
            final(self).allocator_ == old(self)@.freed_scope(old(self).allocator_, n),
            released(old(self)@.victims(n), r@),
    {
        broadcast use ScopeTree::lemma_view_wf;

        let ghost before = self@;
        assert(before.tree.nodes.contains_key(before.tree.pending[i]));
        let values = self.flush_(n);
        let ghost empty = self@;
        let node = self.tree_.remove_pending_(prev, n, Ghost(i));
        let addr: usize = node.scope_ext_.addr_;
        proof {
            assert(empty.uses_as(empty.tree.nodes[n].addr, BlockUse::Node(n)));
            assert(empty.use_ok(addr));
            lemma_taken_out(empty, n);
        }
        self.allocator_.deallocate(addr, Layout { size: NODE_SIZE, align: NODE_ALIGN });
        self.uses_ = Ghost(self.uses_@.remove(addr));
        assert(self@ =~= before.without_scope(n));
        values
    }

    /// Goes along the line of those that wait, and takes out the scopes that nothing holds any
    /// more. What was left in them is destroyed, and handed out after the hooks have run.
    pub fn reclaim_pending_(&mut self) -> (r: Vec<V>)
        requires
            old(self).wf(),
        ensures
            final(self).wf(),
            final(self)@ == old(self)@.reclaimed(),
            none_forgotten(final(self)@),
            released(old(self)@.reclaim_victims(), r@),
            final(self).allocator_ == old(self)@.reclaimed_memory(old(self).allocator_),
    {
        broadcast use ScopeTree::lemma_view_wf;

        let ghost before = self@;
        proof {
            law_none_forgotten(before);
        }
        let mut values: Vec<V> = Vec::new();
        let mut prev: Option<NodeId> = None;
        let mut cursor = self.tree_.pending_head();
        let ghost mut i: int = 0;
        let ghost mut rest = self@.tree.pending;
        let ghost mut done: Seq<Victim<V, H>> = Seq::empty();
        proof {
            assert(rest =~= self@.tree.pending.skip(0));
            assert(before.reclaim_victims() =~= done + self@.victims_along(rest));
        }
        while cursor.is_some()
            invariant
                self.wf(),
                0 <= i <= self@.tree.pending.len(),
                rest == self@.tree.pending.skip(i),
                cursor == opt_at(self@.tree.pending, i),
                prev == opt_at(self@.tree.pending, i - 1),
                before.reclaimed() == self@.reclaimed_along(rest),
                before.reclaim_victims() == done + self@.victims_along(rest),
                released(done, values@),
                before.reclaimed_memory(old(self).allocator_) == self@.freed_along(
                    self.allocator_,
                    rest,
                ),
            decreases rest.len(),
        {
            let n: NodeId = cursor.unwrap();
            let ghost s = self@;
            let ghost line = s.tree.pending;
            proof {
                assert(s.tree.wf());
                assert(s.tree.nodes.contains_key(line[i]));
                assert(rest[0] == n);
                assert(rest.skip(1) =~= line.skip(i + 1));
            }
            let next = self.tree_.pending_next(n, Ghost(i));
            if self.is_reclaimable_(n) {
                let mut freed = self.destroy_scope_(prev, n, Ghost(i));
                proof {
                    lemma_without_at(line, i);
                    let now = self@.tree.pending;
                    assert(now == line.take(i) + line.skip(i + 1));
                    assert(now.skip(i) =~= rest.skip(1));
                    assert(opt_at(now, i) == opt_at(line, i + 1));
                    assert(opt_at(now, i - 1) == opt_at(line, i - 1));
                    let more = done + s.victims(n);
                    let all = values@ + freed@;
                    assert(released(more, all)) by {
                        assert forall|j: int|
                            #![trigger all[j]]
                            0 <= j < all.len() implies more[j].record.outcome(
                            more[j].data,
                            all[j],
                        ) by {
                            if j < values@.len() {
                                assert(all[j] == values@[j]);
                            } else {
                                assert(all[j] == freed@[j - values@.len()]);
                            }
                        }
                    }
                    assert(done + (s.victims(n) + self@.victims_along(rest.skip(1))) =~= more
                        + self@.victims_along(rest.skip(1)));
                    done = more;
                }
                values.append(&mut freed);
            } else {
                proof {
                    i = i + 1;
                }
                prev = Some(n);
            }
            proof {
                rest = rest.skip(1);
            }
            cursor = next;
        }
        proof {
            assert(rest =~= Seq::empty());
            assert(done + self@.victims_along(rest) =~= done);
        }
        values
    }

    /// Lets go of the handle of the scope `n`: closes the scope and all below it, unless that is
    /// done already, and reclaims what nothing holds.
    pub fn drop_scope_(&mut self, n: NodeId) -> (r: Vec<V>)
        requires
            old(self).wf(),
            old(self)@.tree.nodes.contains_key(n),
            n != old(self)@.tree.root,
        ensures
            final(self).wf(),
            final(self)@ == old(self)@.let_go(n).reclaimed(),
            none_forgotten(final(self)@),
            only_below_closed(old(self)@, final(self)@, n),
            final(self).allocator_ == old(self)@.let_go(n).reclaimed_memory(
                old(self).allocator_,
            ),
            released(old(self)@.let_go(n).reclaim_victims(), r@),
    {
        let ghost before = self@;
        proof {
            law_release_closes_only_below(before, n);
        }
        self.mark_handle_dropped_(n);
        if !self.tree_.node(n).is_closed_() {
            self.close_subtree_(n);
        }
        assert(self@ =~= before.let_go(n));
        self.reclaim_pending_()
    }

    /// Empties the scope `n`, and reclaims what nothing holds.
    pub fn collect_(&mut self, n: NodeId) -> (r: Vec<V>)
        requires
            old(self).wf(),
            old(self)@.tree.nodes.contains_key(n),
        ensures
            final(self).wf(),
            final(self)@ == old(self)@.flushed(n).reclaimed(),
            none_forgotten(final(self)@),
            final(self).allocator_ == old(self)@.flushed(n).reclaimed_memory(
                freed_pools(old(self).allocator_, old(self)@.scope_pools(n)),
            ),
            released(old(self)@.victims(n) + old(self)@.flushed(n).reclaim_victims(), r@),
    {
        let ghost before = self@;
        let mut values = self.flush_(n);
        let mut more = self.reclaim_pending_();
        proof {
            let victims = before.victims(n) + before.flushed(n).reclaim_victims();
            let all = values@ + more@;
            assert forall|j: int|
                #![trigger all[j]]
                0 <= j < all.len() implies victims[j].record.outcome(victims[j].data, all[j]) by {
                if j < values@.len() {
                    assert(all[j] == values@[j]);
                } else {
                    assert(all[j] == more@[j - values@.len()]);
                }
            }
        }
        values.append(&mut more);
        values
    }
}

} // verus!
