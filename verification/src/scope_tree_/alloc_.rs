//! How an object comes into a scope: its place in the scope's pools, and its weak slot.

use vstd::prelude::*;

use crate::mem_::TrAllocator;
use crate::ptr_::{ChunkPtr, SlotPtr};
use crate::strong_::chunk_::StrongChunk;
use crate::weak_::chain_::{in_use, lemma_with_slot_chain, WeakChain};
use crate::weak_::chunk_::{DataState, SlotView};
use crate::weak_::pre_drop_::PreDropRecord;

use super::node_::NodeId;
use super::root_::RootScope;
use super::state_::{key, lemma_adopted, lemma_object_placed, ptr, ChunkCell};
use super::tree_::ScopeTree;

verus! {

impl<V, H: Copy, A: TrAllocator> RootScope<V, H, A> {
    /// Notes an object at `addr`, a place in the scope `n` that was found for it. It has no
    /// weak slot.
    pub fn store_object_(
        &mut self,
        n: NodeId,
        data: V,
        record: PreDropRecord<H>,
        addr: usize,
    ) -> (c: ChunkPtr)
        requires
            old(self).wf(),
            old(self)@.tree.nodes.contains_key(n),
        ensures
            final(self).wf(),
            c != ChunkPtr::null(),
            c == ptr(key(c)),
            key(c) < usize::MAX,
            !old(self)@.cells.contains_key(key(c)),
            final(self)@ == old(self)@.with_object(n, key(c), data, record, addr),
            final(self).allocator_ == old(self).allocator_,
    {
        broadcast use ScopeTree::lemma_view_wf;

        let ghost ready = self@;
        let k: usize = self.store_.insert(
            ChunkCell {
                chunk_: Some(StrongChunk::new_(data)),
                record_: record,
                owner_: n,
                addr_: addr,
            },
        );
        let c = ChunkPtr { raw: k + 1 };
        let content = self.tree_.content_mut(n);
        content.objects_.push(c);
        proof {
            assert(self@ =~= ready.with_object(n, k, data, record, addr));
            lemma_object_placed(ready, n, k, data, record, addr);
        }
        c
    }

    /// Gives the object at `c`, which has no weak slot, the one at `p`, which belongs to none,
    /// with one weak handle. The slot becomes the last of its scope.
    pub fn adopt_(&mut self, p: SlotPtr, c: ChunkPtr, state: DataState, meta: usize)
        requires
            old(self).wf(),
            in_use(old(self)@.pools, p),
            !old(self)@.homes.contains_key(p),
            old(self)@.slot(p).state == DataState::Reclaimed,
            c != ChunkPtr::null(),
            old(self)@.cells.contains_key(key(c)),
            old(self)@.cells[key(c)].data is Some,
            old(self)@.cells[key(c)].head.weak == SlotPtr::null(),
            state == DataState::Created || state == DataState::Owning,
        ensures
            final(self).wf(),
            final(self).allocator_ == old(self).allocator_,
            final(self)@ == old(self)@.with_adopted(p, key(c), state, meta),
            final(self)@.holds_weak(p),
            final(self)@.slot(p).state == state,
    {
        broadcast use {ScopeTree::lemma_view_wf, WeakChain::lemma_view_wf};

        let ghost before = self@;
        let k: usize = c.raw - 1;
        let n: NodeId = self.store_.get(k).owner_;
        let record = self.store_.get(k).record_;
        let tail = self.tree_.node(n).scope_ext_.content_.live_tail_;
        let ghost live = before.live(n);
        proof {
            assert(before.cell_ok(k));
            assert(before.stray_ok(p));
            if live.len() > 0 {
                assert(before.live_at(n, live.len() - 1));
                assert(before.slot_ok(live.last()));
            }
        }
        if !tail.is_null() {
            let last = self.weak_.slot_mut(tail);
            last.set_next_live(p);
        }
        proof {
            assert(self.weak_@ == before.chained(live, p));
            if live.len() > 0 {
                lemma_with_slot_chain(
                    before.pools,
                    before.addr,
                    live.last(),
                    SlotView { next_live: p, ..before.slot(live.last()) },
                );
            }
        }
        let slot = self.weak_.slot_mut(p);
        let cell = self.store_.get_mut(k);
        match &mut cell.chunk_ {
            Some(chunk) => {
                chunk.bind_fresh_(c, p, slot, meta, record);
            },
            None => {},
        }
        slot.chunk_state_.mark_state(state);
        let _ = slot.incr_weak_count();
        slot.set_prev_live(tail);
        slot.set_next_live(SlotPtr::null());
        let content = self.tree_.content_mut(n);
        if tail.is_null() {
            content.live_head_ = p;
        }
        content.live_tail_ = p;
        content.live_ = Ghost(content.live_@.push(p));
        self.homes_ = Ghost(self.homes_@.insert(p, n));
        proof {
            assert(self@ =~= before.with_adopted(p, k, state, meta));
            lemma_adopted(before, p, k, state, meta);
            assert(self@.homes.contains_key(p));
            assert(self@.slot_ok(p));
        }
    }
}

} // verus!
