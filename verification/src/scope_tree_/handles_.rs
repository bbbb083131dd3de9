//! What handles do to the objects that they point at.

use vstd::prelude::*;

use crate::abs_::TrPreDrop;
use crate::mem_::TrAllocator;
use crate::ptr_::{ChunkPtr, SlotPtr};
use crate::strong_::chunk_::{StrongChunkState, K_REFC_MASK};
use crate::weak_::chain_::{
    in_use, lemma_with_slot_chain, lemma_with_slot_returned, lemma_with_slot_twice,
};
use crate::weak_::chunk_::{
    owning_result, sharing_result, DataState, SlotView, WEAK_RC_MASK,
};

use super::promises_::{
    law_owner_goes, law_sharer_goes, law_slot_and_object, law_weak_handle_goes,
};
use super::root_::RootScope;
use super::state_::{
    key, lemma_data_changed, lemma_dead_count, lemma_object_step, lemma_zombie_count,
    lemma_zombie_returned, CellView, RootView,
};

verus! {

impl<V, H: Copy, A: TrAllocator> RootScope<V, H, A> {
    /// Changes the slot at `p` in its count alone.
    proof fn lemma_count(a: RootView<V, H>, p: SlotPtr, count: u32)
        requires
            a.wf(),
            a.holds_weak(p),
            a.slot(p).state == DataState::Zombie ==> count > 0,
        ensures
            a.with_count(p, count).wf(),
            a.slot(p).state != DataState::Zombie ==> a.homes.contains_key(p),
            a.slot(p).state == DataState::Zombie ==> !a.homes.contains_key(p),
            !a.slot(p).locked,
    {
        if a.homes.contains_key(p) {
            assert(a.slot_ok(p));
            if a.slot(p).state.alive() {
                let s2 = SlotView { count, ..a.slot(p) };
                lemma_object_step(a, p, s2, a.cell_of(p));
                assert(a.cells.insert(key(a.slot(p).strong), a.cell_of(p)) =~= a.cells);
                assert(a.with_slot(p, s2).with_cell(key(a.slot(p).strong), a.cell_of(p))
                    =~= a.with_slot(p, s2));
            } else {
                lemma_dead_count(a, p, count);
            }
        } else {
            assert(a.stray_ok(p));
            lemma_zombie_count(a, p, if count > 0 {
                count
            } else {
                1
            });
        }
    }

    /// Counts one more weak handle at `p`. Where there was none, the object has its data.
    pub fn clone_weak_(&mut self, p: SlotPtr)
        requires
            old(self).wf(),
            in_use(old(self)@.pools, p),
            old(self)@.holds_weak(p) || old(self)@.slot(p).state.alive(),
            old(self)@.slot(p).count < WEAK_RC_MASK,
        ensures
            final(self).wf(),
            final(self).allocator_ == old(self).allocator_,
            final(self)@ == old(self)@.with_count(p, (old(self)@.slot(p).count + 1) as u32),
    {
        let ghost before = self@;
        proof {
            let count = (before.slot(p).count + 1) as u32;
            if before.slot(p).count == 0 {
                if !before.homes.contains_key(p) {
                    assert(before.stray_ok(p));
                }
                assert(before.slot_ok(p));
                let s2 = SlotView { count, ..before.slot(p) };
                lemma_object_step(before, p, s2, before.cell_of(p));
                let k = key(before.slot(p).strong);
                assert(before.cells.insert(k, before.cell_of(p)) =~= before.cells);
                assert(before.with_slot(p, s2).with_cell(k, before.cell_of(p))
                    =~= before.with_slot(p, s2));
            } else {
                Self::lemma_count(before, p, count);
            }
        }
        let slot = self.weak_.slot_mut(p);
        let _ = slot.incr_weak_count();
        assert(self@ =~= before.with_count(p, (before.slot(p).count + 1) as u32));
    }

    /// The state of the object whose weak slot is at `p`.
    pub fn state_at_(&self, p: SlotPtr) -> (r: DataState)
        requires
            in_use(self@.pools, p),
        ensures
            r == self@.slot(p).state,
    {
        self.weak_.slot(p).data_state()
    }

    /// How many weak handles point at the slot at `p`.
    pub fn weak_count_at_(&self, p: SlotPtr) -> (r: usize)
        requires
            in_use(self@.pools, p),
        ensures
            r == self@.slot(p).count,
    {
        self.weak_.slot(p).weak_count()
    }

    /// How many handles share the object whose weak slot is at `p`.
    pub fn strong_count_at_(&self, p: SlotPtr) -> (r: u32)
        requires
            self.wf(),
            in_use(self@.pools, p),
        ensures
            r == (if self@.slot(p).state == DataState::Sharing {
                self@.cell_of(p).head.count
            } else {
                0
            }),
    {
        if self.weak_.slot(p).data_state() != DataState::Sharing {
            return 0;
        }
        proof {
            if !self@.homes.contains_key(p) {
                assert(self@.stray_ok(p));
            }
            assert(self@.slot_ok(p));
        }
        match self.weak_.slot(p).strong_chunk() {
            None => 0,
            Some(c) => match &self.store_.get(c.raw - 1).chunk_ {
                None => 0,
                Some(chunk) => chunk.strong_count(),
            },
        }
    }

    /// Takes the object at `p` for one owner, if nobody holds it strongly.
    pub fn try_owning_(&mut self, p: SlotPtr) -> (r: Result<ChunkPtr, DataState>)
        requires
            old(self).wf(),
            old(self)@.holds_weak(p),
        ensures
            final(self).wf(),
            final(self).allocator_ == old(self).allocator_,
            r == owning_result(old(self)@.slot(p)),
            r is Ok <==> old(self)@.slot(p).state == DataState::Created,
            r is Ok ==> old(self)@.homes.contains_key(p),
            final(self)@ == (if r is Ok {
                old(self)@.with_state(p, DataState::Owning)
            } else {
                old(self)@
            }),
    {
        let ghost before = self@;
        proof {
            law_slot_and_object(before, p);
        }
        proof {
            Self::lemma_count(before, p, before.slot(p).count);
            lemma_with_slot_twice(before.pools, p, before.slot(p), before.slot(p));
            if before.slot(p).state.alive() {
                let s2 = SlotView { state: DataState::Owning, ..before.slot(p) };
                let k = key(before.slot(p).strong);
                assert(before.slot_ok(p));
                if before.slot(p).state == DataState::Created {
                    lemma_object_step(before, p, s2, before.cell_of(p));
                    assert(before.cells.insert(k, before.cell_of(p)) =~= before.cells);
                    assert(before.with_slot(p, s2).with_cell(k, before.cell_of(p))
                        =~= before.with_slot(p, s2));
                }
            }
        }
        let slot = self.weak_.slot_mut(p);
        let r = slot.try_owning();
        proof {
            assert(self@ =~= (if r is Ok {
                before.with_state(p, DataState::Owning)
            } else {
                before.with_slot(p, before.slot(p))
            }));
        }
        r
    }

    /// Takes the object at `p` for one more sharer, if it has no single owner.
    pub fn try_sharing_(&mut self, p: SlotPtr) -> (r: Result<ChunkPtr, DataState>)
        requires
            old(self).wf(),
            old(self)@.holds_weak(p),
            old(self)@.slot(p).state.alive() ==> old(self)@.cell_of(p).head.count < K_REFC_MASK,
        ensures
            final(self).wf(),
            final(self).allocator_ == old(self).allocator_,
            r == sharing_result(old(self)@.slot(p)),
            r is Ok <==> old(self)@.slot(p).state == DataState::Created || old(self)@.slot(p).state
                == DataState::Sharing,
            r is Ok ==> old(self)@.homes.contains_key(p),
            final(self)@ == old(self)@.with_sharer(p),
    {
        let ghost before = self@;
        proof {
            law_slot_and_object(before, p);
        }
        proof {
            Self::lemma_count(before, p, before.slot(p).count);
        }
        let state = self.weak_.slot(p).data_state();
        if !state.is_data_alive() {
            return Err(state);
        }
        let ghost k = key(before.slot(p).strong);
        proof {
            assert(before.slot_ok(p));
            lemma_with_slot_twice(before.pools, p, before.slot(p), before.slot(p));
            if sharing_result(before.slot(p)) is Ok {
                let count = (before.cell_of(p).head.count + 1) as u32;
                let s2 = SlotView { state: DataState::Sharing, ..before.slot(p) };
                let c2 = CellView { head: before.shared_head(p, count), ..before.cell_of(p) };
                lemma_object_step(before, p, s2, c2);
                assert(before.with_slot(p, s2).with_cell(k, c2) =~= before.with_sharer(p));
            }
        }
        let at = match self.weak_.slot(p).strong_chunk() {
            Some(at) => at,
            None => {
                return Err(state);
            },
        };
        let slot = self.weak_.slot_mut(p);
        let cell = self.store_.get_mut(at.raw - 1);
        let r = match &mut cell.chunk_ {
            Some(chunk) => slot.try_sharing(&mut chunk.chunk_head_),
            None => Err(state),
        };
        proof {
            if r is Err {
                assert(before.cells.insert(k, before.cells[k]) =~= before.cells);
                assert(self@.cells =~= before.cells);
                assert(self@ =~= before.with_slot(p, before.slot(p)));
            } else {
                assert(self@ =~= before.with_sharer(p));
            }
        }
        r
    }
}

impl<V, H: Copy, A: TrAllocator> RootScope<V, H, A> {
    /// The data of an object is there as long as its head says so.
    proof fn lemma_head_alive(a: RootView<V, H>, k: usize)
        requires
            a.wf(),
            a.cells.contains_key(k),
            a.cells[k].data is Some,
        ensures
            a.cells[k].head.state.alive(),
    {
        assert(a.cell_ok(k));
        if a.cells[k].head.weak != SlotPtr::null() {
            let q = a.cells[k].head.weak;
            assert(a.slot_ok(q));
            assert(a.cell_of(q) == a.cells[k]);
        }
    }

    /// The data of the object at `c`.
    pub fn data_at_(&self, c: ChunkPtr) -> (r: Option<&V>)
        requires
            self.wf(),
            c != ChunkPtr::null(),
            self@.cells.contains_key(key(c)),
        ensures
            match r {
                Some(data) => self@.cells[key(c)].data == Some(*data),
                None => self@.cells[key(c)].data is None,
            },
    {
        let cell = self.store_.get(c.raw - 1);
        match &cell.chunk_ {
            None => None,
            Some(chunk) => {
                proof {
                    Self::lemma_head_alive(self@, key(c));
                }
                chunk.try_get_data()
            },
        }
    }

    /// The data of the object at `c`, to change.
    pub fn data_mut_at_(&mut self, c: ChunkPtr) -> (r: Option<&mut V>)
        requires
            old(self).wf(),
            c != ChunkPtr::null(),
            old(self)@.cells.contains_key(key(c)),
        ensures
            final(self).wf(),
            final(self).allocator_ == old(self).allocator_,
            match r {
                Some(data) => {
                    &&& old(self)@.cells[key(c)].data == Some(*data)
                    &&& final(self)@ == old(self)@.with_data(key(c), *final(data))
                },
                None => {
                    &&& old(self)@.cells[key(c)].data is None
                    &&& final(self)@ == old(self)@
                },
            },
    {
        let ghost before = self@;
        let ghost k = key(c);
        proof {
            if before.cells[k].data is Some {
                Self::lemma_head_alive(before, k);
                assert forall|data: V| (#[trigger] before.with_data(k, data)).wf() by {
                    lemma_data_changed(before, k, before.with_data(k, data).cells[k]);
                }
            }
        }
        if self.store_.get(c.raw - 1).chunk_.is_none() {
            return None;
        }
        let cell = self.store_.get_mut(c.raw - 1);
        match &mut cell.chunk_ {
            None => None,
            Some(chunk) => {
                let data = chunk.try_get_data_mut();
                match data {
                    Some(data) => {
                        assert(after_borrow(*self)@ =~= before.with_data(k, *final(data)));
                        Some(data)
                    },
                    None => None,
                }
            },
        }
    }
}

impl<V, H: Copy + TrPreDrop<V>, A: TrAllocator> RootScope<V, H, A> {
    /// Destroys the data of the object whose slot is at `p`, and hands it out after its hook
    /// has run.
    pub fn destroy_(&mut self, p: SlotPtr) -> (v: V)
        requires
            old(self).wf(),
            old(self)@.homes.contains_key(p),
            old(self)@.slot(p).state.alive(),
        ensures
            final(self).wf(),
            final(self).allocator_ == old(self).allocator_,
            final(self)@ == old(self)@.with_destroyed(p),
            old(self)@.cell_of(p).record.outcome(old(self)@.cell_of(p).data->0, v),
    {
        let ghost before = self@;
        let ghost k = key(before.slot(p).strong);
        proof {
            assert(before.slot_ok(p));
            let s2 = SlotView { state: DataState::Destroyed, ..before.slot(p) };
            let c2 = before.with_dead_cell(k).cells[k];
            lemma_object_step(before, p, s2, c2);
            assert(before.with_slot(p, s2).with_cell(k, c2) =~= before.with_destroyed(p));
        }
        let at = match self.weak_.slot(p).strong_chunk() {
            Some(at) => at,
            None => vstd::pervasive::unreached(),
        };
        let slot = self.weak_.slot_mut(p);
        let _ = slot.chunk_state_.try_claim_destroy();
        let cell = self.store_.get_mut(at.raw - 1);
        let mut taken = None;
        std::mem::swap(&mut taken, &mut cell.chunk_);
        let mut data = match taken {
            Some(chunk) => chunk.data_,
            None => vstd::pervasive::unreached(),
        };
        slot.drop_data(&mut data);
        slot.chunk_state_.mark_destroyed();
        assert(self@ =~= before.with_destroyed(p));
        data
    }

    /// Destroys the data of the object whose slot is at `p`, if no handle of any kind is left;
    /// hands it out after its hook has run.
    pub fn claim_and_destroy_if_unreachable_(&mut self, p: SlotPtr) -> (r: Option<V>)
        requires
            old(self).wf(),
            in_use(old(self)@.pools, p),
        ensures
            final(self).wf(),
            final(self).allocator_ == old(self).allocator_,
            ({
                let s = old(self)@.slot(p);
                if s.count == 0 && s.state == DataState::Created {
                    &&& final(self)@ == old(self)@.with_destroyed(p)
                    &&& r is Some
                    &&& old(self)@.cell_of(p).record.outcome(old(self)@.cell_of(p).data->0, r->0)
                } else {
                    final(self)@ == old(self)@ && r is None
                }
            }),
    {
        if self.weak_.slot(p).weak_count() != 0 || self.weak_.slot(p).data_state()
            != DataState::Created {
            return None;
        }
        assert(self@.homes.contains_key(p)) by {
            if !self@.homes.contains_key(p) {
                assert(self@.stray_ok(p));
            }
        }
        Some(self.destroy_(p))
    }

    /// Lets go of a weak handle at `p`. With the last one goes data that nobody holds strongly,
    /// which is handed out after its hook has run; and a slot that has outlived its scope goes
    /// back to its pool.
    pub fn drop_weak_(&mut self, p: SlotPtr) -> (r: Option<V>)
        requires
            old(self).wf(),
            old(self)@.holds_weak(p),
        ensures
            final(self).wf(),
            final(self).allocator_ == old(self).allocator_,
            final(self)@ == old(self)@.with_weak_dropped(p),
            r is Some <==> old(self)@.slot(p).count == 1 && old(self)@.slot(p).state
                == DataState::Created,
            r is Some ==> final(self)@.slot(p).state == DataState::Destroyed,
            r is Some ==> final(self)@.slot(p).count == 0,
            old(self)@.slot(p).count > 1 ==> final(self)@.holds_weak(p) && final(self)@.slot(p)
                == (SlotView {
                count: (old(self)@.slot(p).count - 1) as u32,
                ..old(self)@.slot(p)
            }),
            r is Some <==> old(self)@.weak_drop_destroys(p),
            r is Some ==> old(self)@.cell_of(p).record.outcome(
                old(self)@.cell_of(p).data->0,
                r->0,
            ),
    {
        let ghost before = self@;
        proof {
            law_weak_handle_goes(before, p);
        }
        let ghost left = (before.slot(p).count - 1) as u32;
        let state_before = self.weak_.slot(p).data_state();
        proof {
            Self::lemma_count(before, p, if left > 0 {
                left
            } else {
                before.slot(p).count
            });
            if state_before != DataState::Zombie {
                Self::lemma_count(before, p, left);
            }
            lemma_with_slot_chain(
                before.pools,
                before.addr,
                p,
                SlotView { count: left, ..before.slot(p) },
            );
        }
        let slot = self.weak_.slot_mut(p);
        if slot.decr_weak_count() != 0 {
            assert(self@ =~= before.with_count(p, left));
            return None;
        }
        if state_before == DataState::Zombie {
            let _ = slot.chunk_state_.try_finalize_from(DataState::Zombie);
            let ghost mid = slot@;
            proof {
                lemma_with_slot_chain(before.pools, before.addr, p, mid);
                lemma_with_slot_returned(before.pools, p, mid);
                lemma_zombie_returned(before, p);
            }
            let _ = self.weak_.give_back(p);
            assert(self@ =~= before.with_returned(p));
            return None;
        }
        assert(self@ =~= before.with_count(p, 0));
        self.claim_and_destroy_if_unreachable_(p)
    }

    /// Lets go of the single ownership of the object at `p`, if it is owned: the data stays
    /// while a weak handle is left, and is handed out otherwise.
    pub fn drop_owner_(&mut self, p: SlotPtr) -> (r: Option<V>)
        requires
            old(self).wf(),
            in_use(old(self)@.pools, p),
        ensures
            final(self).wf(),
            final(self).allocator_ == old(self).allocator_,
            final(self)@ == old(self)@.with_owner_dropped(p),
            r is Some <==> old(self)@.slot(p).state == DataState::Owning && old(self)@.slot(p).count
                == 0,
            old(self)@.slot(p).state == DataState::Owning ==> final(self)@.slot(p).state == (if r
                is Some {
                DataState::Destroyed
            } else {
                DataState::Created
            }),
            r is Some <==> old(self)@.owner_drop_destroys(p),
            r is Some ==> old(self)@.cell_of(p).record.outcome(
                old(self)@.cell_of(p).data->0,
                r->0,
            ),
    {
        let ghost before = self@;
        proof {
            law_owner_goes(before, p);
        }
        if self.weak_.slot(p).data_state() != DataState::Owning {
            return None;
        }
        let ghost k = key(before.slot(p).strong);
        proof {
            if !before.homes.contains_key(p) {
                assert(before.stray_ok(p));
            }
            assert(before.slot_ok(p));
            let s2 = SlotView { state: DataState::Created, ..before.slot(p) };
            lemma_object_step(before, p, s2, before.cell_of(p));
            assert(before.cells.insert(k, before.cell_of(p)) =~= before.cells);
            assert(before.with_slot(p, s2).with_cell(k, before.cell_of(p)) =~= before.with_slot(
                p,
                s2,
            ));
            lemma_with_slot_chain(before.pools, before.addr, p, s2);
            lemma_with_slot_twice(
                before.pools,
                p,
                s2,
                SlotView { state: DataState::Destroyed, ..before.slot(p) },
            );
        }
        let slot = self.weak_.slot_mut(p);
        let _ = slot.chunk_state_.try_transition_state(DataState::Owning, DataState::Created);
        assert(self@ =~= before.with_state(p, DataState::Created));
        let r = self.claim_and_destroy_if_unreachable_(p);
        assert(self@ =~= before.with_owner_dropped(p));
        r
    }

    /// Lets go of one sharing of the object at `p`, if it is shared. With the last one the data
    /// stays while a weak handle is left, and is handed out otherwise.
    pub fn drop_sharer_(&mut self, p: SlotPtr) -> (r: Option<V>)
        requires
            old(self).wf(),
            in_use(old(self)@.pools, p),
        ensures
            final(self).wf(),
            final(self).allocator_ == old(self).allocator_,
            final(self)@ == old(self)@.with_sharer_dropped(p),
            r is Some <==> old(self)@.slot(p).state == DataState::Sharing && old(self)@.cell_of(
                p,
            ).head.count == 1 && old(self)@.slot(p).count == 0,
            r is Some <==> old(self)@.sharer_drop_destroys(p),
            r is Some ==> old(self)@.cell_of(p).record.outcome(
                old(self)@.cell_of(p).data->0,
                r->0,
            ),
    {
        let ghost before = self@;
        proof {
            law_sharer_goes(before, p);
        }
        let at = match self.weak_.slot(p).strong_chunk() {
            Some(at) => at,
            None => ChunkPtr::null(),
        };
        if self.weak_.slot(p).data_state() != DataState::Sharing {
            return None;
        }
        let ghost k = key(before.slot(p).strong);
        let ghost left = (before.cell_of(p).head.count - 1) as u32;
        let ghost state = if left > 0 {
            DataState::Sharing
        } else {
            DataState::Created
        };
        let ghost s2 = SlotView { state, ..before.slot(p) };
        let ghost c2 = CellView { head: before.shared_head(p, left), ..before.cell_of(p) };
        proof {
            if !before.homes.contains_key(p) {
                assert(before.stray_ok(p));
            }
            assert(before.slot_ok(p));
            lemma_object_step(before, p, s2, c2);
            assert(before.with_slot(p, s2).with_cell(k, c2) =~= before.with_sharers(
                p,
                state,
                left,
            ));
            lemma_with_slot_chain(before.pools, before.addr, p, s2);
            lemma_with_slot_twice(before.pools, p, before.slot(p), before.slot(p));
            lemma_with_slot_twice(
                before.pools,
                p,
                s2,
                SlotView { state: DataState::Destroyed, ..before.slot(p) },
            );
        }
        let cell = self.store_.get_mut(at.raw - 1);
        let left: u32 = match &mut cell.chunk_ {
            Some(chunk) => {
                let left: u32 = chunk.decr_strong_count();
                if left == 0 {
                    chunk.chunk_head_.mark_state_(StrongChunkState::Owning);
                }
                left
            },
            None => 0,
        };
        if left != 0 {
            assert(self@ =~= before.with_sharers(p, state, left));
            return None;
        }
        let slot = self.weak_.slot_mut(p);
        let _ = slot.chunk_state_.try_transition_state(DataState::Sharing, DataState::Created);
        assert(self@ =~= before.with_sharers(p, state, left));
        let r = self.claim_and_destroy_if_unreachable_(p);
        assert(self@ =~= before.with_sharer_dropped(p));
        r
    }

    /// Lets go of the single ownership of the object at `c`, which has no weak slot: its data
    /// is handed out after its hook has run.
    pub fn drop_direct_(&mut self, c: ChunkPtr) -> (v: V)
        requires
            old(self).wf(),
            old(self)@.holds_direct(c),
        ensures
            final(self).wf(),
            final(self).allocator_ == old(self).allocator_,
            final(self)@ == old(self)@.with_dead_cell(key(c)),
            old(self)@.cells[key(c)].record.outcome(old(self)@.cells[key(c)].data->0, v),
    {
        let ghost before = self@;
        let ghost k = key(c);
        proof {
            lemma_data_changed(before, k, before.with_dead_cell(k).cells[k]);
        }
        let cell = self.store_.get_mut(c.raw - 1);
        let mut taken = None;
        std::mem::swap(&mut taken, &mut cell.chunk_);
        let mut data = match taken {
            Some(chunk) => chunk.data_,
            None => vstd::pervasive::unreached(),
        };
        cell.record_.run_(&mut data);
        assert(self@ =~= before.with_dead_cell(k));
        data
    }
}

} // verus!
