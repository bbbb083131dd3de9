//! Strong handles that share an object.

use vstd::prelude::*;

use core::marker::PhantomData;

use crate::abs_::{TrCarry, TrPreDrop, TrShareMarker};
use crate::mem_::TrAllocator;
use crate::ptr_::SlotPtr;
use crate::scope_tree_::promises_::law_sharing_asks_only_for_the_state;
use crate::scope_tree_::root_::RootScope;
use crate::scope_tree_::state_::{key, RootView};
use crate::share_marker_::Local;
use crate::strong_::chunk_::K_REFC_MASK;
use crate::weak_::chunk_::{DataState, WEAK_RC_MASK};

use super::retain_::Retain;

verus! {

/// One of the strong handles that share an object of the type `T`. It borrows the weak handle
/// that it came from.
pub struct Sharing<'a, T, M: TrShareMarker = Local> {
    slot_: SlotPtr,
    life_: PhantomData<&'a T>,
    mode_: PhantomData<M>,
}

impl<'a, T, M: TrShareMarker> Sharing<'a, T, M> {
    /// The object's slot.
    pub closed spec fn slot(&self) -> SlotPtr {
        self.slot_
    }

    /// Whether the object's data is there for this handle. It is not where the scope was
    /// emptied meanwhile.
    pub open spec fn shares_in<V, H: Copy>(&self, s: RootView<V, H>) -> bool {
        s.slot(self.slot()).state == DataState::Sharing
    }

    pub(crate) fn new(slot: SlotPtr) -> (r: Self)
        ensures
            r.slot() == slot,
    {
        Sharing { slot_: slot, life_: PhantomData, mode_: PhantomData }
    }

    /// A shared object has its data.
    proof fn lemma_data<V, H: Copy>(&self, s: RootView<V, H>)
        requires
            s.wf(),
            s.holds_weak(self.slot()),
        ensures
            self.shares_in(s) ==> s.bound_ok(self.slot()),
    {
        let p = self.slot();
        if self.shares_in(s) {
            if !s.homes.contains_key(p) {
                assert(s.stray_ok(p));
            }
            assert(s.slot_ok(p));
        }
    }

    /// The state of the object.
    pub fn data_state<V, H: Copy, A: TrAllocator>(&self, root: &RootScope<V, H, A>) -> (r: DataState)
        requires
            root.wf(),
            root@.holds_weak(self.slot()),
        ensures
            r == root@.slot(self.slot()).state,
    {
        root.state_at_(self.slot_)
    }

    /// How many handles share the object.
    pub fn strong_count<V, H: Copy, A: TrAllocator>(&self, root: &RootScope<V, H, A>) -> (r: u32)
        requires
            root.wf(),
            root@.holds_weak(self.slot()),
        ensures
            r == (if self.shares_in(root@) {
                root@.cell_of(self.slot()).head.count
            } else {
                0
            }),
    {
        root.strong_count_at_(self.slot_)
    }

    /// The data, if it is there and a `T`.
    pub fn get<'r, V: TrCarry<T>, H: Copy, A: TrAllocator>(&self, root: &'r RootScope<V, H, A>) -> (r:
        Option<&'r T>)
        requires
            root.wf(),
            root@.holds_weak(self.slot()),
        ensures
            match r {
                Some(data) => self.shares_in(root@) && root@.cell_of(
                    self.slot(),
                ).data->0.carried() == Some(*data),
                None => self.shares_in(root@) ==> root@.cell_of(
                    self.slot(),
                ).data->0.carried() is None,
            },
            r is Some <==> root@.slot(self.slot()).state == DataState::Sharing && root@.cell_of(
                self.slot(),
            ).data->0.carried() is Some,
    {
        proof {
            self.lemma_data(root@);
        }
        if root.state_at_(self.slot_) != DataState::Sharing {
            return None;
        }
        match root.weak_.slot(self.slot_).strong_chunk() {
            None => None,
            Some(c) => match root.data_at_(c) {
                None => None,
                Some(value) => value.get(),
            },
        }
    }

    /// Makes another handle that shares the object.
    pub fn clone<V, H: Copy, A: TrAllocator>(&self, root: &mut RootScope<V, H, A>) -> (r: Self)
        requires
            old(root).wf(),
            old(root)@.holds_weak(self.slot()),
            self.shares_in(old(root)@) ==> old(root)@.cell_of(self.slot()).head.count < K_REFC_MASK,
        ensures
            final(root).wf(),
            final(root).allocator_ == old(root).allocator_,
            r.slot() == self.slot(),
            old(root)@.slot(self.slot()).state == DataState::Sharing ==> final(root)@.cell_of(
                self.slot(),
            ).head.count == old(root)@.cell_of(self.slot()).head.count + 1,
            final(root)@.slot(self.slot()) == old(root)@.slot(self.slot()),
            final(root)@ == (if self.shares_in(old(root)@) {
                old(root)@.with_sharer(self.slot())
            } else {
                old(root)@
            }),
    {
        proof {
            if self.shares_in(root@) {
                law_sharing_asks_only_for_the_state(root@, self.slot());
            }
        }
        if root.state_at_(self.slot_) == DataState::Sharing {
            let _ = root.try_sharing_(self.slot_);
        }
        Self::new(self.slot_)
    }

    /// Makes a weak handle of the object.
    pub fn retained<V, H: Copy, A: TrAllocator>(&self, root: &mut RootScope<V, H, A>) -> (r: Retain<
        T,
        M,
    >)
        requires
            old(root).wf(),
            old(root)@.holds_weak(self.slot()),
            old(root)@.slot(self.slot()).count < WEAK_RC_MASK,
        ensures
            final(root).wf(),
            final(root).allocator_ == old(root).allocator_,
            r.slot() == self.slot(),
            final(root)@ == old(root)@.with_count(
                self.slot(),
                (old(root)@.slot(self.slot()).count + 1) as u32,
            ),
    {
        root.clone_weak_(self.slot_);
        Retain::new(self.slot_)
    }

    /// Lets go of the handle. With the last one the data goes, and is handed out after its hook
    /// has run, where no weak handle is left.
    pub fn release<V, H: Copy + TrPreDrop<V>, A: TrAllocator>(self, root: &mut RootScope<V, H, A>)
        -> (r: Option<V>)
        requires
            old(root).wf(),
            old(root)@.holds_weak(self.slot()),
        ensures
            final(root).wf(),
            final(root).allocator_ == old(root).allocator_,
            final(root)@ == old(root)@.with_sharer_dropped(self.slot()),
            r is Some <==> old(root)@.slot(self.slot()).state == DataState::Sharing && old(
                root,
            )@.cell_of(self.slot()).head.count == 1 && old(root)@.slot(self.slot()).count == 0,
            r is Some <==> old(root)@.sharer_drop_destroys(self.slot()),
            r is Some ==> old(root)@.cell_of(self.slot()).record.outcome(
                old(root)@.cell_of(self.slot()).data->0,
                r->0,
            ),
    {
        root.drop_sharer_(self.slot_)
    }
}

/// A sharer reads the data of its slot's object exactly as long as the slot says that it is
/// shared.
pub proof fn law_what_a_sharer_reads<'a, T, M: TrShareMarker, V, H: Copy>(
    sharing: Sharing<'a, T, M>,
    s: RootView<V, H>,
)
    requires
        s.wf(),
        s.holds_weak(sharing.slot()),
    ensures
        sharing.shares_in(s) <==> s.slot(sharing.slot()).state == DataState::Sharing,
        sharing.shares_in(s) ==> s.cells[key(s.slot(sharing.slot()).strong)].data is Some,
        sharing.shares_in(s) ==> s.cells[key(s.slot(sharing.slot()).strong)].head.count > 0,
{
    sharing.lemma_data(s);
}

} // verus!
