//! Weak handles.

use vstd::prelude::*;

use core::marker::PhantomData;

use crate::abs_::{TrPreDrop, TrShareMarker};
use crate::mem_::TrAllocator;
use crate::ptr_::SlotPtr;
use crate::scope_::ScopeError;
use crate::scope_tree_::root_::RootScope;
use crate::share_marker_::Local;
use crate::strong_::chunk_::K_REFC_MASK;
use crate::weak_::chunk_::{owning_result, sharing_result, DataState, WEAK_RC_MASK};

use super::owning_::Owning;
use super::sharing_::Sharing;

verus! {

/// Why a weak handle gave no strong one.
#[derive(Clone, Copy, Debug, PartialEq, Eq, PartialOrd, Ord, Structural)]
pub enum UpgradeError {
    /// The object is in a state that does not allow it.
    StateErr(DataState),
    /// The scope did not allow it.
    ScopeErr(ScopeError),
}

/// A weak handle of an object of the type `T`. It lives as long as it likes: once the object is
/// gone it gives no strong handle any more.
pub struct Retain<T, M: TrShareMarker = Local> {
    slot_: SlotPtr,
    target_: PhantomData<T>,
    mode_: PhantomData<M>,
}

impl<T, M: TrShareMarker> Retain<T, M> {
    /// The slot that it points at.
    pub closed spec fn slot(&self) -> SlotPtr {
        self.slot_
    }

    pub(crate) fn new(slot: SlotPtr) -> (r: Self)
        ensures
            r.slot() == slot,
    {
        Retain { slot_: slot, target_: PhantomData, mode_: PhantomData }
    }

    /// The state of the object.
    pub fn data_state<V, H: Copy, A: TrAllocator>(&self, root: &RootScope<V, H, A>) -> (r: DataState)
        requires
            root.wf(),
            root@.holds_weak(self.slot()),
        ensures
            r == root@.slot(self.slot()).state,
    {
        root.state_at_(self.slot_)
    }

    /// How many weak handles the object has.
    pub fn weak_count<V, H: Copy, A: TrAllocator>(&self, root: &RootScope<V, H, A>) -> (r: usize)
        requires
            root.wf(),
            root@.holds_weak(self.slot()),
        ensures
            r == root@.slot(self.slot()).count,
    {
        root.weak_count_at_(self.slot_)
    }

    /// How many handles share the object.
    pub fn strong_count<V, H: Copy, A: TrAllocator>(&self, root: &RootScope<V, H, A>) -> (r: u32)
        requires
            root.wf(),
            root@.holds_weak(self.slot()),
        ensures
            r == (if root@.slot(self.slot()).state == DataState::Sharing {
                root@.cell_of(self.slot()).head.count
            } else {
                0
            }),
    {
        root.strong_count_at_(self.slot_)
    }

    /// Whether the handle has outlived the object's scope.
    pub fn is_zombie<V, H: Copy, A: TrAllocator>(&self, root: &RootScope<V, H, A>) -> (r: bool)
        requires
            root.wf(),
            root@.holds_weak(self.slot()),
        ensures
            r == (root@.slot(self.slot()).state == DataState::Zombie),
    {
        self.data_state(root) == DataState::Zombie
    }

    /// Takes the object for a single owner, if nobody holds it strongly; gives the object's
    /// state otherwise.
    pub fn try_owning<V, H: Copy, A: TrAllocator>(&self, root: &mut RootScope<V, H, A>) -> (r: Result<
        Owning<'_, T, M>,
        UpgradeError,
    >)
        requires
            old(root).wf(),
            old(root)@.holds_weak(self.slot()),
        ensures
            final(root).wf(),
            final(root).allocator_ == old(root).allocator_,
            r is Ok <==> old(root)@.slot(self.slot()).state == DataState::Created,
            match r {
                Ok(owning) => {
                    &&& owning_result(old(root)@.slot(self.slot())) == Ok::<_, DataState>(
                        owning.chunk(),
                    )
                    &&& owning.slot() == self.slot()
                    &&& owning.is_held_in(final(root)@)
                    &&& final(root)@ == old(root)@.with_state(self.slot(), DataState::Owning)
                },
                Err(e) => {
                    &&& owning_result(old(root)@.slot(self.slot())) is Err
                    &&& e == UpgradeError::StateErr(old(root)@.slot(self.slot()).state)
                    &&& final(root)@ == old(root)@
                },
            },
    {
        let ghost before = root@;
        match root.try_owning_(self.slot_) {
            Ok(chunk) => {
                proof {
                    assert(before.slot_ok(self.slot_));
                    crate::weak_::chain_::lemma_with_slot_chain(
                        before.pools,
                        before.addr,
                        self.slot_,
                        root@.slot(self.slot_),
                    );
                }
                Ok(Owning::new(chunk, self.slot_, 0))
            },
            Err(state) => Err(UpgradeError::StateErr(state)),
        }
    }

    /// Takes the object for one more sharer, if it has no single owner; gives the object's state
    /// otherwise.
    pub fn try_sharing<V, H: Copy, A: TrAllocator>(&self, root: &mut RootScope<V, H, A>) -> (r:
        Result<Sharing<'_, T, M>, UpgradeError>)
        requires
            old(root).wf(),
            old(root)@.holds_weak(self.slot()),
            old(root)@.slot(self.slot()).state.alive() ==> old(root)@.cell_of(
                self.slot(),
            ).head.count < K_REFC_MASK,
        ensures
            final(root).wf(),
            final(root).allocator_ == old(root).allocator_,
            final(root)@ == old(root)@.with_sharer(self.slot()),
            r is Ok <==> old(root)@.slot(self.slot()).state == DataState::Created || old(
                root,
            )@.slot(self.slot()).state == DataState::Sharing,
            match r {
                Ok(sharing) => {
                    &&& sharing_result(old(root)@.slot(self.slot())) is Ok
                    &&& sharing.slot() == self.slot()
                },
                Err(e) => {
                    &&& sharing_result(old(root)@.slot(self.slot())) is Err
                    &&& e == UpgradeError::StateErr(old(root)@.slot(self.slot()).state)
                },
            },
    {
        match root.try_sharing_(self.slot_) {
            Ok(_) => Ok(Sharing::new(self.slot_)),
            Err(state) => Err(UpgradeError::StateErr(state)),
        }
    }

    /// Makes another weak handle of the object.
    pub fn clone<V, H: Copy, A: TrAllocator>(&self, root: &mut RootScope<V, H, A>) -> (r: Self)
        requires
            old(root).wf(),
            old(root)@.holds_weak(self.slot()),
            old(root)@.slot(self.slot()).count < WEAK_RC_MASK,
        ensures
            final(root).wf(),
            final(root).allocator_ == old(root).allocator_,
            r.slot() == self.slot(),
            final(root)@ == old(root)@.with_count(
                self.slot(),
                (old(root)@.slot(self.slot()).count + 1) as u32,
            ),
    {
        root.clone_weak_(self.slot_);
        Self::new(self.slot_)
    }

    /// Lets go of the handle. With the last one goes data that nobody holds strongly, which is
    /// handed out after its hook has run; and a slot that has outlived its scope goes back to
    /// its pool.
    pub fn release<V, H: Copy + TrPreDrop<V>, A: TrAllocator>(self, root: &mut RootScope<V, H, A>)
        -> (r: Option<V>)
        requires
            old(root).wf(),
            old(root)@.holds_weak(self.slot()),
        ensures
            final(root).wf(),
            final(root).allocator_ == old(root).allocator_,
            final(root)@ == old(root)@.with_weak_dropped(self.slot()),
            r is Some <==> old(root)@.slot(self.slot()).count == 1 && old(root)@.slot(
                self.slot(),
            ).state == DataState::Created,
            r is Some ==> final(root)@.slot(self.slot()).state == DataState::Destroyed,
            r is Some ==> final(root)@.slot(self.slot()).count == 0,
            r is Some <==> old(root)@.weak_drop_destroys(self.slot()),
            r is Some ==> old(root)@.cell_of(self.slot()).record.outcome(
                old(root)@.cell_of(self.slot()).data->0,
                r->0,
            ),
    {
        root.drop_weak_(self.slot_)
    }
}

} // verus!
