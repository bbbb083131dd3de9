//! Strong handles of single owners.

use vstd::prelude::*;

use core::marker::PhantomData;

use crate::abs_::{TrCarry, TrPreDrop, TrShareMarker};
use crate::mem_::TrAllocator;
use crate::ptr_::{ChunkPtr, SlotPtr};
use crate::emplace_::{Ready, TrEmplace};
use crate::scope_::{handled, hook_for, shut, Scope, ScopeError};
use crate::scope_str_::{EmplaceScopeStr, ScopeStr};
use crate::scope_tree_::laws_::law_reclaim;
use crate::scope_tree_::node_::NodeId;
use crate::scope_tree_::put_::{direct_as, direct_done};
use crate::scope_tree_::root_::RootScope;
use crate::scope_tree_::state_::{key, slot_grant, RootView};
use crate::share_marker_::Local;
use crate::weak_::chain_::in_use;
use crate::weak_::chunk_::{DataState, WEAK_RC_MASK};
use crate::weak_::pre_drop_::type_key;

use super::retain_::{Retain, UpgradeError};

verus! {

/// The only strong handle of an object of the type `T`, like a box in a scope.
///
/// It comes from a weak handle, which it borrows, or straight from a scope. In the first case
/// releasing it gives the access back; in the second, with no weak handle asked for, it takes
/// the data with it.
pub struct Owning<'a, T, M: TrShareMarker = Local> {
    chunk_: ChunkPtr,
    /// The slot of the weak handle that it came from; null where it came from a scope.
    slot_: SlotPtr,
    /// What is noted of data whose size its type does not tell.
    meta_: usize,
    life_: PhantomData<&'a T>,
    mode_: PhantomData<M>,
}

impl<'a, T, M: TrShareMarker> Owning<'a, T, M> {
    /// Where the object is.
    pub closed spec fn chunk(&self) -> ChunkPtr {
        self.chunk_
    }

    /// The slot of the weak handle that it came from; null where it came from a scope.
    pub closed spec fn slot(&self) -> SlotPtr {
        self.slot_
    }

    /// What is noted of data whose size its type does not tell.
    pub closed spec fn meta(&self) -> usize {
        self.meta_
    }

    /// Whether this is the handle of an object of the tree: the weak handle that it came from
    /// is there or, where it came from a scope, the data is there for it.
    pub open spec fn is_held_in<V, H: Copy>(&self, s: RootView<V, H>) -> bool {
        if self.slot() != SlotPtr::null() {
            s.holds_weak(self.slot())
        } else {
            let c = self.chunk();
            &&& c != ChunkPtr::null()
            &&& s.cells.contains_key(key(c))
            &&& s.cells[key(c)].data is Some
            &&& s.cells[key(c)].head.weak != SlotPtr::null() ==> s.slot(
                s.cells[key(c)].head.weak,
            ).state == DataState::Owning
        }
    }

    /// The object's slot; null where it has none.
    pub open spec fn slot_in<V, H: Copy>(&self, s: RootView<V, H>) -> SlotPtr {
        if self.slot() != SlotPtr::null() {
            self.slot()
        } else {
            s.cells[key(self.chunk())].head.weak
        }
    }

    /// Whether the object's data is there for this handle. It is not where the scope was
    /// emptied meanwhile.
    pub open spec fn owns_in<V, H: Copy>(&self, s: RootView<V, H>) -> bool {
        self.slot_in(s) == SlotPtr::null() || s.slot(self.slot_in(s)).state == DataState::Owning
    }

    /// The key of the object.
    pub open spec fn key_in<V, H: Copy>(&self, s: RootView<V, H>) -> usize {
        if self.slot_in(s) == SlotPtr::null() {
            key(self.chunk())
        } else {
            key(s.slot(self.slot_in(s)).strong)
        }
    }

    pub(crate) fn new(chunk: ChunkPtr, slot: SlotPtr, meta: usize) -> (r: Self)
        ensures
            r.chunk() == chunk,
            r.slot() == slot,
            r.meta() == meta,
    {
        Owning { chunk_: chunk, slot_: slot, meta_: meta, life_: PhantomData, mode_: PhantomData }
    }

    /// The object's slot is in use.
    proof fn lemma_slot<V, H: Copy>(&self, s: RootView<V, H>)
        requires
            s.wf(),
            self.is_held_in(s),
        ensures
            self.slot_in(s) != SlotPtr::null() ==> in_use(s.pools, self.slot_in(s)),
            self.slot() == SlotPtr::null() ==> self.owns_in(s),
            self.owns_in(s) ==> s.cells.contains_key(self.key_in(s)) && s.cells[self.key_in(
                s,
            )].data is Some,
            self.owns_in(s) && self.slot_in(s) != SlotPtr::null() ==> s.slot(
                self.slot_in(s),
            ).strong != ChunkPtr::null() && s.homes.contains_key(self.slot_in(s)),
    {
        let p = self.slot_in(s);
        if self.slot() == SlotPtr::null() {
            assert(s.cell_ok(key(self.chunk())));
            if p != SlotPtr::null() {
                assert(s.slot_ok(p));
            }
        } else if s.slot(p).state == DataState::Owning {
            if !s.homes.contains_key(p) {
                assert(s.stray_ok(p));
            }
            assert(s.slot_ok(p));
        }
    }

    /// The object's slot; null where it has none.
    fn slot_in_<V, H: Copy, A: TrAllocator>(&self, root: &RootScope<V, H, A>) -> (r: SlotPtr)
        requires
            root.wf(),
            self.is_held_in(root@),
        ensures
            r == self.slot_in(root@),
    {
        if !self.slot_.is_null() {
            return self.slot_;
        }
        let cell = root.store_.get(self.chunk_.raw - 1);
        match &cell.chunk_ {
            Some(chunk) => match chunk.weak_chunk() {
                Some(p) => p,
                None => SlotPtr::null(),
            },
            None => SlotPtr::null(),
        }
    }

    /// Where the object is, if its data is there for this handle.
    fn chunk_in_<V, H: Copy, A: TrAllocator>(&self, root: &RootScope<V, H, A>) -> (r: Option<
        ChunkPtr,
    >)
        requires
            root.wf(),
            self.is_held_in(root@),
        ensures
            match r {
                Some(c) => self.owns_in(root@) && c != ChunkPtr::null() && key(c) == self.key_in(
                    root@,
                ),
                None => !self.owns_in(root@),
            },
    {
        proof {
            self.lemma_slot(root@);
        }
        let p = self.slot_in_(root);
        if p.is_null() {
            return Some(self.chunk_);
        }
        if root.state_at_(p) != DataState::Owning {
            return None;
        }
        root.weak_.slot(p).strong_chunk()
    }

    /// The state of the object. As long as no weak handle was asked for it is owned.
    pub fn data_state<V, H: Copy, A: TrAllocator>(&self, root: &RootScope<V, H, A>) -> (r: DataState)
        requires
            root.wf(),
            self.is_held_in(root@),
        ensures
            r == (if self.slot_in(root@) == SlotPtr::null() {
                DataState::Owning
            } else {
                root@.slot(self.slot_in(root@)).state
            }),
    {
        proof {
            self.lemma_slot(root@);
        }
        let p = self.slot_in_(root);
        if p.is_null() {
            DataState::Owning
        } else {
            root.state_at_(p)
        }
    }

    /// How many weak handles the object has.
    pub fn weak_count<V, H: Copy, A: TrAllocator>(&self, root: &RootScope<V, H, A>) -> (r: usize)
        requires
            root.wf(),
            self.is_held_in(root@),
        ensures
            r == (if self.slot_in(root@) == SlotPtr::null() {
                0
            } else {
                root@.slot(self.slot_in(root@)).count
            }),
    {
        proof {
            self.lemma_slot(root@);
        }
        let p = self.slot_in_(root);
        if p.is_null() {
            0
        } else {
            root.weak_count_at_(p)
        }
    }

    /// The data, if it is there and a `T`.
    pub fn get<'r, V: TrCarry<T>, H: Copy, A: TrAllocator>(&self, root: &'r RootScope<V, H, A>) -> (r:
        Option<&'r T>)
        requires
            root.wf(),
            self.is_held_in(root@),
        ensures
            match r {
                Some(data) => self.owns_in(root@) && root@.cells[self.key_in(
                    root@,
                )].data->0.carried() == Some(*data),
                None => self.owns_in(root@) ==> root@.cells[self.key_in(
                    root@,
                )].data->0.carried() is None,
            },
            self.slot() != SlotPtr::null() ==> (r is Some <==> root@.slot(self.slot()).state
                == DataState::Owning && root@.cell_of(self.slot()).data->0.carried() is Some),
    {
        proof {
            self.lemma_slot(root@);
        }
        match self.chunk_in_(root) {
            None => None,
            Some(c) => match root.data_at_(c) {
                None => None,
                Some(value) => value.get(),
            },
        }
    }

    /// The data, to change, if it is there and a `T`.
    pub fn get_mut<'r, V: TrCarry<T>, H: Copy, A: TrAllocator>(
        &mut self,
        root: &'r mut RootScope<V, H, A>,
    ) -> (r: Option<&'r mut T>)
        requires
            old(root).wf(),
            old(self).is_held_in(old(root)@),
        ensures
            *final(self) == *old(self),
            final(root).wf(),
            final(root).allocator_ == old(root).allocator_,
            match r {
                Some(data) => {
                    let k = old(self).key_in(old(root)@);
                    &&& old(self).owns_in(old(root)@)
                    &&& old(root)@.cells[k].data->0.carried() == Some(*data)
                    &&& final(root)@ == old(root)@.with_data(k, V::carrying(*final(data)))
                },
                None => {
                    &&& final(root)@ == old(root)@
                    &&& old(self).owns_in(old(root)@) ==> old(root)@.cells[old(self).key_in(
                        old(root)@,
                    )].data->0.carried() is None
                },
            },
    {
        proof {
            self.lemma_slot(root@);
        }
        match self.chunk_in_(root) {
            None => None,
            Some(c) => {
                if root.data_at_(c).is_none() || root.data_at_(c).unwrap().get().is_none() {
                    return None;
                }
                match root.data_mut_at_(c) {
                    None => None,
                    Some(value) => value.get_mut(),
                }
            },
        }
    }

    /// Makes a weak handle of the object. Where it has no slot yet it is given one, and keeps it:
    /// from then on the data does not go with this handle while a weak one is left. Fails where
    /// no slot is to be had.
    pub fn retained<V, H: Copy, A: TrAllocator>(&self, root: &mut RootScope<V, H, A>) -> (r: Result<
        Retain<T, M>,
        UpgradeError,
    >)
        requires
            old(root).wf(),
            self.is_held_in(old(root)@),
            self.slot_in(old(root)@) != SlotPtr::null() ==> old(root)@.slot(
                self.slot_in(old(root)@),
            ).count < WEAK_RC_MASK,
        ensures
            final(root).wf(),
            self.is_held_in(final(root)@),
            r matches Ok(retain) ==> retain.slot() == self.slot_in(final(root)@)
                && final(root)@.holds_weak(retain.slot()),
            self.owns_in(old(root)@) ==> self.owns_in(final(root)@) && final(root)@.cells[self.key_in(
                final(root)@,
            )].data == old(root)@.cells[self.key_in(old(root)@)].data,
            final(root).allocator_ == (if self.slot_in(old(root)@) != SlotPtr::null() {
                old(root).allocator_
            } else {
                old(root)@.after_slot(old(root).allocator_)
            }),
            ({
                let p = self.slot_in(old(root)@);
                if p != SlotPtr::null() {
                    &&& r is Ok
                    &&& r->Ok_0.slot() == p
                    &&& final(root)@ == old(root)@.with_count(
                        p,
                        (old(root)@.slot(p).count + 1) as u32,
                    )
                } else {
                    match r {
                        Ok(retain) => {
                            &&& old(root).grants_slot()
                            &&& retain.slot() == old(root)@.slot_to_take()
                            &&& final(root)@.holds_weak(retain.slot())
                            &&& final(root)@ == old(root)@.with_slot_taken(
                                slot_grant(old(root).allocator_)->0,
                            ).with_adopted(
                                retain.slot(),
                                key(self.chunk()),
                                DataState::Owning,
                                self.meta(),
                            )
                        },
                        Err(e) => {
                            &&& e == UpgradeError::ScopeErr(ScopeError::MallocFailed)
                            &&& !old(root).grants_slot()
                            &&& final(root)@ == old(root)@
                        },
                    }
                }
            }),
    {
        proof {
            self.lemma_slot(root@);
        }
        let ghost before = root@;
        let p = self.slot_in_(root);
        if !p.is_null() {
            root.clone_weak_(p);
            return Ok(Retain::new(p));
        }
        match root.allocate_weak_() {
            None => Err(UpgradeError::ScopeErr(ScopeError::MallocFailed)),
            Some(p) => {
                root.adopt_(p, self.chunk_, DataState::Owning, self.meta_);
                Ok(Retain::new(p))
            },
        }
    }

    /// Lets go of the handle. The data goes with it, and is handed out after its hook has run,
    /// where no weak handle is left.
    pub fn release<V, H: Copy + TrPreDrop<V>, A: TrAllocator>(self, root: &mut RootScope<V, H, A>)
        -> (r: Option<V>)
        requires
            old(root).wf(),
            self.is_held_in(old(root)@),
        ensures
            final(root).wf(),
            final(root).allocator_ == old(root).allocator_,
            ({
                let p = self.slot_in(old(root)@);
                let k = self.key_in(old(root)@);
                if p == SlotPtr::null() {
                    &&& final(root)@ == old(root)@.with_dead_cell(k)
                    &&& r is Some
                    &&& old(root)@.cells[k].record.outcome(old(root)@.cells[k].data->0, r->0)
                } else {
                    &&& final(root)@ == old(root)@.with_owner_dropped(p)
                    &&& r is Some <==> old(root)@.slot(p).state == DataState::Owning && old(
                        root,
                    )@.slot(p).count == 0
                    &&& r is Some <==> old(root)@.owner_drop_destroys(p)
                    &&& r is Some ==> old(root)@.cells[k].record.outcome(
                        old(root)@.cells[k].data->0,
                        r->0,
                    )
                }
            }),
    {
        proof {
            self.lemma_slot(root@);
        }
        let p = self.slot_in_(root);
        if p.is_null() {
            Some(root.drop_direct_(self.chunk_))
        } else {
            root.drop_owner_(p)
        }
    }
}

/// Whether the object at `c`, which has no weak slot, has this data and this hook.
pub open spec fn kept<V: TrCarry<T>, H: Copy, T>(
    s: RootView<V, H>,
    c: ChunkPtr,
    data: T,
    hook: Option<H>,
) -> bool {
    &&& s.cells[key(c)].data == Some(V::carrying(data))
    &&& V::carrying(data).carried() == Some(data)
    &&& s.cells[key(c)].record.hook_ == hook
}

/// What placing an object in the scope `n` for a single owner comes to. A closed scope refuses
/// it where the tree is strict about that; otherwise only memory can run out.
pub open spec fn owned<V: TrCarry<E::Target>, H: Copy, A: TrAllocator, E: TrEmplace>(
    before: RootScope<V, H, A>,
    after: RootScope<V, H, A>,
    n: NodeId,
    emplace: E,
    r: Result<Owning<'_, E::Target, Local>, ScopeError>,
) -> bool {
    if shut(before@, n) {
        &&& r is Err && r->Err_0 == ScopeError::ClosedScope
        &&& after@ == before@
        &&& after.allocator_ == before.allocator_
    } else {
        &&& direct_done(
            before@.reclaimed(),
            before@.reclaimed_memory(before.allocator_),
            after@,
            after.allocator_,
            n,
            emplace,
            match r {
                Ok(owning) => Some(owning.chunk()),
                Err(_) => None,
            },
        )
        &&& match r {
            Ok(owning) => {
                &&& owning.slot() == SlotPtr::null()
                &&& owning.meta() == emplace.meta()
                &&& owning.is_held_in(after@)
                &&& exists|data: E::Target|
                    emplace.places(data) && #[trigger] kept::<V, H, E::Target>(
                        after@,
                        owning.chunk(),
                        data,
                        hook_for(before@, None, type_key::<E::Target>()),
                    )
            },
            Err(e) => e == ScopeError::MallocFailed,
        }
    }
}

/// Places an object in a scope for a single owner.
fn try_local_<'a, V: TrCarry<E::Target>, H: Copy + TrPreDrop<V>, A: TrAllocator, E: TrEmplace>(
    emplace: E,
    scope: &'a mut Scope<Local>,
    root: &mut RootScope<V, H, A>,
) -> (r: Result<Owning<'a, E::Target, Local>, ScopeError>)
    requires
        old(root).wf(),
        handled(old(root)@, old(scope).node()),
        emplace.ready(),
    ensures
        *final(scope) == *old(scope),
        final(root).wf(),
        handled(final(root)@, final(scope).node()),
        owned(*old(root), *final(root), old(scope).node(), emplace, r),
        r is Ok <==> !shut(old(root)@, old(scope).node()) && old(root).grants_place(
                old(scope).node(),
                emplace.layout(),
            ),
{
    match scope.ensure_open_(root) {
        Err(e) => {
            return Err(e);
        },
        Ok(_) => {},
    }
    let meta: usize = emplace.meta_();
    let ghost before = root@;
    let ghost memory = before.reclaimed_memory(root.allocator_);
    proof {
        law_reclaim(before);
        assert(before.reclaimed().tree.nodes.contains_key(scope.node()));
    }
    match root.put_direct_(scope.id_(), emplace) {
        Ok(c) => {
            proof {
                let ready = before.reclaimed();
                let data = choose|data: E::Target| #[trigger]
                    direct_as(ready, memory, root@, scope.node(), emplace, c, data);
                assert(kept::<V, H, E::Target>(
                    root@,
                    c,
                    data,
                    hook_for(before, None, type_key::<E::Target>()),
                ));
            }
            Ok(Owning::new(c, SlotPtr::null(), meta))
        },
        Err(_) => Err(ScopeError::MallocFailed),
    }
}

impl<'a, T> Owning<'a, T, Local> {
    /// Places `data` in the scope. There is no weak handle of it, and none is needed; as long as
    /// none is asked for, the data goes with this handle.
    pub fn try_new_local<V: TrCarry<T>, H: Copy + TrPreDrop<V>, A: TrAllocator>(
        data: T,
        scope: &'a mut Scope<Local>,
        root: &mut RootScope<V, H, A>,
    ) -> (r: Result<Self, ScopeError>)
        requires
            old(root).wf(),
            handled(old(root)@, old(scope).node()),
        ensures
            *final(scope) == *old(scope),
            final(root).wf(),
            handled(final(root)@, final(scope).node()),
            owned(*old(root), *final(root), old(scope).node(), Ready { data_: data }, r),
            r is Ok <==> !shut(old(root)@, old(scope).node()) && old(root).grants_place(
                old(scope).node(),
                (Ready { data_: data }).layout(),
            ),
    {
        try_local_(Ready { data_: data }, scope, root)
    }
}

impl<'a> Owning<'a, ScopeStr, Local> {
    /// Places a copy of a text in the scope. There is no weak handle of it.
    pub fn try_local_str<V: TrCarry<ScopeStr>, H: Copy + TrPreDrop<V>, A: TrAllocator>(
        text: &str,
        scope: &'a mut Scope<Local>,
        root: &mut RootScope<V, H, A>,
    ) -> (r: Result<Self, ScopeError>)
        requires
            old(root).wf(),
            handled(old(root)@, old(scope).node()),
        ensures
            *final(scope) == *old(scope),
            final(root).wf(),
            handled(final(root)@, final(scope).node()),
            owned(
                *old(root),
                *final(root),
                old(scope).node(),
                EmplaceScopeStr { source_: text },
                r,
            ),
            r is Ok <==> !shut(old(root)@, old(scope).node()) && old(root).grants_place(
                old(scope).node(),
                (EmplaceScopeStr { source_: text }).layout(),
            ),
    {
        try_local_(EmplaceScopeStr::copying(text), scope, root)
    }
}

/// What an owner stands for. One that came from a weak handle has that handle's slot, and reads
/// the data of its object as long as the slot says that it is owned; one that came straight from a
/// scope has its object, and reads its data unless the object got a slot that says otherwise.
pub proof fn law_what_an_owner_reads<'a, T, M: TrShareMarker, V, H: Copy>(
    owning: Owning<'a, T, M>,
    s: RootView<V, H>,
)
    ensures
        ({
            let p = owning.slot();
            p != SlotPtr::null() ==> {
                &&& owning.is_held_in(s) <==> in_use(s.pools, p) && s.slot(p).count > 0
                &&& owning.slot_in(s) == p
                &&& owning.owns_in(s) <==> s.slot(p).state == DataState::Owning
                &&& owning.key_in(s) == key(s.slot(p).strong)
            }
        }),
        ({
            let c = owning.chunk();
            let q = s.cells[key(c)].head.weak;
            owning.slot() == SlotPtr::null() ==> {
                &&& owning.is_held_in(s) <==> c != ChunkPtr::null() && s.cells.contains_key(key(c))
                    && s.cells[key(c)].data is Some && (q != SlotPtr::null() ==> s.slot(q).state
                    == DataState::Owning)
                &&& owning.slot_in(s) == q
                &&& owning.owns_in(s) <==> q == SlotPtr::null() || s.slot(q).state
                    == DataState::Owning
                &&& owning.key_in(s) == (if q == SlotPtr::null() {
                    key(c)
                } else {
                    key(s.slot(q).strong)
                })
            }
        }),
{
}

} // verus!
