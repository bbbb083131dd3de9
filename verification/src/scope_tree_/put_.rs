//! How an object is put into a scope.

use vstd::prelude::*;

use typeid::ConstTypeId;

use crate::abs_::{TrCarry, TrPreDrop};
use crate::emplace_::TrEmplace;
use crate::mem_::{AllocError, Layout, TrAllocator};
use crate::ptr_::{ChunkPtr, SlotPtr};
use crate::strong_::chunk_::{STRONG_HEAD_ALIGN, STRONG_HEAD_SIZE};
use crate::weak_::chunk_::DataState;
use crate::weak_::pre_drop_::{resolve_, resolved, type_key, PreDropRecord};

use super::laws_::{law_reclaim, same_scope};
use super::node_::{after_placing, opened_layout, placed, NodeId};
use super::promises_::{
    law_placing_leaves_none_forgotten, law_put_leaves_none_forgotten, none_forgotten,
};
use super::root_::{hooks_of, RootScope};
use super::state_::{
    key, lemma_hooks_changed, lemma_slot_released, slot_grant, RootView,
};
use super::teardown_::released;

verus! {

/// The layout of a chunk's head.
pub open spec fn head_layout() -> Layout {
    Layout { size: STRONG_HEAD_SIZE, align: STRONG_HEAD_ALIGN }
}

/// Whether a chunk with data of this layout has a size at all.
pub open spec fn chunk_fits(data: Layout) -> bool {
    head_layout().extended(data).1 <= usize::MAX
}

/// The layout of a chunk with data of this layout.
pub open spec fn chunk_layout(data: Layout) -> Layout {
    let (_, size, align) = head_layout().extended(data);
    Layout { size: size as usize, align: align as usize }
}

impl<V, H: Copy> RootView<V, H> {
    /// The hook that the type with the key `key` was given.
    pub open spec fn hook_of(&self, key: ConstTypeId) -> Option<PreDropRecord<H>> {
        if self.hooks.contains_key(key) {
            Some(self.hooks[key])
        } else {
            None
        }
    }

    /// The tree after a chunk with data of this layout found its place in the scope `n`, or
    /// found none.
    pub open spec fn with_place(&self, n: NodeId, data: Layout, grant: Option<usize>) -> Self {
        if chunk_fits(data) {
            self.with_block(n, chunk_layout(data), grant)
        } else {
            *self
        }
    }

    /// The place that a chunk with data of this layout finds in the scope `n`.
    pub open spec fn place_for(&self, n: NodeId, data: Layout, grant: Option<usize>) -> Option<
        usize,
    > {
        if chunk_fits(data) {
            placed(self.scope_pools(n), chunk_layout(data), grant).0
        } else {
            None
        }
    }

    /// Whether a chunk with data of this layout finds a place in the scope `n`, in its last pool
    /// or in one that the allocator grants.
    pub open spec fn finds_place<A: TrAllocator>(&self, memory: A, n: NodeId, data: Layout) -> bool {
        self.place_for(n, data, data_grant(memory, data)) is Some
    }

    /// The allocator after a place in the scope `n` was looked for.
    pub open spec fn after_place<A: TrAllocator>(&self, memory: A, n: NodeId, data: Layout) -> A {
        if chunk_fits(data) {
            after_placing(memory, self.scope_pools(n), chunk_layout(data))
        } else {
            memory
        }
    }

    /// Whether there are a weak slot and a place in the scope `n` for data of this layout, in
    /// the pools or in such as the allocator grants.
    pub open spec fn finds_room<A: TrAllocator>(&self, memory: A, n: NodeId, data: Layout) -> bool {
        self.finds_slot(memory) && self.finds_place(self.after_slot(memory), n, data)
    }

    /// The allocator after a weak slot was asked for and, where there was one, a place in the
    /// scope `n`.
    pub open spec fn after_room<A: TrAllocator>(&self, memory: A, n: NodeId, data: Layout) -> A {
        if self.finds_slot(memory) {
            self.after_place(self.after_slot(memory), n, data)
        } else {
            self.after_slot(memory)
        }
    }

    /// The tree after an object was placed in the scope `n` for a single owner, under the key
    /// `k`. Where that takes a new pool, `grant` is where it is.
    pub open spec fn with_direct(
        &self,
        n: NodeId,
        layout: Layout,
        grant: Option<usize>,
        k: usize,
        value: V,
        record: PreDropRecord<H>,
    ) -> Self {
        self.with_place(n, layout, grant).with_object(
            n,
            k,
            value,
            record,
            self.place_for(n, layout, grant)->0,
        )
    }

    /// The tree after an object was put into the scope `n` under the key `k`, with one weak
    /// handle. Where that takes a new pool of weak slots, it is at `addr`; where it takes a new
    /// pool for the data, that is at `grant`.
    pub open spec fn with_put(
        &self,
        n: NodeId,
        layout: Layout,
        meta: usize,
        addr: usize,
        grant: Option<usize>,
        k: usize,
        value: V,
        record: PreDropRecord<H>,
    ) -> Self {
        self.with_slot_taken(addr).with_direct(n, layout, grant, k, value, record).with_adopted(
            self.slot_to_take(),
            k,
            DataState::Created,
            meta,
        )
    }
}

/// Where a new pool for data of this layout would be.
pub open spec fn data_grant<A: TrAllocator>(memory: A, data: Layout) -> Option<usize> {
    memory.grants(opened_layout(chunk_layout(data)))
}

/// The record that holds for an object of the type `T`: its own, else the one that its type was
/// given, else the plain one of its type.
pub open spec fn record_for<T: ?Sized, V, H: Copy>(
    s: RootView<V, H>,
    object_level: Option<PreDropRecord<H>>,
) -> PreDropRecord<H> {
    resolved(object_level, s.hook_of(type_key::<T>()), PreDropRecord::plain::<T>())
}

/// Whether `data` was made by `emplace` and put into the scope `n` of the tree `ready`, under
/// the key `k`, which was not in use.
pub open spec fn put_as<V: TrCarry<E::Target>, H: Copy, A: TrAllocator, E: TrEmplace>(
    ready: RootView<V, H>,
    memory: A,
    after: RootView<V, H>,
    n: NodeId,
    emplace: E,
    object_level: Option<PreDropRecord<H>>,
    k: usize,
    data: E::Target,
) -> bool {
    &&& emplace.places(data)
    &&& V::carrying(data).carried() == Some(data)
    &&& k < usize::MAX
    &&& !ready.cells.contains_key(k)
    &&& after == ready.with_put(
        n,
        emplace.layout(),
        emplace.meta(),
        slot_grant(memory)->0,
        data_grant(ready.after_slot(memory), emplace.layout()),
        k,
        V::carrying(data),
        record_for::<E::Target, V, H>(ready, object_level),
    )
}

/// What putting an object into the scope `n` of the tree `ready` comes to, and what is left of
/// the memory. It succeeds where there is room. Where there is a weak slot but no place, the
/// slot stays free, in a new pool where it took one.
pub open spec fn put_done<V: TrCarry<E::Target>, H: Copy, A: TrAllocator, E: TrEmplace>(
    ready: RootView<V, H>,
    memory: A,
    after: RootView<V, H>,
    left: A,
    n: NodeId,
    emplace: E,
    object_level: Option<PreDropRecord<H>>,
    r: Option<SlotPtr>,
) -> bool {
    &&& r is Some <==> ready.finds_room(memory, n, emplace.layout())
    &&& left == ready.after_room(memory, n, emplace.layout())
    &&& match r {
        Some(p) => {
            &&& p == ready.slot_to_take()
            &&& after.holds_weak(p)
            &&& exists|k: usize, data: E::Target| #[trigger]
                put_as(ready, memory, after, n, emplace, object_level, k, data)
        },
        None => after == (if ready.finds_slot(memory) {
            ready.with_free_slot(slot_grant(memory)->0)
        } else {
            ready
        }),
    }
}

/// Whether `data` was made by `emplace` and placed in the scope `n` of the tree `ready` as the
/// object at `c`, which was not there before.
pub open spec fn direct_as<V: TrCarry<E::Target>, H: Copy, A: TrAllocator, E: TrEmplace>(
    ready: RootView<V, H>,
    memory: A,
    after: RootView<V, H>,
    n: NodeId,
    emplace: E,
    c: ChunkPtr,
    data: E::Target,
) -> bool {
    &&& emplace.places(data)
    &&& V::carrying(data).carried() == Some(data)
    &&& !ready.cells.contains_key(key(c))
    &&& after == ready.with_direct(
        n,
        emplace.layout(),
        data_grant(memory, emplace.layout()),
        key(c),
        V::carrying(data),
        record_for::<E::Target, V, H>(ready, None),
    )
}

/// What placing an object in the scope `n` of the tree `ready` for a single owner comes to, and
/// what is left of the memory. It succeeds where there is a place.
pub open spec fn direct_done<V: TrCarry<E::Target>, H: Copy, A: TrAllocator, E: TrEmplace>(
    ready: RootView<V, H>,
    memory: A,
    after: RootView<V, H>,
    left: A,
    n: NodeId,
    emplace: E,
    r: Option<ChunkPtr>,
) -> bool {
    &&& r is Some <==> ready.finds_place(memory, n, emplace.layout())
    &&& left == ready.after_place(memory, n, emplace.layout())
    &&& match r {
        Some(c) => {
            &&& after.holds_direct(c)
            &&& exists|data: E::Target| #[trigger]
                direct_as(ready, memory, after, n, emplace, c, data)
        },
        None => after == ready,
    }
}

impl<V, H: Copy, A: TrAllocator> RootScope<V, H, A> {
    /// Whether there is a place in the scope `n` for data of this layout once the scopes that
    /// nothing holds are reclaimed: in its pools, or in one that the allocator grants then.
    pub open spec fn grants_place(&self, n: NodeId, data: Layout) -> bool {
        self@.reclaimed().finds_place(self@.reclaimed_memory(self.allocator_), n, data)
    }

    /// Whether an object with data of this layout can be put into the scope `n` once the scopes
    /// that nothing holds are reclaimed: there are a weak slot and a place for the data, in the
    /// pools or in such as the allocator grants then.
    pub open spec fn grants_room(&self, n: NodeId, data: Layout) -> bool {
        self@.reclaimed().finds_room(self@.reclaimed_memory(self.allocator_), n, data)
    }

    /// Picks the record that holds for an object of the type `T`: its own, else the one that
    /// its type was given, else the plain one of its type.
    pub fn record_for_<T>(&mut self, object_level: Option<PreDropRecord<H>>) -> (r: PreDropRecord<H>)
        requires
            old(self).wf(),
        ensures
            final(self).wf(),
            final(self)@ == old(self)@,
            final(self).allocator_ == old(self).allocator_,
            r == record_for::<T, V, H>(old(self)@, object_level),
    {
        let ghost before = self@;
        let r = resolve_::<T, H>(Some(&mut self.registry_), object_level);
        proof {
            assert(hooks_of(self.registry_) =~= before.hooks);
            assert(self@ =~= before);
            let found = old(self).registry_.record_of(type_key::<T>());
            assert(found == before.hook_of(type_key::<T>()));
        }
        r
    }

    /// Gives the type `T` the hook `hook`, in the whole tree, in place of one that it had.
    pub fn set_pre_drop_<T: ?Sized>(&mut self, hook: H)
        requires
            old(self).wf(),
        ensures
            final(self).wf(),
            final(self)@ == (RootView {
                hooks: old(self)@.hooks.insert(type_key::<T>(), PreDropRecord::hooked(hook)),
                ..old(self)@
            }),
            final(self).allocator_ == old(self).allocator_,
    {
        let ghost before = self@;
        self.registry_.register_::<T>(hook);
        proof {
            let after = before.hooks.insert(type_key::<T>(), PreDropRecord::hooked(hook));
            assert(hooks_of(self.registry_) =~= after);
            assert(self@ =~= (RootView { hooks: after, ..before }));
            lemma_hooks_changed(before, after);
        }
    }

    /// Finds a place in the scope `n` for a chunk with data of this layout.
    fn find_place_(&mut self, n: NodeId, data: Layout) -> (r: Result<usize, AllocError>)
        requires
            old(self).wf(),
            old(self)@.tree.nodes.contains_key(n),
            data.wf(),
        ensures
            final(self).wf(),
            ({
                let grant = data_grant(old(self).allocator_, data);
                &&& final(self)@ == old(self)@.with_place(n, data, grant)
                &&& r == (match old(self)@.place_for(n, data, grant) {
                    Some(addr) => Ok(addr),
                    None => Err(AllocError),
                })
            }),
            final(self).allocator_ == old(self)@.after_place(old(self).allocator_, n, data),
    {
        let head = Layout { size: STRONG_HEAD_SIZE, align: STRONG_HEAD_ALIGN };
        match head.extend(data) {
            None => Err(AllocError),
            Some((layout, _)) => self.allocate(n, layout),
        }
    }
}

impl<V, H: Copy + TrPreDrop<V>, A: TrAllocator> RootScope<V, H, A> {
    /// Puts an object into the scope `n`: reclaims the scopes that nothing holds, takes a weak
    /// slot and a place for the data, has the value made, and hands out one weak handle.
    ///
    /// Where a weak slot was found but no place, the slot goes back.
    pub fn put_<E: TrEmplace>(
        &mut self,
        n: NodeId,
        emplace: E,
        object_level: Option<PreDropRecord<H>>,
    ) -> (r: Result<SlotPtr, AllocError>) where V: TrCarry<E::Target>
        requires
            old(self).wf(),
            old(self)@.tree.nodes.contains_key(n),
            !old(self)@.tree.nodes[n].dropped,
            emplace.ready(),
        ensures
            final(self).wf(),
            exists|freed: Seq<V>| #[trigger] released(old(self)@.reclaim_victims(), freed),
            put_done(
                old(self)@.reclaimed(),
                old(self)@.reclaimed_memory(old(self).allocator_),
                final(self)@,
                final(self).allocator_,
                n,
                emplace,
                object_level,
                match r {
                    Ok(p) => Some(p),
                    Err(_) => None,
                },
            ),
            r is Ok <==> old(self).grants_room(n, emplace.layout()),
            none_forgotten(final(self)@),
    {
        let _ = self.reclaim_pending_();
        let ghost ready = self@;
        let ghost memory = self.allocator_;
        proof {
            law_reclaim(old(self)@);
            assert(ready.tree.nodes.contains_key(n));
            assert(same_scope(old(self)@, ready, n));
        }
        let record = self.record_for_::<E::Target>(object_level);
        let ghost addr = slot_grant(memory)->0;
        let p = match self.allocate_weak_() {
            None => {
                proof {
                    law_put_leaves_none_forgotten(
                        ready,
                        memory,
                        self@,
                        self.allocator_,
                        n,
                        emplace,
                        object_level,
                        None,
                    );
                }
                return Err(AllocError);
            },
            Some(p) => p,
        };
        let ghost taken = self@;
        let layout = emplace.layout_();
        let meta: usize = emplace.meta_();
        let ghost grant = data_grant(self.allocator_, layout);
        let found = self.find_place_(n, layout);
        let place: usize = match found {
            Err(e) => {
                proof {
                    lemma_no_place(taken, n, layout, grant);
                    lemma_slot_released(ready, addr);
                }
                let _ = self.weak_.give_back(p);
                assert(self@ =~= ready.with_free_slot(addr));
                proof {
                    law_put_leaves_none_forgotten(
                        ready,
                        memory,
                        self@,
                        self.allocator_,
                        n,
                        emplace,
                        object_level,
                        None,
                    );
                }
                return Err(e);
            },
            Ok(place) => place,
        };
        let data = emplace.emplace();
        let value = V::carry(data);
        let c = self.store_object_(n, value, record, place);
        let ghost k = key(c);
        assert(self@ == taken.with_direct(n, layout, grant, k, value, record));
        assert(self@.slot(p) == taken.slot(p));
        self.adopt_(p, c, DataState::Created, meta);
        assert(put_as(ready, memory, self@, n, emplace, object_level, k, data));
        proof {
            law_put_leaves_none_forgotten(
                ready,
                memory,
                self@,
                self.allocator_,
                n,
                emplace,
                object_level,
                Some(p),
            );
        }
        Ok(p)
    }

    /// Places an object in the scope `n` for a single owner: reclaims the scopes that nothing
    /// holds, takes a place for the data, and has the value made. The object has no weak slot.
    pub fn put_direct_<E: TrEmplace>(&mut self, n: NodeId, emplace: E) -> (r: Result<
        ChunkPtr,
        AllocError,
    >) where V: TrCarry<E::Target>
        requires
            old(self).wf(),
            old(self)@.tree.nodes.contains_key(n),
            !old(self)@.tree.nodes[n].dropped,
            emplace.ready(),
        ensures
            final(self).wf(),
            exists|freed: Seq<V>| #[trigger] released(old(self)@.reclaim_victims(), freed),
            direct_done(
                old(self)@.reclaimed(),
                old(self)@.reclaimed_memory(old(self).allocator_),
                final(self)@,
                final(self).allocator_,
                n,
                emplace,
                match r {
                    Ok(c) => Some(c),
                    Err(_) => None,
                },
            ),
            r is Ok <==> old(self).grants_place(n, emplace.layout()),
            none_forgotten(final(self)@),
    {
        let _ = self.reclaim_pending_();
        let ghost ready = self@;
        let ghost memory = self.allocator_;
        proof {
            law_reclaim(old(self)@);
            assert(ready.tree.nodes.contains_key(n));
            assert(same_scope(old(self)@, ready, n));
        }
        let record = self.record_for_::<E::Target>(None);
        let layout = emplace.layout_();
        let ghost grant = data_grant(memory, layout);
        let found = self.find_place_(n, layout);
        let place: usize = match found {
            Err(e) => {
                proof {
                    lemma_no_place(ready, n, layout, grant);
                }
                return Err(e);
            },
            Ok(place) => place,
        };
        let data = emplace.emplace();
        let value = V::carry(data);
        let c = self.store_object_(n, value, record, place);
        assert(direct_as(ready, memory, self@, n, emplace, c, data));
        proof {
            law_placing_leaves_none_forgotten(
                ready,
                memory,
                self@,
                self.allocator_,
                n,
                emplace,
                Some(c),
            );
        }
        Ok(c)
    }
}

/// Where no place is found the tree stays as it is.
proof fn lemma_no_place<V, H: Copy>(
    a: RootView<V, H>,
    n: NodeId,
    data: Layout,
    grant: Option<usize>,
)
    requires
        a.tree.nodes.contains_key(n),
        a.place_for(n, data, grant) is None,
    ensures
        a.with_place(n, data, grant) == a,
{
    assert(a.with_place(n, data, grant) =~= a);
}

} // verus!
