//! How a scope is emptied: every object that is still there is destroyed, weak slots that nobody
//! points at go back to their pools, and the memory of the objects goes back as a whole.

use vstd::prelude::*;

use crate::abs_::TrPreDrop;
use crate::mem_::{Layout, TrAllocator};
use crate::ptr_::{ChunkPtr, SlotPtr};
use crate::slab_::Slab;
use crate::weak_::chain_::{
    chain_wf, in_use, lemma_returned_chain, lemma_with_slot_chain, lemma_with_slot_returned,
    returned, slot_of, with_slot, ChainView,
};
use crate::weak_::chunk_::{DataState, SlotView};
use crate::weak_::pre_drop_::PreDropRecord;

use super::node_::{pool_at, ContentView, NodeId, ScopeContent, ScopePool};
use super::root_::{cells_of, RootScope};
use super::state_::{key, lemma_content_tree, ptr, BlockUse, CellView, ChunkCell, RootView};
use super::tree_::ScopeTree;

verus! {

/// The pools after the scope of the slot at `p` was emptied. Where nobody points at the slot it
/// goes back to its pool; otherwise it stays in use, and is never given to another object while
/// somebody does.
pub open spec fn settled<H>(pools: ChainView<H>, p: SlotPtr) -> ChainView<H> {
    let s = slot_of(pools, p);
    if s.count == 0 {
        returned(pools, p)
    } else {
        with_slot(
            pools,
            p,
            SlotView {
                state: DataState::Zombie,
                prev_live: SlotPtr::null(),
                next_live: SlotPtr::null(),
                ..s
            },
        )
    }
}

/// The pools after all slots of a scope were settled, one after the other.
pub open spec fn settled_all<H>(pools: ChainView<H>, live: Seq<SlotPtr>) -> ChainView<H>
    decreases live.len(),
{
    if live.len() == 0 {
        pools
    } else {
        settled(settled_all(pools, live.drop_last()), live.last())
    }
}

/// What settling the slots of a scope does to each slot.
pub proof fn lemma_settled_all<H>(pools: ChainView<H>, live: Seq<SlotPtr>, root: usize)
    requires
        chain_wf(pools, root),
        live.no_duplicates(),
        forall|i: int| 0 <= i < live.len() ==> in_use(pools, #[trigger] live[i]),
    ensures
        chain_wf(settled_all(pools, live), root),
        settled_all(pools, live).len() == pools.len(),
        forall|i: int|
            0 <= i < pools.len() ==> (#[trigger] settled_all(pools, live)[i]).addr == pools[i].addr
                && settled_all(pools, live)[i].slots.len() == pools[i].slots.len(),
        forall|q: SlotPtr| #[trigger]
            in_use(settled_all(pools, live), q) == (in_use(pools, q) && !(live.contains(q)
                && slot_of(pools, q).count == 0)),
        forall|q: SlotPtr|
            in_use(pools, q) && !live.contains(q) ==> #[trigger] slot_of(
                settled_all(pools, live),
                q,
            ) == slot_of(pools, q),
        forall|q: SlotPtr|
            in_use(pools, q) && live.contains(q) && slot_of(pools, q).count > 0
                ==> #[trigger] slot_of(settled_all(pools, live), q) == (SlotView {
                state: DataState::Zombie,
                prev_live: SlotPtr::null(),
                next_live: SlotPtr::null(),
                ..slot_of(pools, q)
            }),
    decreases live.len(),
{
    if live.len() > 0 {
        let init = live.drop_last();
        let p = live.last();
        assert(!init.contains(p)) by {
            if init.contains(p) {
                let i = init.index_of(p);
                assert(live[i] == live[live.len() - 1]);
            }
        }
        assert forall|i: int| 0 <= i < init.len() implies in_use(pools, #[trigger] init[i]) by {
            assert(init[i] == live[i]);
        }
        lemma_settled_all(pools, init, root);
        let mid = settled_all(pools, init);
        assert(in_use(pools, live[live.len() - 1]));
        assert(in_use(mid, p));
        assert(slot_of(mid, p) == slot_of(pools, p));
        assert forall|q: SlotPtr| #[trigger] live.contains(q) == (init.contains(q) || q == p) by {
            if live.contains(q) && q != p {
                let i = live.index_of(q);
                assert(init[i] == q);
            }
            if init.contains(q) {
                let i = init.index_of(q);
                assert(live[i] == q);
            }
            if q == p {
                assert(live[live.len() - 1] == q);
            }
        }
        let s = slot_of(mid, p);
        if s.count == 0 {
            lemma_returned_chain(mid, root, p);
        } else {
            lemma_with_slot_chain(
                mid,
                root,
                p,
                SlotView {
                    state: DataState::Zombie,
                    prev_live: SlotPtr::null(),
                    next_live: SlotPtr::null(),
                    ..s
                },
            );
        }
    }
}

/// A value that is to be destroyed, and what is done before.
#[verifier::reject_recursive_types(H)]
pub struct Victim<V, H> {
    pub record: PreDropRecord<H>,
    pub data: V,
}

/// Each value is what its victim's record made of it.
pub open spec fn released<V, H: Copy + TrPreDrop<V>>(
    victims: Seq<Victim<V, H>>,
    values: Seq<V>,
) -> bool {
    &&& values.len() == victims.len()
    &&& forall|i: int|
        #![trigger values[i]]
        0 <= i < values.len() ==> victims[i].record.outcome(victims[i].data, values[i])
}

impl<V, H: Copy> RootView<V, H> {
    /// The object whose slot is at `p`, as a victim.
    pub open spec fn victim_at(&self, p: SlotPtr) -> Victim<V, H> {
        Victim { record: self.cell_of(p).record, data: self.cell_of(p).data->0 }
    }

    /// Those of the slots `live` whose data is there.
    pub open spec fn bound_victims(&self, live: Seq<SlotPtr>) -> Seq<Victim<V, H>>
        decreases live.len(),
    {
        if live.len() == 0 {
            Seq::empty()
        } else {
            let init = self.bound_victims(live.drop_last());
            if self.slot(live.last()).state.alive() {
                init.push(self.victim_at(live.last()))
            } else {
                init
            }
        }
    }

    /// Whether the object `k` has its data, but no weak slot.
    pub open spec fn is_direct(&self, k: usize) -> bool {
        self.cells[k].data is Some && self.cells[k].head.weak == SlotPtr::null()
    }

    /// Those of the objects `objects` that have their data, but no weak slot.
    pub open spec fn direct_victims(&self, objects: Seq<ChunkPtr>) -> Seq<Victim<V, H>>
        decreases objects.len(),
    {
        if objects.len() == 0 {
            Seq::empty()
        } else {
            let init = self.direct_victims(objects.drop_last());
            let k = key(objects.last());
            if self.is_direct(k) {
                init.push(Victim { record: self.cells[k].record, data: self.cells[k].data->0 })
            } else {
                init
            }
        }
    }

    /// All that is destroyed when the scope `n` is emptied, in that order: first the objects
    /// that have a weak slot, in the order in which they got it, then the others, in the order
    /// in which they were placed.
    pub open spec fn victims(&self, n: NodeId) -> Seq<Victim<V, H>> {
        self.bound_victims(self.live(n)) + self.direct_victims(self.objects(n))
    }

    /// Whether the block at `a` is that of a pool of the scope `n`.
    pub open spec fn is_pool_block(&self, n: NodeId, a: usize) -> bool {
        self.uses.contains_key(a) && self.uses[a] is Strong && self.uses[a]->Strong_0 == n
    }

    /// The tree after the scope `n` was emptied: nothing is left in it, its slots are settled,
    /// and its pools are given back.
    pub open spec fn flushed(&self, n: NodeId) -> Self {
        RootView {
            tree: self.tree.with_content(n, ContentView::empty()),
            pools: settled_all(self.pools, self.live(n)),
            cells: Map::new(
                |k: usize| self.cells.contains_key(k) && self.cells[k].owner != n,
                |k: usize| self.cells[k],
            ),
            homes: Map::new(
                |p: SlotPtr| self.homes.contains_key(p) && self.homes[p] != n,
                |p: SlotPtr| self.homes[p],
            ),
            blocks: Map::new(
                |a: usize| self.blocks.contains_key(a) && !self.is_pool_block(n, a),
                |a: usize| self.blocks[a],
            ),
            uses: Map::new(
                |a: usize| self.uses.contains_key(a) && !self.is_pool_block(n, a),
                |a: usize| self.uses[a],
            ),
            ..*self
        }
    }
}

/// The slots of a scope are in use.
pub proof fn lemma_live_in_use<V, H: Copy>(a: RootView<V, H>, n: NodeId)
    requires
        a.wf(),
        a.tree.nodes.contains_key(n),
    ensures
        forall|i: int|
            0 <= i < a.live(n).len() ==> in_use(a.pools, #[trigger] a.live(n)[i])
                && a.homes.contains_key(a.live(n)[i]) && a.homes[a.live(n)[i]] == n && a.slot_ok(
                a.live(n)[i],
            ),
        a.live(n).no_duplicates(),
        forall|q: SlotPtr| #[trigger]
            a.live(n).contains(q) == (a.homes.contains_key(q) && a.homes[q] == n),
{
    assert forall|i: int| 0 <= i < a.live(n).len() implies in_use(a.pools, #[trigger] a.live(n)[i])
        && a.homes.contains_key(a.live(n)[i]) && a.homes[a.live(n)[i]] == n && a.slot_ok(
        a.live(n)[i],
    ) by {
        assert(a.live_at(n, i));
    }
    assert forall|q: SlotPtr| #[trigger]
        a.live(n).contains(q) == (a.homes.contains_key(q) && a.homes[q] == n) by {
        if a.live(n).contains(q) {
            let i = a.live(n).index_of(q);
            assert(a.live(n)[i] == q);
        }
    }
}

/// An emptied scope leaves the tree sound.
pub proof fn lemma_flushed<V, H: Copy>(a: RootView<V, H>, n: NodeId)
    requires
        a.wf(),
        a.tree.nodes.contains_key(n),
    ensures
        a.flushed(n).wf(),
{
    let b = a.flushed(n);
    let live = a.live(n);
    lemma_live_in_use(a, n);
    lemma_settled_all(a.pools, live, a.addr);
    lemma_content_tree(a.tree, n, ContentView::empty());
    assert forall|q: SlotPtr| #[trigger] b.homes.contains_key(q) implies {
        &&& b.slot_ok(q)
        &&& b.tree.nodes.contains_key(b.homes[q])
        &&& b.live(b.homes[q]).contains(q)
    } by {
        assert(a.homes.contains_key(q) && a.slot_ok(q));
        assert(!live.contains(q));
        assert(b.slot(q) == a.slot(q));
    }
    assert forall|q: SlotPtr| #[trigger]
        in_use(b.pools, q) && !b.homes.contains_key(q) implies b.stray_ok(q) by {
        assert(in_use(a.pools, q));
        if a.homes.contains_key(q) {
            assert(a.slot_ok(q));
            assert(live.contains(q));
        } else {
            assert(a.stray_ok(q));
            assert(!live.contains(q));
        }
        assert(b.slot(q).locked == a.slot(q).locked);
    }
    assert forall|m: NodeId, i: int|
        b.tree.nodes.contains_key(m) && 0 <= i < b.live(m).len() implies #[trigger] b.live_at(
        m,
        i,
    ) by {
        assert(m != n);
        assert(a.live_at(m, i));
        let q = a.live(m)[i];
        assert(a.slot_ok(q));
        assert(!live.contains(q));
        assert(b.slot(q) == a.slot(q));
    }
    assert forall|j: usize| #[trigger] b.cells.contains_key(j) implies b.cell_ok(j) by {
        assert(a.cells.contains_key(j) && a.cell_ok(j));
        let cell = a.cells[j];
        if cell.data is Some && cell.head.weak != SlotPtr::null() {
            let q = cell.head.weak;
            assert(a.slot_ok(q));
            assert(a.cell_of(q) == cell);
            assert(!live.contains(q));
            assert(b.slot(q) == a.slot(q));
        }
    }
    assert forall|m: NodeId, i: int|
        b.tree.nodes.contains_key(m) && 0 <= i < b.objects(m).len() implies #[trigger] b.object_at(
        m,
        i,
    ) by {
        assert(a.object_at(m, i));
    }
    assert forall|x: usize| #[trigger] b.uses.contains_key(x) implies b.use_ok(x) by {
        assert(a.uses.contains_key(x) && a.use_ok(x));
    }
    assert forall|m: NodeId| #[trigger]
        b.tree.nodes.contains_key(m) && m != b.tree.root implies b.uses_as(
        b.tree.nodes[m].addr,
        BlockUse::Node(m),
    ) by {
        assert(a.tree.nodes.contains_key(m));
        assert(a.uses_as(a.tree.nodes[m].addr, BlockUse::Node(m)));
    }
    assert forall|m: NodeId, i: int|
        b.tree.nodes.contains_key(m) && 0 <= i < b.scope_pools(m).len() implies b.uses_as(
        (#[trigger] b.scope_pools(m)[i]).addr_,
        BlockUse::Strong(m, i),
    ) by {
        assert(m != n);
        assert(a.uses_as(a.scope_pools(m)[i].addr_, BlockUse::Strong(m, i)));
    }
    assert forall|x: usize, y: usize| #[trigger] b.apart_at(x, y) by {
        assert(a.apart_at(x, y));
    }
    assert forall|i: int| 0 <= i < b.pools.len() implies b.uses_as(
        (#[trigger] b.pools[i]).addr,
        BlockUse::Weak(i),
    ) by {
        assert(b.pools[i].addr == a.pools[i].addr);
        assert(a.uses_as(a.pools[i].addr, BlockUse::Weak(i)));
    }
}

impl<V, H: Copy> RootView<V, H> {
    /// Whether the object `k` has its data, and its weak slot is among `done`.
    pub open spec fn is_bound_in(&self, k: usize, done: Seq<SlotPtr>) -> bool {
        &&& self.cells[k].data is Some
        &&& self.cells[k].head.weak != SlotPtr::null()
        &&& done.contains(self.cells[k].head.weak)
    }

    /// The objects after those with their slots among `done` were destroyed.
    pub open spec fn cells_after(&self, done: Seq<SlotPtr>) -> Map<usize, CellView<V, H>> {
        Map::new(
            |k: usize| self.cells.contains_key(k),
            |k: usize|
                if self.is_bound_in(k, done) {
                    self.with_dead_cell(k).cells[k]
                } else {
                    self.cells[k]
                },
        )
    }
}

/// One slot further, one object more is destroyed, if its data is there.
proof fn lemma_cells_step<V, H: Copy>(a: RootView<V, H>, n: NodeId, i: int)
    requires
        a.wf(),
        a.tree.nodes.contains_key(n),
        0 <= i < a.live(n).len(),
    ensures
        ({
            let p = a.live(n)[i];
            let done = a.live(n).take(i);
            let k = key(a.slot(p).strong);
            let next = a.cells_after(a.live(n).take(i + 1));
            if a.slot(p).state.alive() {
                &&& a.cells_after(done).contains_key(k)
                &&& a.cells_after(done)[k] == a.cells[k]
                &&& next == a.cells_after(done).insert(k, a.with_dead_cell(k).cells[k])
            } else {
                next == a.cells_after(done)
            }
        }),
{
    lemma_live_in_use(a, n);
    let live = a.live(n);
    let p = live[i];
    let done = live.take(i);
    let more = live.take(i + 1);
    let k = key(a.slot(p).strong);
    assert(a.slot_ok(p));
    assert(!done.contains(p)) by {
        if done.contains(p) {
            let j = done.index_of(p);
            assert(live[j] == live[i]);
        }
    }
    assert forall|q: SlotPtr| #[trigger] more.contains(q) == (done.contains(q) || q == p) by {
        if more.contains(q) && q != p {
            let j = more.index_of(q);
            assert(done[j] == q);
        }
        if done.contains(q) {
            let j = done.index_of(q);
            assert(more[j] == q);
        }
        assert(more[i] == p);
    }
    let next = a.cells_after(more);
    assert forall|j: usize| a.cells.contains_key(j) implies (a.cells[j].data is Some
        && a.cells[j].head.weak == p) == (a.slot(p).state.alive() && #[trigger] ptr(j)
        == a.slot(p).strong) by {
        assert(a.cell_ok(j));
    }
    if a.slot(p).state.alive() {
        assert(ptr(k) == a.slot(p).strong);
        assert forall|j: usize| a.cells.contains_key(j) && j != k implies #[trigger] ptr(j)
            != a.slot(p).strong by {
            assert(a.cell_ok(j));
        }
        assert(next =~= a.cells_after(done).insert(k, a.with_dead_cell(k).cells[k]));
    } else {
        assert forall|j: usize| a.cells.contains_key(j) implies #[trigger] a.is_bound_in(j, more)
            == a.is_bound_in(j, done) by {
            assert(ptr(j) == ptr(j));
        }
        assert(next =~= a.cells_after(done));
    }
}

impl<V, H: Copy + TrPreDrop<V>, A: TrAllocator> RootScope<V, H, A> {
    /// Walks the chain of the slots of the scope `n`: destroys the objects whose data is there,
    /// and settles the slots. The scope still has to be told that it has no slots any more.
    fn flush_live_(&mut self, n: NodeId) -> (r: Vec<V>)
        requires
            old(self).wf(),
            old(self)@.tree.nodes.contains_key(n),
        ensures
            final(self).weak_.wf(),
            final(self).weak_.root() == old(self).weak_.root(),
            final(self).weak_@ == settled_all(old(self)@.pools, old(self)@.live(n)),
            final(self).store_.wf(),
            cells_of(final(self).store_) == old(self)@.cells_after(old(self)@.live(n)),
            released(old(self)@.bound_victims(old(self)@.live(n)), r@),
            final(self).tree_ == old(self).tree_,
            final(self).registry_ == old(self).registry_,
            final(self).allocator_ == old(self).allocator_,
            final(self).addr_ == old(self).addr_,
            final(self).strict_ == old(self).strict_,
            final(self).homes_ == old(self).homes_,
            final(self).uses_ == old(self).uses_,
    {
        let ghost before = self@;
        let ghost live = before.live(n);
        let mut values: Vec<V> = Vec::new();
        let mut cursor = self.tree_.node(n).scope_ext_.content_.live_head_;
        let ghost mut i: int = 0;
        proof {
            lemma_live_in_use(before, n);
            assert(live.take(0) =~= Seq::empty());
            assert(live.take(live.len() as int) =~= live);
            assert(cells_of(self.store_) =~= before.cells_after(live.take(0)));
        }
        while !cursor.is_null()
            invariant
                before.wf(),
                before.tree.nodes.contains_key(n),
                before == old(self)@,
                live == before.live(n),
                0 <= i <= live.len(),
                cursor == (if i < live.len() {
                    live[i]
                } else {
                    SlotPtr::null()
                }),
                live.take(live.len() as int) == live,
                forall|j: int|
                    0 <= j < live.len() ==> in_use(before.pools, #[trigger] live[j])
                        && before.slot_ok(live[j]),
                self.weak_.wf(),
                self.weak_.root() == old(self).weak_.root(),
                self.weak_.root() == before.addr,
                self.weak_@ == settled_all(before.pools, live.take(i)),
                self.store_.wf(),
                cells_of(self.store_) == before.cells_after(live.take(i)),
                released(before.bound_victims(live.take(i)), values@),
                self.tree_ == old(self).tree_,
                self.registry_ == old(self).registry_,
                self.allocator_ == old(self).allocator_,
                self.addr_ == old(self).addr_,
                self.strict_ == old(self).strict_,
                self.homes_ == old(self).homes_,
                self.uses_ == old(self).uses_,
            decreases live.len() - i,
        {
            let ghost pools = self.weak_@;
            let ghost p = live[i];
            let ghost k = key(before.slot(p).strong);
            proof {
                lemma_live_in_use(before, n);
                lemma_cells_step(before, n, i);
                assert(before.live_at(n, i));
                let done = live.take(i);
                assert forall|j: int| 0 <= j < done.len() implies in_use(
                    before.pools,
                    #[trigger] done[j],
                ) by {
                    assert(done[j] == live[j]);
                }
                lemma_settled_all(before.pools, done, before.addr);
                assert(!done.contains(p)) by {
                    if done.contains(p) {
                        let j = done.index_of(p);
                        assert(live[j] == live[i]);
                    }
                }
                assert(slot_of(pools, p) == before.slot(p));
                assert(live.take(i + 1).drop_last() =~= done);
                assert(live.take(i + 1).last() == p);
            }
            let at = match self.weak_.slot(cursor).strong_chunk() {
                Some(at) => at,
                None => ChunkPtr::null(),
            };
            // The next one is looked up first: giving the slot back would lose it.
            let next = self.weak_.slot(cursor).next_live();
            let slot = self.weak_.slot_mut(cursor);
            if slot.chunk_state_.try_claim_destroy().is_some() {
                assert(cells_of(self.store_).contains_key(k));
                assert(cells_of(self.store_)[k] == before.cells[k]);
                let cell = self.store_.get_mut(at.raw - 1);
                let mut taken = None;
                std::mem::swap(&mut taken, &mut cell.chunk_);
                let mut data = match taken {
                    Some(chunk) => chunk.data_,
                    None => vstd::pervasive::unreached(),
                };
                slot.drop_data(&mut data);
                slot.chunk_state_.mark_destroyed();
                values.push(data);
            }
            assert(cells_of(self.store_) =~= before.cells_after(live.take(i + 1)));
            if slot.weak_count() == 0 {
                let _ = slot.chunk_state_.try_finalize_from(DataState::Destroyed);
                let ghost mid = slot@;
                proof {
                    lemma_with_slot_chain(pools, before.addr, p, mid);
                    lemma_with_slot_returned(pools, p, mid);
                }
                let _ = self.weak_.give_back(cursor);
            } else {
                slot.set_next_live(SlotPtr::null());
                slot.set_prev_live(SlotPtr::null());
                let _ = slot.chunk_state_.mark_zombie();
            }
            proof {
                assert(self.weak_@ =~= settled(pools, p));
                i = i + 1;
            }
            cursor = next;
        }
        values
    }
}

/// Those of the objects `objects` that have their data.
spec fn data_victims<V, H: Copy>(
    cells: Map<usize, CellView<V, H>>,
    objects: Seq<ChunkPtr>,
) -> Seq<Victim<V, H>>
    decreases objects.len(),
{
    if objects.len() == 0 {
        Seq::empty()
    } else {
        let init = data_victims(cells, objects.drop_last());
        let k = key(objects.last());
        if cells[k].data is Some {
            init.push(Victim { record: cells[k].record, data: cells[k].data->0 })
        } else {
            init
        }
    }
}

/// Once those with a weak slot are destroyed, the objects left are those without one.
proof fn lemma_direct_left<V, H: Copy>(a: RootView<V, H>, n: NodeId, i: int)
    requires
        a.wf(),
        a.tree.nodes.contains_key(n),
        0 <= i <= a.objects(n).len(),
    ensures
        data_victims(a.cells_after(a.live(n)), a.objects(n).take(i)) == a.direct_victims(
            a.objects(n).take(i),
        ),
    decreases i,
{
    if i > 0 {
        lemma_direct_left(a, n, i - 1);
        lemma_live_in_use(a, n);
        let objects = a.objects(n);
        assert(objects.take(i).drop_last() =~= objects.take(i - 1));
        assert(objects.take(i).last() == objects[i - 1]);
        let k = key(objects[i - 1]);
        assert(a.object_at(n, i - 1));
        assert(a.cell_ok(k));
        let cell = a.cells[k];
        if cell.data is Some && cell.head.weak != SlotPtr::null() {
            let q = cell.head.weak;
            assert(a.slot_ok(q));
            assert(a.cell_of(q) == cell);
            assert(a.live(n).contains(q));
        }
    }
}

/// Takes the objects `objects` out of the store. Those that have their data are destroyed, in
/// this order: their hooks run, and the data is put behind `values`.
fn drop_objects_<V, H: Copy + TrPreDrop<V>>(
    store: &mut Slab<ChunkCell<V, H>>,
    objects: &Vec<ChunkPtr>,
    values: &mut Vec<V>,
)
    requires
        old(store).wf(),
        forall|k: usize| #[trigger] old(store)@.contains_key(k) ==> k < usize::MAX,
        objects@.no_duplicates(),
        forall|i: int|
            0 <= i < objects@.len() ==> #[trigger] objects@[i] != ChunkPtr::null() && old(
                store,
            )@.contains_key(key(objects@[i])),
    ensures
        final(store).wf(),
        forall|k: usize| #[trigger]
            final(store)@.contains_key(k) == (old(store)@.contains_key(k) && !objects@.contains(
                ptr(k),
            )),
        forall|k: usize| #[trigger]
            final(store)@.contains_key(k) ==> final(store)@[k] == old(store)@[k],
        exists|dropped: Seq<V>|
            {
                &&& final(values)@ == old(values)@ + dropped
                &&& #[trigger] released(data_victims(cells_of(*old(store)), objects@), dropped)
            },
{
    let ghost cells = cells_of(*store);
    let ghost mut dropped: Seq<V> = Seq::empty();
    let mut i: usize = 0;
    assert(objects@.take(0) =~= Seq::empty());
    assert(values@ + dropped =~= values@);
    while i < objects.len()
        invariant
            i <= objects@.len(),
            cells == cells_of(*old(store)),
            forall|k: usize| #[trigger] old(store)@.contains_key(k) ==> k < usize::MAX,
            objects@.no_duplicates(),
            forall|j: int|
                0 <= j < objects@.len() ==> #[trigger] objects@[j] != ChunkPtr::null() && old(
                    store,
                )@.contains_key(key(objects@[j])),
            store.wf(),
            forall|k: usize| #[trigger]
                store@.contains_key(k) == (old(store)@.contains_key(k) && !objects@.take(
                    i as int,
                ).contains(ptr(k))),
            forall|k: usize| #[trigger] store@.contains_key(k) ==> store@[k] == old(store)@[k],
            values@ == old(values)@ + dropped,
            released(data_victims(cells, objects@.take(i as int)), dropped),
        decreases objects.len() - i,
    {
        let c = objects[i];
        let ghost done = objects@.take(i as int);
        let ghost more = objects@.take(i + 1);
        proof {
            assert(more.drop_last() =~= done);
            assert(more.last() == c);
            assert(c == objects@[i as int]);
            assert(ptr(key(c)) == c);
            assert(!done.contains(c)) by {
                if done.contains(c) {
                    let j = done.index_of(c);
                    assert(objects@[j] == objects@[i as int]);
                }
            }
            assert forall|q: ChunkPtr| #[trigger] more.contains(q) == (done.contains(q) || q == c) by {
                if more.contains(q) && q != c {
                    let j = more.index_of(q);
                    assert(done[j] == q);
                }
                if done.contains(q) {
                    let j = done.index_of(q);
                    assert(more[j] == q);
                }
                assert(more[i as int] == c);
            }
        }
        assert(old(store)@.contains_key(key(c)));
        assert(store@.contains_key(key(c)));
        assert(store@[key(c)] == old(store)@[key(c)]);
        let cell = store.remove(c.raw - 1);
        assert(cells.contains_key(key(c)) && cells[key(c)] == cell@);
        match cell.chunk_ {
            Some(chunk) => {
                let mut data = chunk.data_;
                cell.record_.run_(&mut data);
                proof {
                    dropped = dropped.push(data);
                }
                values.push(data);
                assert(values@ =~= old(values)@ + dropped);
            },
            None => {},
        }
        assert forall|k: usize| #[trigger]
            store@.contains_key(k) == (old(store)@.contains_key(k) && !more.contains(ptr(k))) by {
            assert(store@.contains_key(k) == (k != key(c) && old(store)@.contains_key(k)
                && !done.contains(ptr(k))));
        }
        i = i + 1;
    }
    assert(objects@.take(i as int) =~= objects@);
}

/// Whether one of the pools is at `a`.
pub open spec fn pool_is_at(pools: Seq<ScopePool>, a: usize) -> bool {
    exists|i: int| 0 <= i < pools.len() && (#[trigger] pools[i]).addr_ == a
}

/// The blocks that are left when those of the pools are given back.
pub open spec fn blocks_without(blocks: Map<usize, Layout>, pools: Seq<ScopePool>) -> Map<
    usize,
    Layout,
> {
    Map::new(
        |a: usize| blocks.contains_key(a) && !pool_is_at(pools, a),
        |a: usize| blocks[a],
    )
}

/// The allocator after the memory of the pools was given back, the last pool first.
pub open spec fn freed_pools<A: TrAllocator>(alloc: A, pools: Seq<ScopePool>) -> A
    decreases pools.len(),
{
    if pools.len() == 0 {
        alloc
    } else {
        let pool = pools.last();
        freed_pools(
            alloc.freed(pool.addr_, ScopePool::layout_spec(pool.cell_count_)),
            pools.drop_last(),
        )
    }
}

impl ScopeContent {
    /// Gives the memory of all pools back, the last pool first.
    pub fn reclaim_strong_pools_<A: TrAllocator>(&mut self, alloc: &mut A)
        requires
            old(self).wf(),
            old(alloc).wf(),
            forall|i: int|
                0 <= i < old(self)@.pools.len() ==> old(alloc).blocks().contains_key(
                    (#[trigger] old(self)@.pools[i]).addr_,
                ) && old(alloc).blocks()[old(self)@.pools[i].addr_] == ScopePool::layout_spec(
                    old(self)@.pools[i].cell_count_,
                ),
            forall|i: int, j: int|
                0 <= i < j < old(self)@.pools.len() ==> (#[trigger] old(self)@.pools[i]).addr_ != (
                #[trigger] old(self)@.pools[j]).addr_,
        ensures
            final(self).wf(),
            final(self)@ == (ContentView { pools: Seq::empty(), ..old(self)@ }),
            final(alloc).wf(),
            final(alloc).blocks() == blocks_without(old(alloc).blocks(), old(self)@.pools),
            *final(alloc) == freed_pools(*old(alloc), old(self)@.pools),
    {
        let ghost pools = self@.pools;
        let ghost blocks = alloc.blocks();
        assert(pools.skip(pools.len() as int) =~= Seq::empty());
        assert(blocks =~= blocks_without(blocks, pools.skip(pools.len() as int)));
        while self.strong_pools_.len() > 0
            invariant
                self.wf(),
                alloc.wf(),
                self@ == (ContentView { pools: self@.pools, ..old(self)@ }),
                self@.pools.len() <= pools.len(),
                self@.pools == pools.take(self@.pools.len() as int),
                forall|i: int|
                    0 <= i < pools.len() ==> blocks.contains_key((#[trigger] pools[i]).addr_)
                        && blocks[pools[i].addr_] == ScopePool::layout_spec(pools[i].cell_count_),
                forall|i: int, j: int|
                    0 <= i < j < pools.len() ==> (#[trigger] pools[i]).addr_ != (
                    #[trigger] pools[j]).addr_,
                alloc.blocks() == blocks_without(blocks, pools.skip(self@.pools.len() as int)),
                freed_pools(*old(alloc), pools) == freed_pools(*alloc, self@.pools),
            decreases self.strong_pools_.len(),
        {
            let ghost k = self@.pools.len() - 1;
            assert(pool_at(self@.pools, k));
            assert(self@.pools[k] == pools[k]);
            let ghost rest = pools.skip(k + 1);
            assert forall|i: int| 0 <= i < self@.pools.len() - 1 implies #[trigger] pool_at(
                self@.pools.drop_last(),
                i,
            ) by {
                assert(pool_at(self@.pools, i));
            }
            match self.strong_pools_.pop() {
                None => {},
                Some(pool) => {
                    assert(!pool_is_at(rest, pool.addr_)) by {
                        if pool_is_at(rest, pool.addr_) {
                            let j = choose|j: int|
                                0 <= j < rest.len() && (#[trigger] rest[j]).addr_ == pool.addr_;
                            assert(rest[j] == pools[k + 1 + j]);
                        }
                    }
                    alloc.deallocate(pool.addr_, ScopePool::layout_for_(pool.cell_count_));
                    assert(alloc.blocks() =~= blocks_without(blocks, pools.skip(k))) by {
                        let more = pools.skip(k);
                        assert forall|a: usize| #[trigger]
                            pool_is_at(more, a) == (pool_is_at(rest, a) || a == pool.addr_) by {
                            if pool_is_at(more, a) && a != pool.addr_ {
                                let j = choose|j: int|
                                    0 <= j < more.len() && (#[trigger] more[j]).addr_ == a;
                                assert(j > 0);
                                assert(rest[j - 1] == more[j]);
                            }
                            if pool_is_at(rest, a) {
                                let j = choose|j: int|
                                    0 <= j < rest.len() && (#[trigger] rest[j]).addr_ == a;
                                assert(more[j + 1] == rest[j]);
                            }
                            assert(more[0] == pool);
                        }
                    }
                },
            }
            assert(self@.pools =~= pools.take(k));
            assert(pools.take(k) =~= pools.take(k + 1).drop_last());
        }
        assert(pools.skip(0) =~= pools);
        assert(self@.pools =~= Seq::empty());
    }
}

impl<V, H: Copy + TrPreDrop<V>, A: TrAllocator> RootScope<V, H, A> {
    /// Empties the scope `n`: destroys everything that is still there, whoever points at it,
    /// and hands it out after the hooks have run; gives the slots back that nobody points at,
    /// and the memory.
    pub fn flush_(&mut self, n: NodeId) -> (r: Vec<V>)
        requires
            old(self).wf(),
            old(self)@.tree.nodes.contains_key(n),
        ensures
            final(self).wf(),
            final(self)@ == old(self)@.flushed(n),
            final(self).allocator_ == freed_pools(
                old(self).allocator_,
                old(self)@.scope_pools(n),
            ),
            released(old(self)@.victims(n), r@),
    {
        broadcast use ScopeTree::lemma_view_wf;

        let ghost before = self@;
        proof {
            lemma_flushed(before, n);
            lemma_live_in_use(before, n);
        }
        let mut values = self.flush_live_(n);
        let ghost bound = values@;
        let ghost cells = cells_of(self.store_);
        let mut content = ScopeContent::new();
        let place = self.tree_.content_mut(n);
        std::mem::swap(&mut content, place);
        proof {
            assert forall|k: usize| #[trigger] self.store_@.contains_key(k) implies k < usize::MAX by {
                assert(cells.contains_key(k));
                assert(before.cell_ok(k));
            }
            assert forall|i: int| 0 <= i < content.objects_@.len() implies #[trigger]
                content.objects_@[i] != ChunkPtr::null() && self.store_@.contains_key(
                key(content.objects_@[i]),
            ) by {
                assert(before.object_at(n, i));
                assert(cells.contains_key(key(before.objects(n)[i])));
            }
            lemma_direct_left(before, n, before.objects(n).len() as int);
            assert(before.objects(n).take(before.objects(n).len() as int) =~= before.objects(n));
        }
        let ghost store = self.store_@;
        drop_objects_(&mut self.store_, &content.objects_, &mut values);
        proof {
            let dropped = choose|dropped: Seq<V>|
                {
                    &&& values@ == bound + dropped
                    &&& #[trigger] released(data_victims(cells, content.objects_@), dropped)
                };
            assert(released(before.victims(n), values@)) by {
                let victims = before.victims(n);
                assert forall|i: int|
                    #![trigger values@[i]]
                    0 <= i < values@.len() implies victims[i].record.outcome(
                    victims[i].data,
                    values@[i],
                ) by {
                    if i < bound.len() {
                        assert(values@[i] == bound[i]);
                    } else {
                        assert(values@[i] == dropped[i - bound.len()]);
                    }
                }
            }
        }
        proof {
            let pools = before.scope_pools(n);
            assert forall|i: int| 0 <= i < pools.len() implies before.blocks.contains_key(
                (#[trigger] pools[i]).addr_,
            ) && before.blocks[pools[i].addr_] == ScopePool::layout_spec(pools[i].cell_count_)
                && before.uses_as(pools[i].addr_, BlockUse::Strong(n, i)) by {
                assert(before.uses_as(before.scope_pools(n)[i].addr_, BlockUse::Strong(n, i)));
                assert(before.use_ok(pools[i].addr_));
            }
            assert forall|a: usize| #[trigger] pool_is_at(pools, a) == before.is_pool_block(n, a) by {
                if before.is_pool_block(n, a) {
                    assert(before.use_ok(a));
                    let i = before.uses[a]->Strong_1;
                    assert(pools[i].addr_ == a);
                }
            }
        }
        content.reclaim_strong_pools_(&mut self.allocator_);
        self.homes_ = Ghost(before.flushed(n).homes);
        self.uses_ = Ghost(before.flushed(n).uses);
        proof {
            assert(self@.blocks =~= before.flushed(n).blocks);
            assert forall|k: usize| #[trigger] before.cells.contains_key(k) implies (before.cells[k].owner
                == n) == before.objects(n).contains(ptr(k)) by {
                assert(before.cell_ok(k));
                if before.objects(n).contains(ptr(k)) {
                    let i = before.objects(n).index_of(ptr(k));
                    assert(before.object_at(n, i));
                }
            }
            assert forall|k: usize| #[trigger] before.cells.contains_key(k) && before.cells[k].owner
                != n implies cells[k] == before.cells[k] by {
                assert(before.cell_ok(k));
                let cell = before.cells[k];
                if before.is_bound_in(k, before.live(n)) {
                    let q = cell.head.weak;
                    assert(before.slot_ok(q));
                    assert(before.cell_of(q) == cell);
                }
            }
            assert(self@.cells =~= before.flushed(n).cells) by {
                assert forall|k: usize| self@.cells.contains_key(k) == #[trigger]
                    before.flushed(n).cells.contains_key(k) by {
                    assert(store.contains_key(k) == cells.contains_key(k));
                    assert(cells.contains_key(k) == before.cells.contains_key(k));
                    assert(self.store_@.contains_key(k) == self@.cells.contains_key(k));
                }
                assert forall|k: usize| #[trigger] self@.cells.contains_key(k) implies self@.cells[k]
                    == before.flushed(n).cells[k] by {
                    assert(self.store_@.contains_key(k));
                    assert(self.store_@[k] == store[k]);
                    assert(cells.contains_key(k) && cells[k] == store[k]@);
                    assert(before.flushed(n).cells.contains_key(k));
                }
            }
            assert(self@ =~= before.flushed(n));
        }
        values
    }
}

} // verus!
