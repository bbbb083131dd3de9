//! How a scope is emptied one object at a time, so that a value can be dropped before the hook of
//! the next one runs.

use vstd::prelude::*;

use crate::abs_::TrPreDrop;
use crate::mem_::TrAllocator;
use crate::ptr_::{ChunkPtr, SlotPtr};
use crate::weak_::chain_::{
    chain_wf, in_use, lemma_with_slot_chain, lemma_with_slot_returned, lemma_with_slot_twice,
    slot_of, with_slot, ChainView,
};
use crate::weak_::chunk_::{DataState, SlotView};

use super::node_::NodeId;
use super::promises_::{
    law_reclaimed_objects_are_handed_out, law_slot_and_object, law_victims_are_the_objects,
    only_object_differs,
};
use super::root_::RootScope;
use super::state_::{key, ptr, RootView};
use super::teardown_::{
    lemma_live_in_use, lemma_settled_all, released, settled, settled_all, Victim,
};

verus! {

impl<V, H: Copy> RootView<V, H> {
    /// Whether the `i`-th slot of the scope `n` is the first whose data is there.
    pub open spec fn is_next_bound(&self, n: NodeId, i: int) -> bool {
        &&& 0 <= i < self.live(n).len()
        &&& self.slot(self.live(n)[i]).state.alive()
        &&& forall|j: int| 0 <= j < i ==> !(#[trigger] self.slot(self.live(n)[j])).state.alive()
    }

    /// Whether the `i`-th object of the scope `n` is the first that has its data, but no weak
    /// slot.
    pub open spec fn is_next_direct(&self, n: NodeId, i: int) -> bool {
        &&& 0 <= i < self.objects(n).len()
        &&& self.is_direct(key(self.objects(n)[i]))
        &&& forall|j: int| 0 <= j < i ==> !self.is_direct(key(#[trigger] self.objects(n)[j]))
    }
}

/// No slot with its data, no victim.
proof fn lemma_no_bound<V, H: Copy>(a: RootView<V, H>, live: Seq<SlotPtr>)
    requires
        forall|j: int| 0 <= j < live.len() ==> !(#[trigger] a.slot(live[j])).state.alive(),
    ensures
        a.bound_victims(live).len() == 0,
    decreases live.len(),
{
    if live.len() > 0 {
        let init = live.drop_last();
        assert forall|j: int| 0 <= j < init.len() implies !(#[trigger] a.slot(
            init[j],
        )).state.alive() by {
            assert(init[j] == live[j]);
        }
        assert(!a.slot(live[live.len() - 1]).state.alive());
        lemma_no_bound(a, init);
    }
}

proof fn lemma_no_direct<V, H: Copy>(a: RootView<V, H>, objects: Seq<ChunkPtr>)
    requires
        forall|j: int| 0 <= j < objects.len() ==> !a.is_direct(key(#[trigger] objects[j])),
    ensures
        a.direct_victims(objects).len() == 0,
    decreases objects.len(),
{
    if objects.len() > 0 {
        let init = objects.drop_last();
        assert forall|j: int| 0 <= j < init.len() implies !a.is_direct(
            key(#[trigger] init[j]),
        ) by {
            assert(init[j] == objects[j]);
        }
        assert(!a.is_direct(key(objects[objects.len() - 1])));
        lemma_no_direct(a, init);
    }
}

/// Destroying the first object that has a weak slot takes the first victim away.
proof fn lemma_bound_taken<V, H: Copy>(a: RootView<V, H>, n: NodeId, i: int, m: int)
    requires
        a.wf(),
        a.tree.nodes.contains_key(n),
        a.is_next_bound(n, i),
        i < m <= a.live(n).len(),
    ensures
        ({
            let p = a.live(n)[i];
            let b = a.with_destroyed(p);
            a.bound_victims(a.live(n).take(m)) == seq![a.victim_at(p)] + b.bound_victims(
                a.live(n).take(m),
            )
        }),
    decreases m,
{
    let live = a.live(n);
    let p = live[i];
    let b = a.with_destroyed(p);
    let part = live.take(m);
    let q = live[m - 1];
    lemma_live_in_use(a, n);
    assert(in_use(a.pools, live[i]) && a.slot_ok(live[i]));
    assert(in_use(a.pools, live[m - 1]) && a.slot_ok(live[m - 1]));
    lemma_with_slot_chain(
        a.pools,
        a.addr,
        p,
        SlotView { state: DataState::Destroyed, ..a.slot(p) },
    );
    assert(part.drop_last() =~= live.take(m - 1));
    assert(part.last() == q);
    if m == i + 1 {
        let before = live.take(i);
        assert forall|j: int| 0 <= j < before.len() implies !(#[trigger] a.slot(
            before[j],
        )).state.alive() && !b.slot(before[j]).state.alive() by {
            assert(before[j] == live[j]);
            assert(!a.slot(a.live(n)[j]).state.alive());
            assert(in_use(a.pools, live[j]));
        }
        lemma_no_bound(a, before);
        lemma_no_bound(b, before);
        assert(a.bound_victims(part) =~= seq![a.victim_at(p)] + b.bound_victims(part));
    } else {
        lemma_bound_taken(a, n, i, m - 1);
        assert(q != p);
        assert(b.slot(q) == a.slot(q));
        if a.slot(q).state.alive() {
            assert(b.cell_of(q) == a.cell_of(q));
        }
        assert(a.bound_victims(part) =~= seq![a.victim_at(p)] + b.bound_victims(part));
    }
}

/// It leaves the objects without a weak slot.
proof fn lemma_direct_left_alone<V, H: Copy>(
    a: RootView<V, H>,
    p: SlotPtr,
    objects: Seq<ChunkPtr>,
)
    requires
        a.wf(),
        a.homes.contains_key(p),
        a.slot(p).state.alive(),
    ensures
        a.with_destroyed(p).direct_victims(objects) == a.direct_victims(objects),
    decreases objects.len(),
{
    if objects.len() > 0 {
        assert(a.slot_ok(p));
        lemma_direct_left_alone(a, p, objects.drop_last());
    }
}

/// Destroying the first object without a weak slot takes the first of the victims away that have
/// none.
proof fn lemma_direct_taken<V, H: Copy>(a: RootView<V, H>, n: NodeId, i: int, m: int)
    requires
        a.wf(),
        a.tree.nodes.contains_key(n),
        a.is_next_direct(n, i),
        i < m <= a.objects(n).len(),
    ensures
        ({
            let k = key(a.objects(n)[i]);
            let b = a.with_dead_cell(k);
            a.direct_victims(a.objects(n).take(m)) == seq![
                Victim { record: a.cells[k].record, data: a.cells[k].data->0 },
            ] + b.direct_victims(a.objects(n).take(m))
        }),
    decreases m,
{
    let objects = a.objects(n);
    let c = objects[i];
    let k = key(c);
    let b = a.with_dead_cell(k);
    let part = objects.take(m);
    let d = objects[m - 1];
    let first = Victim { record: a.cells[k].record, data: a.cells[k].data->0 };
    assert(a.object_at(n, i) && a.object_at(n, m - 1));
    assert(part.drop_last() =~= objects.take(m - 1));
    assert(part.last() == d);
    if m == i + 1 {
        let before = objects.take(i);
        assert forall|j: int| 0 <= j < before.len() implies !a.is_direct(
            key(#[trigger] before[j]),
        ) && !b.is_direct(key(before[j])) by {
            assert(before[j] == objects[j]);
            assert(!a.is_direct(key(a.objects(n)[j])));
        }
        lemma_no_direct(a, before);
        lemma_no_direct(b, before);
        assert(a.direct_victims(part) =~= seq![first] + b.direct_victims(part));
    } else {
        lemma_direct_taken(a, n, i, m - 1);
        assert(d != c);
        assert(key(d) != k) by {
            assert(ptr(key(d)) == d && ptr(k) == c);
        }
        assert(a.direct_victims(part) =~= seq![first] + b.direct_victims(part));
    }
}

/// It leaves the slots, all of whose data is gone.
proof fn lemma_bound_left_alone<V, H: Copy>(a: RootView<V, H>, k: usize, live: Seq<SlotPtr>)
    requires
        forall|j: int| 0 <= j < live.len() ==> !(#[trigger] a.slot(live[j])).state.alive(),
    ensures
        a.with_dead_cell(k).bound_victims(live) == a.bound_victims(live),
{
    let b = a.with_dead_cell(k);
    assert forall|j: int| 0 <= j < live.len() implies !(#[trigger] b.slot(
        live[j],
    )).state.alive() by {
        assert(!a.slot(live[j]).state.alive());
    }
    lemma_no_bound(a, live);
    lemma_no_bound(b, live);
    assert(b.bound_victims(live) =~= a.bound_victims(live));
}

impl<V, H: Copy, A: TrAllocator> RootScope<V, H, A> {
    /// The first slot of the scope `n` whose data is there.
    pub(crate) fn next_bound_(&self, n: NodeId) -> (r: Option<(SlotPtr, Ghost<int>)>)
        requires
            self.wf(),
            self@.tree.nodes.contains_key(n),
        ensures
            match r {
                Some((p, i)) => self@.is_next_bound(n, i@) && p == self@.live(n)[i@],
                None => self@.is_quiescent(n),
            },
    {
        let ghost live = self@.live(n);
        let mut cursor = self.tree_.node(n).scope_ext_.content_.live_head_;
        let ghost mut i: int = 0;
        proof {
            lemma_live_in_use(self@, n);
        }
        while !cursor.is_null()
            invariant
                self.wf(),
                self@.tree.nodes.contains_key(n),
                live == self@.live(n),
                0 <= i <= live.len(),
                cursor == (if i < live.len() {
                    live[i]
                } else {
                    SlotPtr::null()
                }),
                forall|j: int| 0 <= j < live.len() ==> in_use(self@.pools, #[trigger] live[j]),
                forall|j: int|
                    0 <= j < i ==> !(#[trigger] self@.slot(self@.live(n)[j])).state.alive(),
            decreases live.len() - i,
        {
            let slot = self.weak_.slot(cursor);
            if slot.data_state().is_data_alive() {
                return Some((cursor, Ghost(i)));
            }
            assert(self@.live_at(n, i));
            cursor = slot.next_live();
            proof {
                i = i + 1;
            }
        }
        None
    }

    /// The first object of the scope `n` that has its data, but no weak slot.
    fn next_direct_(&self, n: NodeId) -> (r: Option<(ChunkPtr, Ghost<int>)>)
        requires
            self.wf(),
            self@.tree.nodes.contains_key(n),
        ensures
            match r {
                Some((c, i)) => self@.is_next_direct(n, i@) && c == self@.objects(n)[i@],
                None => forall|j: int|
                    0 <= j < self@.objects(n).len() ==> !self@.is_direct(
                        key(#[trigger] self@.objects(n)[j]),
                    ),
            },
    {
        let objects = &self.tree_.node(n).scope_ext_.content_.objects_;
        let mut i: usize = 0;
        while i < objects.len()
            invariant
                self.wf(),
                self@.tree.nodes.contains_key(n),
                objects@ == self@.objects(n),
                i <= objects@.len(),
                forall|j: int|
                    0 <= j < i ==> !self@.is_direct(key(#[trigger] self@.objects(n)[j])),
            decreases objects.len() - i,
        {
            let c = objects[i];
            proof {
                assert(self@.object_at(n, i as int));
                assert(c == self@.objects(n)[i as int]);
            }
            let cell = self.store_.get(c.raw - 1);
            if let Some(chunk) = &cell.chunk_ {
                if chunk.weak_chunk().is_none() {
                    return Some((c, Ghost(i as int)));
                }
            }
            i = i + 1;
        }
        None
    }
}

impl<V, H: Copy + TrPreDrop<V>, A: TrAllocator> RootScope<V, H, A> {
    /// Destroys the object of the scope `n` that is next in turn, whoever points at it, and hands
    /// it out after its hook has run; `None` where nothing is left to destroy. Slots and memory
    /// stay until the scope is emptied as a whole.
    pub fn destroy_next_(&mut self, n: NodeId) -> (r: Option<V>)
        requires
            old(self).wf(),
            old(self)@.tree.nodes.contains_key(n),
        ensures
            final(self).wf(),
            final(self).allocator_ == old(self).allocator_,
            next_destroyed(old(self)@, final(self)@, n, r),
    {
        let ghost a = self@;
        if let Some((p, at)) = self.next_bound_(n) {
            let ghost i = at@;
            proof {
                lemma_live_in_use(a, n);
                assert(a.homes.contains_key(a.live(n)[i]));
                assert(a.live(n).take(a.live(n).len() as int) =~= a.live(n));
                lemma_bound_taken(a, n, i, a.live(n).len() as int);
                lemma_direct_left_alone(a, p, a.objects(n));
            }
            let v = self.destroy_(p);
            proof {
                assert(self@.victims(n) =~= a.victims(n).skip(1));
                assert(a.victims(n)[0] == a.victim_at(p));
            }
            return Some(v);
        }
        if let Some((c, at)) = self.next_direct_(n) {
            let ghost i = at@;
            proof {
                assert(a.object_at(n, i));
                assert(a.objects(n).take(a.objects(n).len() as int) =~= a.objects(n));
                lemma_direct_taken(a, n, i, a.objects(n).len() as int);
                lemma_no_bound(a, a.live(n));
                lemma_bound_left_alone(a, key(c), a.live(n));
            }
            let v = self.drop_direct_(c);
            proof {
                assert(self@.victims(n) =~= a.victims(n).skip(1));
            }
            return Some(v);
        }
        proof {
            lemma_no_bound(a, a.live(n));
            lemma_no_direct(a, a.objects(n));
        }
        None
    }
}

/// What destroying the next object of the scope `n` comes to: it is the first of the victims,
/// and the others are left as they are.
pub open spec fn next_destroyed<V, H: Copy + TrPreDrop<V>>(
    a: RootView<V, H>,
    b: RootView<V, H>,
    n: NodeId,
    r: Option<V>,
) -> bool {
    match r {
        Some(v) => {
            &&& a.victims(n).len() > 0
            &&& a.victims(n)[0].record.outcome(a.victims(n)[0].data, v)
            &&& b.victims(n) == a.victims(n).skip(1)
            &&& {
                ||| exists|i: int| #[trigger]
                    a.is_next_bound(n, i) && b == a.with_destroyed(a.live(n)[i])
                ||| exists|i: int| #[trigger]
                    a.is_next_direct(n, i) && a.is_quiescent(n) && b == a.with_dead_cell(
                        key(a.objects(n)[i]),
                    )
            }
        },
        None => a.victims(n).len() == 0 && b == a,
    }
}

/// A change of one slot does not touch how another is settled.
proof fn lemma_settled_apart<H>(pools: ChainView<H>, p: SlotPtr, s: SlotView<H>, q: SlotPtr)
    requires
        in_use(pools, p),
        in_use(pools, q),
        p != q,
    ensures
        settled(with_slot(pools, p, s), q) == with_slot(settled(pools, q), p, s),
{
    let x = settled(with_slot(pools, p, s), q);
    let y = with_slot(settled(pools, q), p, s);
    assert(p.pool() != q.pool() || p.index() != q.index());
    assert(slot_of(with_slot(pools, p, s), q) == slot_of(pools, q));
    assert forall|i: int| 0 <= i < pools.len() implies x[i] == y[i] by {
        assert(x[i].slots =~= y[i].slots);
        assert(x[i].free =~= y[i].free);
    }
    assert(x =~= y);
}

/// How the slots of a scope are settled does not depend on whether their data was there.
proof fn lemma_settled_same<H>(
    pools: ChainView<H>,
    root: usize,
    live: Seq<SlotPtr>,
    i: int,
    state: DataState,
    m: int,
)
    requires
        chain_wf(pools, root),
        live.no_duplicates(),
        forall|j: int| 0 <= j < live.len() ==> in_use(pools, #[trigger] live[j]),
        0 <= i < live.len(),
        0 <= m <= live.len(),
    ensures
        ({
            let p = live[i];
            let s = SlotView { state, ..slot_of(pools, p) };
            let done = settled_all(pools, live.take(m));
            settled_all(with_slot(pools, p, s), live.take(m)) == (if m <= i {
                with_slot(done, p, s)
            } else {
                done
            })
        }),
    decreases m,
{
    let p = live[i];
    let s = SlotView { state, ..slot_of(pools, p) };
    let part = live.take(m);
    if m > 0 {
        let q = live[m - 1];
        let init = live.take(m - 1);
        let done = settled_all(pools, init);
        assert(part.drop_last() =~= init);
        assert(part.last() == q);
        lemma_settled_same(pools, root, live, i, state, m - 1);
        assert forall|j: int| 0 <= j < init.len() implies in_use(pools, #[trigger] init[j]) by {
            assert(init[j] == live[j]);
        }
        lemma_settled_all(pools, init, root);
        if m - 1 <= i {
            assert(in_use(pools, live[i]) && in_use(pools, live[m - 1]));
            assert(!init.contains(p)) by {
                if init.contains(p) {
                    let j = init.index_of(p);
                    assert(live[j] == live[i]);
                }
            }
            assert(!init.contains(q)) by {
                if init.contains(q) {
                    let j = init.index_of(q);
                    assert(live[j] == live[m - 1]);
                }
            }
            if q == p {
                lemma_with_slot_returned(done, p, s);
                lemma_with_slot_twice(
                    done,
                    p,
                    s,
                    SlotView {
                        state: DataState::Zombie,
                        prev_live: SlotPtr::null(),
                        next_live: SlotPtr::null(),
                        ..s
                    },
                );
                lemma_with_slot_chain(done, root, p, s);
                assert(m - 1 == i);
            } else {
                lemma_settled_apart(done, p, s, q);
            }
        }
    }
}

/// Destroying objects one at a time leaves the same in the end: a scope that is emptied after some
/// of its objects were destroyed is as if it had been emptied at once.
pub proof fn law_one_by_one<V, H: Copy + TrPreDrop<V>>(
    a: RootView<V, H>,
    b: RootView<V, H>,
    n: NodeId,
    r: Option<V>,
)
    requires
        a.wf(),
        a.tree.nodes.contains_key(n),
        next_destroyed(a, b, n, r),
    ensures
        b.flushed(n) == a.flushed(n),
{
    if r is Some {
        lemma_live_in_use(a, n);
        let live = a.live(n);
        assert(live.take(live.len() as int) =~= live);
        if exists|i: int| #[trigger]
            a.is_next_bound(n, i) && b == a.with_destroyed(a.live(n)[i]) {
            let i = choose|i: int| #[trigger]
                a.is_next_bound(n, i) && b == a.with_destroyed(a.live(n)[i]);
            assert(a.slot_ok(live[i]));
            lemma_settled_same(
                a.pools,
                a.addr,
                live,
                i,
                DataState::Destroyed,
                live.len() as int,
            );
        } else {
            let i = choose|i: int| #[trigger]
                a.is_next_direct(n, i) && a.is_quiescent(n) && b == a.with_dead_cell(
                    key(a.objects(n)[i]),
                );
            assert(a.object_at(n, i));
        }
        assert(b.flushed(n) =~= a.flushed(n));
    }
}

/// Emptying a scope one object at a time goes on exactly as long as an object in it has its data.
/// Each step destroys one such object, whoever points at it, after its own hook has run, and
/// leaves every other object, every other slot and every scope as it was.
pub proof fn law_each_step_destroys_one<V, H: Copy + TrPreDrop<V>>(
    a: RootView<V, H>,
    b: RootView<V, H>,
    n: NodeId,
    r: Option<V>,
)
    requires
        a.wf(),
        a.tree.nodes.contains_key(n),
        next_destroyed(a, b, n, r),
    ensures
        r is Some <==> exists|k: usize| #[trigger]
            a.cells.contains_key(k) && a.cells[k].owner == n && a.cells[k].data is Some,
        r is None ==> b == a,
        r matches Some(v) ==> exists|k: usize|
            {
                &&& #[trigger] a.cells.contains_key(k)
                &&& a.cells[k].owner == n && a.cells[k].data is Some
                &&& a.cells[k].record.outcome(a.cells[k].data->0, v)
                &&& b.cells[k].data is None
                &&& only_object_differs(a, b, a.cells[k].head.weak, k)
                &&& a.cells[k].head.weak == SlotPtr::null() ==> b.pools == a.pools
                &&& a.cells[k].head.weak != SlotPtr::null() ==> b.slot(a.cells[k].head.weak) == (
                SlotView { state: DataState::Destroyed, ..a.slot(a.cells[k].head.weak) })
            },
{
    let _ = law_victims_are_the_objects(a, n);
    if let Some(v) = r {
        lemma_live_in_use(a, n);
        let live = a.live(n);
        let objects = a.objects(n);
        assert(live.take(live.len() as int) =~= live);
        assert(objects.take(objects.len() as int) =~= objects);
        if exists|i: int| #[trigger]
            a.is_next_bound(n, i) && b == a.with_destroyed(a.live(n)[i]) {
            let i = choose|i: int| #[trigger]
                a.is_next_bound(n, i) && b == a.with_destroyed(a.live(n)[i]);
            let p = live[i];
            let k = key(a.slot(p).strong);
            assert(in_use(a.pools, live[i]));
            law_slot_and_object(a, p);
            lemma_bound_taken(a, n, i, live.len() as int);
            lemma_with_slot_chain(
                a.pools,
                a.addr,
                p,
                SlotView { state: DataState::Destroyed, ..a.slot(p) },
            );
            assert(a.victims(n)[0] == a.victim_at(p));
            assert(a.cells.contains_key(k));
        } else {
            let i = choose|i: int| #[trigger]
                a.is_next_direct(n, i) && a.is_quiescent(n) && b == a.with_dead_cell(
                    key(a.objects(n)[i]),
                );
            let k = key(objects[i]);
            assert(a.object_at(n, i));
            lemma_direct_taken(a, n, i, objects.len() as int);
            lemma_no_bound(a, live);
            assert(a.victims(n)[0] == a.direct_victims(objects)[0]);
            assert(a.cells.contains_key(k));
        }
    }
}

/// What is handed out when a scope is emptied: one value for each of its objects that has its
/// data, as that object's own hook leaves it.
pub proof fn law_collect_hands_out_each<V, H: Copy + TrPreDrop<V>>(
    a: RootView<V, H>,
    n: NodeId,
    values: Seq<V>,
) -> (keys: Seq<usize>)
    requires
        a.wf(),
        a.tree.nodes.contains_key(n),
        released(a.victims(n), values),
    ensures
        keys.no_duplicates(),
        forall|k: usize| #[trigger]
            keys.contains(k) <==> a.cells.contains_key(k) && a.cells[k].owner == n
                && a.cells[k].data is Some,
        values.len() == keys.len(),
        forall|i: int|
            #![trigger values[i]]
            0 <= i < values.len() ==> a.cells[keys[i]].record.outcome(
                a.cells[keys[i]].data->0,
                values[i],
            ),
{
    let keys = law_victims_are_the_objects(a, n);
    assert forall|i: int|
        #![trigger values[i]]
        0 <= i < values.len() implies a.cells[keys[i]].record.outcome(
        a.cells[keys[i]].data->0,
        values[i],
    ) by {
        assert(a.victims(n)[i].data == a.cells[keys[i]].data->0);
    }
    keys
}

/// What is handed out when scopes are reclaimed: one value for each object of theirs that has its
/// data, as that object's own hook leaves it.
pub proof fn law_reclaiming_hands_out_each<V, H: Copy + TrPreDrop<V>>(
    a: RootView<V, H>,
    values: Seq<V>,
) -> (keys: Seq<usize>)
    requires
        a.wf(),
        released(a.reclaim_victims(), values),
    ensures
        keys.no_duplicates(),
        forall|k: usize| #[trigger]
            keys.contains(k) <==> a.cells.contains_key(k) && a.cells[k].data is Some
                && !a.reclaimed().tree.nodes.contains_key(a.cells[k].owner),
        values.len() == keys.len(),
        forall|i: int|
            #![trigger values[i]]
            0 <= i < values.len() ==> a.cells[keys[i]].record.outcome(
                a.cells[keys[i]].data->0,
                values[i],
            ),
{
    let keys = law_reclaimed_objects_are_handed_out(a);
    assert forall|i: int|
        #![trigger values[i]]
        0 <= i < values.len() implies a.cells[keys[i]].record.outcome(
        a.cells[keys[i]].data->0,
        values[i],
    ) by {
        assert(a.reclaim_victims()[i].data == a.cells[keys[i]].data->0);
    }
    keys
}

} // verus!
