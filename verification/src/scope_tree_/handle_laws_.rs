//! What holds of handles and of the objects that they point at.

use vstd::prelude::*;

use crate::abs_::TrCarry;
use crate::emplace_::TrEmplace;
use crate::mem_::TrAllocator;
use crate::ptr_::{ChunkPtr, SlotPtr};
use crate::strong_::chunk_::{noted_record, K_REFC_MASK};
use crate::weak_::chain_::{
    in_use, lemma_taken_chain, lemma_with_slot_chain, lemma_with_slot_twice, slot_of, with_slot,
    ChainView,
};
use crate::weak_::chunk_::{owning_result, sharing_result, DataState, SlotView};
use crate::weak_::pool_::DEFAULT_SLOT_COUNT;
use crate::weak_::pre_drop_::PreDropRecord;

use super::laws_::{law_slots_in_use_are_not_handed_out, same_handles, same_scope};
use super::node_::{NodeId, NodeView};
use super::put_::{data_grant, put_as, put_done, record_for};
use super::state_::{key, slot_grant, CellView, RootView};
use super::teardown_::lemma_live_in_use;

verus! {

/// A slot whose data is not there gives no strong handle; both ways of asking for one give the
/// slot's state.
pub proof fn law_no_upgrade_without_data<V, H: Copy>(a: RootView<V, H>, p: SlotPtr)
    requires
        !a.slot(p).state.alive(),
    ensures
        owning_result(a.slot(p)) == Err::<ChunkPtr, _>(a.slot(p).state),
        sharing_result(a.slot(p)) == Err::<ChunkPtr, _>(a.slot(p).state),
        a.with_sharer(p) == a,
{
}

/// Replacing a slot and then reading it gives what was put there.
proof fn lemma_slot_read<V, H: Copy>(a: RootView<V, H>, p: SlotPtr, s: SlotView<H>)
    requires
        a.wf(),
        in_use(a.pools, p),
    ensures
        a.with_slot(p, s).slot(p) == s,
        a.with_slot(p, s).with_slot(p, a.slot(p)) == a,
        forall|q: SlotPtr|
            in_use(a.pools, q) && q != p ==> #[trigger] a.with_slot(p, s).slot(q) == a.slot(q),
{
    lemma_with_slot_twice(a.pools, p, s, a.slot(p));
    assert(a.with_slot(p, s).with_slot(p, a.slot(p)) =~= a);
    assert forall|q: SlotPtr| in_use(a.pools, q) && q != p implies #[trigger] a.with_slot(p, s).slot(
        q,
    ) == a.slot(q) by {}
}

/// Owning excludes: while an object is owned it can be neither owned nor shared by others. Letting
/// go of it, with a weak handle left, makes it as if it had never been owned.
pub proof fn law_owning_round_trip<V, H: Copy>(a: RootView<V, H>, p: SlotPtr)
    requires
        a.wf(),
        a.holds_weak(p),
        owning_result(a.slot(p)) is Ok,
    ensures
        ({
            let b = a.with_state(p, DataState::Owning);
            &&& owning_result(b.slot(p)) == Err::<ChunkPtr, _>(DataState::Owning)
            &&& sharing_result(b.slot(p)) == Err::<ChunkPtr, _>(DataState::Owning)
            &&& !b.owner_drop_destroys(p)
            &&& b.with_owner_dropped(p) == a
        }),
{
    let s = SlotView { state: DataState::Owning, ..a.slot(p) };
    lemma_slot_read(a, p, s);
    let b = a.with_state(p, DataState::Owning);
    assert(b.slot(p) == s);
    assert(SlotView { state: DataState::Created, ..b.slot(p) } == a.slot(p));
}

/// Sharing excludes owning, and only that: while an object is shared it can be shared further,
/// and not be owned. Each sharer that lets go takes back what its coming did; with the last one,
/// and a weak handle left, it is as if the object had never been shared.
pub proof fn law_sharing_round_trip<V, H: Copy>(a: RootView<V, H>, p: SlotPtr)
    requires
        a.wf(),
        a.holds_weak(p),
        sharing_result(a.slot(p)) is Ok,
        a.cell_of(p).head.count < K_REFC_MASK,
    ensures
        ({
            let b = a.with_sharer(p);
            &&& owning_result(b.slot(p)) == Err::<ChunkPtr, _>(DataState::Sharing)
            &&& sharing_result(b.slot(p)) == sharing_result(a.slot(p))
            &&& b.cell_of(p).head.count == a.cell_of(p).head.count + 1
            &&& !b.sharer_drop_destroys(p)
            &&& b.with_sharer_dropped(p) == a
        }),
{
    if !a.homes.contains_key(p) {
        assert(a.stray_ok(p));
    }
    assert(a.slot_ok(p));
    let k = key(a.slot(p).strong);
    let count = (a.cell_of(p).head.count + 1) as u32;
    let s = SlotView { state: DataState::Sharing, ..a.slot(p) };
    lemma_slot_read(a, p, s);
    let b = a.with_sharer(p);
    let c2 = CellView { head: a.shared_head(p, count), ..a.cells[k] };
    assert(b.slot(p) == s);
    assert(b.cell_of(p) == c2);
    let d = b.with_sharer_dropped(p);
    let left = (count - 1) as u32;
    assert(left == a.cell_of(p).head.count);
    let back = if left > 0 {
        DataState::Sharing
    } else {
        DataState::Created
    };
    assert(back == a.slot(p).state);
    assert(d == b.with_sharers(p, back, left));
    assert(SlotView { state: back, ..b.slot(p) } == a.slot(p));
    lemma_with_slot_twice(a.pools, p, s, a.slot(p));
    assert(CellView { head: b.shared_head(p, left), ..b.cells[k] } == a.cells[k]);
    assert(d.cells =~= a.cells);
    assert(d =~= a);
}

/// One more weak handle, and one less, is as if nothing had happened; and no data goes with it.
pub proof fn law_weak_round_trip<V, H: Copy>(a: RootView<V, H>, p: SlotPtr)
    requires
        a.wf(),
        a.holds_weak(p),
        a.slot(p).count < u32::MAX,
    ensures
        ({
            let b = a.with_count(p, (a.slot(p).count + 1) as u32);
            &&& b.holds_weak(p)
            &&& b.slot(p).state == a.slot(p).state
            &&& !b.weak_drop_destroys(p)
            &&& b.with_weak_dropped(p) == a
        }),
{
    let count = (a.slot(p).count + 1) as u32;
    let s = SlotView { count, ..a.slot(p) };
    lemma_slot_read(a, p, s);
    lemma_with_slot_chain(a.pools, a.addr, p, s);
    let b = a.with_count(p, count);
    assert(b.slot(p) == s);
    assert(SlotView { count: (count - 1) as u32, ..b.slot(p) } == a.slot(p));
}

/// Data is destroyed once: afterwards no handle that is let go of destroys anything, none gives
/// a strong handle, and emptying the scope passes the object by.
pub proof fn law_destroyed_once<V, H: Copy>(a: RootView<V, H>, p: SlotPtr)
    requires
        a.wf(),
        a.homes.contains_key(p),
        a.slot(p).state.alive(),
    ensures
        ({
            let b = a.with_destroyed(p);
            let k = key(a.slot(p).strong);
            &&& b.slot(p).state == DataState::Destroyed
            &&& !b.weak_drop_destroys(p) && !b.owner_drop_destroys(p) && !b.sharer_drop_destroys(p)
            &&& owning_result(b.slot(p)) == Err::<ChunkPtr, _>(DataState::Destroyed)
            &&& sharing_result(b.slot(p)) == Err::<ChunkPtr, _>(DataState::Destroyed)
            &&& b.cells[k].data is None
            &&& !b.is_direct(k)
            &&& b.bound_victims(seq![p]).len() == 0
            &&& forall|j: usize| #[trigger] a.cells.contains_key(j) && j != k ==> b.cells[j] == a.cells[j]
        }),
{
    assert(a.slot_ok(p));
    lemma_slot_read(a, p, SlotView { state: DataState::Destroyed, ..a.slot(p) });
    let b = a.with_destroyed(p);
    assert(b.slot(p).state == DataState::Destroyed);
    let one = seq![p];
    assert(one.last() == p);
    assert(one.drop_last() =~= Seq::<SlotPtr>::empty());
    assert(b.bound_victims(one.drop_last()).len() == 0);
}

/// A slot that was just handed out is one of the slots of the pools.
pub proof fn lemma_taken_in_range<V, H: Copy>(a: RootView<V, H>, addr: usize)
    requires
        a.wf(),
    ensures
        ({
            let p = a.slot_to_take();
            let pools = a.with_slot_taken(addr).pools;
            p.pool() < pools.len() && p.index() < pools[p.pool()].slots.len()
        }),
{
    if a.pools.last().free.len() > 0 {
        lemma_taken_chain(a.pools, a.addr);
    } else {
        let grown = a.with_weak_pool(addr).pools;
        assert(grown.last().free[0] == 0);
        assert(grown.last().slots.len() == DEFAULT_SLOT_COUNT);
    }
}

/// Reading gives back what was put. After an object was put into a scope its slot has one weak
/// handle and nobody holds it strongly; it can be owned, and what is found then is the value that
/// was made, with the hook that holds for it: its own, else that of its type.
pub proof fn law_put_then_read<V: TrCarry<E::Target>, H: Copy, A: TrAllocator, E: TrEmplace>(
    ready: RootView<V, H>,
    memory: A,
    after: RootView<V, H>,
    left: A,
    n: NodeId,
    emplace: E,
    object_level: Option<PreDropRecord<H>>,
    p: SlotPtr,
)
    requires
        ready.wf(),
        ready.tree.nodes.contains_key(n),
        after.wf(),
        put_done(ready, memory, after, left, n, emplace, object_level, Some(p)),
    ensures
        after.slot(p).state == DataState::Created,
        after.slot(p).count == 1,
        owning_result(after.slot(p)) is Ok,
        sharing_result(after.slot(p)) is Ok,
        after.homes.contains_key(p) && after.homes[p] == n,
        after.slot(p).meta == emplace.meta(),
        exists|data: E::Target|
            emplace.places(data) && after.cell_of(p).data == Some(#[trigger] V::carrying(data))
                && V::carrying(data).carried() == Some(data),
        after.cell_of(p).record == record_for::<E::Target, V, H>(ready, object_level),
        after.slot(p).record == noted_record(after.cell_of(p).record),
{
    let (k, data) = choose|k: usize, data: E::Target| #[trigger]
        put_as(ready, memory, after, n, emplace, object_level, k, data);
    let addr = slot_grant(memory)->0;
    let grant = data_grant(ready.after_slot(memory), emplace.layout());
    assert(after.homes.contains_key(p));
    assert(after.slot_ok(p));
    let record = record_for::<E::Target, V, H>(ready, object_level);
    let placed = ready.with_slot_taken(addr).with_direct(
        n,
        emplace.layout(),
        grant,
        k,
        V::carrying(data),
        record,
    );
    let live = placed.live(n);
    let s = placed.adopted_slot(live, p, k, DataState::Created, emplace.meta());
    let mid = placed.chained(live, p);
    lemma_taken_in_range(ready, addr);
    assert(live == ready.live(n));
    if live.len() > 0 {
        lemma_live_in_use(ready, n);
        assert(in_use(ready.pools, live[live.len() - 1]));
    }
    assert(mid.len() == placed.pools.len());
    assert(mid[p.pool()].slots.len() == placed.pools[p.pool()].slots.len());
    assert(after.pools == with_slot(mid, p, s));
    assert(after.pools[p.pool()].slots == mid[p.pool()].slots.update(p.index(), s));
    assert(after.slot(p) == s);
    assert(after.cell_of(p) == after.cells[k]);
    assert(after.cell_of(p).data == Some(V::carrying(data)));
}

/// Handing out a slot changes no slot that is in use.
pub proof fn lemma_taken_keeps<V, H: Copy>(a: RootView<V, H>, addr: usize, q: SlotPtr)
    requires
        a.wf(),
        in_use(a.pools, q),
    ensures
        in_use(a.with_slot_taken(addr).pools, q),
        a.with_slot_taken(addr).slot(q) == a.slot(q),
        q != a.slot_to_take(),
{
    law_slots_in_use_are_not_handed_out(a);
    let grown = if a.pools.last().free.len() > 0 {
        a.pools
    } else {
        a.with_weak_pool(addr).pools
    };
    assert(in_use(grown, q) && slot_of(grown, q) == a.slot(q));
    let pool = grown[q.pool()];
    let free = pool.free;
    if q.pool() == grown.len() - 1 && free.drop_first().contains(q.index() as u16) {
        let i = free.drop_first().index_of(q.index() as u16);
        assert(free[i + 1] == q.index() as u16);
    }
}

/// Replacing a slot changes no other.
proof fn lemma_slot_replaced<H>(pools: ChainView<H>, p: SlotPtr, s: SlotView<H>, q: SlotPtr)
    requires
        0 <= p.pool() < pools.len(),
        0 <= p.index() < pools[p.pool()].slots.len(),
        in_use(pools, q),
    ensures
        with_slot(pools, p, s).len() == pools.len(),
        in_use(with_slot(pools, p, s), q),
        slot_of(with_slot(pools, p, s), q) == (if q == p {
            s
        } else {
            slot_of(pools, q)
        }),
{
    if q.pool() == p.pool() && q.index() == p.index() {
        assert(q == p);
    }
}

/// What becomes of a slot in use when a fresh one is given to an object, as the last of `live`.
pub proof fn lemma_slot_after_put<V, H: Copy>(
    ready: RootView<V, H>,
    addr: usize,
    n: NodeId,
    s: SlotView<H>,
    q: SlotPtr,
)
    requires
        ready.wf(),
        ready.tree.nodes.contains_key(n),
        in_use(ready.pools, q),
    ensures
        ({
            let p = ready.slot_to_take();
            let live = ready.live(n);
            let pools = with_slot(ready.with_slot_taken(addr).chained(live, p), p, s);
            &&& q != p
            &&& in_use(pools, q)
            &&& slot_of(pools, q) == (SlotView {
                next_live: slot_of(pools, q).next_live,
                ..ready.slot(q)
            })
            &&& !live.contains(q) ==> slot_of(pools, q) == ready.slot(q)
        }),
{
    let p = ready.slot_to_take();
    let live = ready.live(n);
    let taken = ready.with_slot_taken(addr);
    let mid = taken.chained(live, p);
    lemma_live_in_use(ready, n);
    lemma_taken_in_range(ready, addr);
    lemma_taken_keeps(ready, addr, q);
    if live.len() > 0 {
        let last = live[live.len() - 1];
        assert(in_use(ready.pools, last) && live.contains(last));
        lemma_taken_keeps(ready, addr, last);
        lemma_slot_in_range(taken, last);
        lemma_slot_replaced(taken.pools, last, SlotView { next_live: p, ..taken.slot(last) }, q);
        assert(mid[p.pool()].slots.len() == taken.pools[p.pool()].slots.len());
    }
    lemma_slot_replaced(mid, p, s, q);
}

/// A slot in use is one of the slots of its pool.
proof fn lemma_slot_in_range<V, H: Copy>(a: RootView<V, H>, q: SlotPtr)
    requires
        in_use(a.pools, q),
    ensures
        0 <= q.pool() < a.pools.len(),
        0 <= q.index() < a.pools[q.pool()].slots.len(),
{
}

/// Putting an object into a scope changes no other object, no other scope, nothing of the scope
/// but what is in it, and takes no handle away. It adds at most one pool of weak slots.
pub proof fn law_put_keeps_others<V: TrCarry<E::Target>, H: Copy, A: TrAllocator, E: TrEmplace>(
    ready: RootView<V, H>,
    memory: A,
    after: RootView<V, H>,
    left: A,
    n: NodeId,
    emplace: E,
    object_level: Option<PreDropRecord<H>>,
    p: SlotPtr,
)
    requires
        ready.wf(),
        ready.tree.nodes.contains_key(n),
        after.wf(),
        put_done(ready, memory, after, left, n, emplace, object_level, Some(p)),
    ensures
        same_handles(ready, after),
        forall|k: usize| #[trigger]
            ready.cells.contains_key(k) ==> after.cells.contains_key(k) && after.cells[k]
                == ready.cells[k],
        forall|m: NodeId| #[trigger]
            ready.tree.nodes.contains_key(m) && m != n ==> same_scope(ready, after, m),
        forall|q: SlotPtr| #[trigger]
            in_use(ready.pools, q) ==> after.slot(q).state == ready.slot(q).state && after.slot(
                q,
            ).strong == ready.slot(q).strong,
        ready.pools.len() <= after.pools.len() <= ready.pools.len() + 1,
        after.strict == ready.strict,
        after.tree.nodes.contains_key(n),
        after.tree.nodes[n] == (NodeView {
            content: after.tree.nodes[n].content,
            ..ready.tree.nodes[n]
        }),
{
    let (k, data) = choose|k: usize, data: E::Target| #[trigger]
        put_as(ready, memory, after, n, emplace, object_level, k, data);
    let addr = slot_grant(memory)->0;
    let grant = data_grant(ready.after_slot(memory), emplace.layout());
    let taken = ready.with_slot_taken(addr);
    let record = record_for::<E::Target, V, H>(ready, object_level);
    let placed = taken.with_direct(n, emplace.layout(), grant, k, V::carrying(data), record);
    let live = ready.live(n);
    let s = placed.adopted_slot(live, p, k, DataState::Created, emplace.meta());
    assert(placed.pools == taken.pools && placed.live(n) == live);
    assert(after.pools == with_slot(taken.chained(live, p), p, s));
    assert(ready.pools.len() <= after.pools.len() <= ready.pools.len() + 1) by {
        lemma_live_in_use(ready, n);
        lemma_taken_in_range(ready, addr);
        if live.len() > 0 {
            let last = live[live.len() - 1];
            assert(in_use(ready.pools, last));
            lemma_taken_keeps(ready, addr, last);
        }
    }
    assert forall|q: SlotPtr| #[trigger] in_use(ready.pools, q) implies in_use(after.pools, q)
        && after.slot(q) == (SlotView { next_live: after.slot(q).next_live, ..ready.slot(q) }) && (
    !live.contains(q) ==> after.slot(q) == ready.slot(q)) by {
        lemma_slot_after_put(ready, addr, n, s, q);
    }
    assert forall|r: SlotPtr| #[trigger] ready.holds_weak(r) implies after.holds_weak(r)
        && after.slot(r).count == ready.slot(r).count by {
        assert(in_use(ready.pools, r));
    }
    assert forall|m: NodeId| #[trigger] ready.tree.nodes.contains_key(m) && m != n implies same_scope(
        ready,
        after,
        m,
    ) by {
        assert forall|q: SlotPtr| ready.homes.contains_key(q) && ready.homes[q] == m implies #[trigger]
            after.homes.contains_key(q) && after.homes[q] == m && in_use(after.pools, q)
            && after.slot(q) == ready.slot(q) by {
            assert(ready.slot_ok(q));
            assert(in_use(ready.pools, q));
            assert(q != p) by {
                lemma_slot_after_put(ready, addr, n, s, q);
            }
            assert(!live.contains(q)) by {
                lemma_live_in_use(ready, n);
            }
        }
    }
}

} // verus!
