//! What the users of handles and scopes rely on, said of slots, objects, flags and blocks alone.

use vstd::prelude::*;

use typeid::ConstTypeId;

use crate::abs_::{TrCarry, TrPreDrop};
use crate::emplace_::TrEmplace;
use crate::mem_::{Layout, TrAllocator};
use crate::ptr_::{law_slot_positions, ChunkPtr, PoolIndex, SlotPtr};
use crate::strong_::chunk_::K_REFC_MASK;
use crate::weak_::chain_::{
    in_use, lemma_returned_chain, lemma_with_slot_chain, lemma_with_slot_twice, with_slot,
};
use crate::weak_::chunk_::{owning_result, sharing_result, DataState, SlotView};
use crate::weak_::pool_::{free_at, pool_layout, DEFAULT_SLOT_COUNT};
use crate::weak_::pre_drop_::{drop_matters, type_key, PreDropRecord};

use super::handle_laws_::{
    law_put_keeps_others, lemma_slot_after_put, lemma_taken_in_range, lemma_taken_keeps,
};
use super::laws_::{
    law_reclaim, law_scope_taken_out, law_slots_in_use_are_not_handed_out, lemma_let_go, lemma_reclaim_from, same_scope,
};
use super::node_::{node_layout, NodeId, NodeView, ScopePool};
use super::order_::{
    below, child_at, children_first, close_order, closed_above, law_close_order_children_first,
    law_close_order_youngest_first, lemma_below_same, lemma_parent_is_older, parent_ok, younger,
    youngest_first,
};
use super::put_::{direct_as, direct_done, put_as, put_done, record_for};
use super::room_laws_::lemma_reclaim_keeps_shut;
use super::root_::fresh_root;
use super::state_::{key, lemma_pools_are_few, ptr, root_layout, BlockUse, RootView};
use super::tree_::lemma_tree_kept;
use super::teardown_::{lemma_flushed, lemma_live_in_use, lemma_settled_all};

verus! {

/// Whether `b` differs from `a` in nothing but the slot at `p` and the object `k`.
pub open spec fn only_object_differs<V, H: Copy>(
    a: RootView<V, H>,
    b: RootView<V, H>,
    p: SlotPtr,
    k: usize,
) -> bool {
    &&& b.tree == a.tree
    &&& b.homes == a.homes
    &&& b.hooks == a.hooks
    &&& b.blocks == a.blocks
    &&& b.uses == a.uses
    &&& b.addr == a.addr
    &&& b.strict == a.strict
    &&& b.pools.len() == a.pools.len()
    &&& forall|q: SlotPtr|
        q != p ==> #[trigger] in_use(b.pools, q) == in_use(a.pools, q) && (in_use(a.pools, q)
            ==> b.slot(q) == a.slot(q))
    &&& forall|j: usize| #[trigger] b.cells.contains_key(j) == a.cells.contains_key(j)
    &&& forall|j: usize|
        j != k && a.cells.contains_key(j) ==> #[trigger] b.cells[j] == a.cells[j]
}

/// A slot that a handle points at is at home in a scope unless it is a zombie, and its object has
/// its data exactly as long as the slot says so.
pub proof fn law_slot_and_object<V, H: Copy>(a: RootView<V, H>, p: SlotPtr)
    requires
        a.wf(),
        in_use(a.pools, p),
    ensures
        ({
            let s = a.slot(p);
            let k = key(s.strong);
            let alive = s.state == DataState::Created || s.state == DataState::Owning || s.state
                == DataState::Sharing;
            &&& !s.locked
            &&& alive ==> {
                &&& a.homes.contains_key(p)
                &&& s.strong != ChunkPtr::null()
                &&& a.cells.contains_key(k)
                &&& a.cells[k].data is Some
                &&& a.cells[k].head.weak == p
                &&& a.cells[k].owner == a.homes[p]
                &&& s.state == DataState::Sharing <==> a.cells[k].head.count > 0
            }
            &&& a.homes.contains_key(p) && !alive ==> s.state == DataState::Destroyed
            &&& !a.homes.contains_key(p) ==> (s.state == DataState::Zombie && s.count > 0) || (
            s.state == DataState::Reclaimed && s.count == 0)
        }),
{
    if a.homes.contains_key(p) {
        assert(a.slot_ok(p));
    } else {
        assert(a.stray_ok(p));
    }
}

/// An object can be taken by a single owner exactly where its state is `Created`, however many
/// weak handles there are and whatever it is; else the state is what one learns. Taking it changes
/// the slot's state and nothing else.
pub proof fn law_owning_asks_only_for_the_state<V, H: Copy>(a: RootView<V, H>, p: SlotPtr)
    requires
        a.wf(),
        a.holds_weak(p),
    ensures
        ({
            let s = a.slot(p);
            let b = a.with_state(p, DataState::Owning);
            &&& owning_result(s) == (if s.state == DataState::Created {
                Ok(s.strong)
            } else {
                Err(s.state)
            })
            &&& in_use(b.pools, p)
            &&& b.slot(p) == (SlotView { state: DataState::Owning, ..s })
            &&& b.cells == a.cells
            &&& only_object_differs(a, b, p, key(s.strong))
        }),
{
    law_slot_and_object(a, p);
    lemma_with_slot_chain(
        a.pools,
        a.addr,
        p,
        SlotView { state: DataState::Owning, ..a.slot(p) },
    );
}

/// An object can be shared exactly where its state is `Created` or `Sharing`, however many weak
/// handles there are and whatever it is; else the state is what one learns. Sharing it changes the
/// slot's state, counts one more sharer, and keeps the data.
pub proof fn law_sharing_asks_only_for_the_state<V, H: Copy>(a: RootView<V, H>, p: SlotPtr)
    requires
        a.wf(),
        a.holds_weak(p),
        a.cell_of(p).head.count < K_REFC_MASK,
    ensures
        ({
            let s = a.slot(p);
            let k = key(s.strong);
            let b = a.with_sharer(p);
            let free = s.state == DataState::Created || s.state == DataState::Sharing;
            &&& sharing_result(s) == (if free {
                Ok(s.strong)
            } else {
                Err(s.state)
            })
            &&& !free ==> b == a
            &&& free ==> {
                &&& in_use(b.pools, p)
                &&& b.slot(p) == (SlotView { state: DataState::Sharing, ..s })
                &&& a.cells[k].data is Some
                &&& b.cells[k].data == a.cells[k].data
                &&& b.cells[k].record == a.cells[k].record
                &&& b.cells[k].head.weak == p
                &&& b.cells[k].head.count == a.cells[k].head.count + 1
                &&& only_object_differs(a, b, p, k)
            }
        }),
{
    law_slot_and_object(a, p);
    lemma_with_slot_chain(
        a.pools,
        a.addr,
        p,
        SlotView { state: DataState::Sharing, ..a.slot(p) },
    );
}

/// What becomes of an object when one of its weak handles goes. Another one left: one less is
/// counted. The last one: data that nobody holds strongly goes at once, whatever its type, its
/// hook or its size; data that somebody holds stays; and a slot that has outlived its scope is
/// free again. Nothing else changes.
pub proof fn law_weak_handle_goes<V, H: Copy>(a: RootView<V, H>, p: SlotPtr)
    requires
        a.wf(),
        a.holds_weak(p),
    ensures
        ({
            let s = a.slot(p);
            let k = key(s.strong);
            let b = a.with_weak_dropped(p);
            &&& a.weak_drop_destroys(p) <==> s.count == 1 && s.state == DataState::Created
            &&& only_object_differs(a, b, p, k)
            &&& in_use(b.pools, p) <==> !(s.count == 1 && s.state == DataState::Zombie)
            &&& s.count > 1 ==> b.cells == a.cells && b.slot(p) == (SlotView {
                count: (s.count - 1) as u32,
                ..s
            })
            &&& s.count == 1 && s.state == DataState::Created ==> {
                &&& b.slot(p) == (SlotView { count: 0, state: DataState::Destroyed, ..s })
                &&& a.cells[k].data is Some
                &&& b.cells[k].data is None
            }
            &&& s.count == 1 && s.state != DataState::Created ==> b.cells == a.cells
            &&& s.count == 1 && s.state != DataState::Created && s.state != DataState::Zombie
                ==> b.slot(p) == (SlotView { count: 0, ..s })
        }),
{
    law_slot_and_object(a, p);
    let s = a.slot(p);
    lemma_with_slot_chain(a.pools, a.addr, p, SlotView { count: (s.count - 1) as u32, ..s });
    lemma_with_slot_chain(a.pools, a.addr, p, SlotView { count: 0, ..s });
    lemma_with_slot_chain(
        a.pools,
        a.addr,
        p,
        SlotView { count: 0, state: DataState::Destroyed, ..s },
    );
    lemma_with_slot_twice(
        a.pools,
        p,
        SlotView { count: 0, ..s },
        SlotView { count: 0, state: DataState::Destroyed, ..s },
    );
    lemma_returned_chain(a.pools, a.addr, p);
}

/// What becomes of an object when its single owner goes: it is free to be taken again as long as
/// a weak handle is left, and its data goes at once otherwise. Where the object is not owned, its
/// scope was emptied meanwhile, and nothing happens. Nothing else changes.
pub proof fn law_owner_goes<V, H: Copy>(a: RootView<V, H>, p: SlotPtr)
    requires
        a.wf(),
        in_use(a.pools, p),
    ensures
        ({
            let s = a.slot(p);
            let k = key(s.strong);
            let b = a.with_owner_dropped(p);
            let owned = s.state == DataState::Owning;
            &&& a.owner_drop_destroys(p) <==> owned && s.count == 0
            &&& only_object_differs(a, b, p, k)
            &&& in_use(b.pools, p)
            &&& !owned ==> b == a
            &&& owned && s.count > 0 ==> b.cells == a.cells && b.slot(p) == (SlotView {
                state: DataState::Created,
                ..s
            })
            &&& owned && s.count == 0 ==> {
                &&& b.slot(p) == (SlotView { state: DataState::Destroyed, ..s })
                &&& a.cells[k].data is Some
                &&& b.cells[k].data is None
            }
        }),
{
    law_slot_and_object(a, p);
    let s = a.slot(p);
    lemma_with_slot_chain(a.pools, a.addr, p, SlotView { state: DataState::Created, ..s });
    lemma_with_slot_chain(a.pools, a.addr, p, SlotView { state: DataState::Destroyed, ..s });
}

/// What becomes of an object when one of its sharers goes: one less is counted. With the last one
/// it is free to be taken again as long as a weak handle is left, and its data goes at once
/// otherwise. Where the object is not shared, its scope was emptied meanwhile, and nothing
/// happens. Nothing else changes.
pub proof fn law_sharer_goes<V, H: Copy>(a: RootView<V, H>, p: SlotPtr)
    requires
        a.wf(),
        in_use(a.pools, p),
    ensures
        ({
            let s = a.slot(p);
            let k = key(s.strong);
            let b = a.with_sharer_dropped(p);
            let shared = s.state == DataState::Sharing;
            let sharers = a.cells[k].head.count;
            &&& a.sharer_drop_destroys(p) <==> shared && sharers == 1 && s.count == 0
            &&& only_object_differs(a, b, p, k)
            &&& in_use(b.pools, p)
            &&& !shared ==> b == a
            &&& shared ==> sharers > 0 && a.cells[k].data is Some
            &&& shared && sharers > 1 ==> {
                &&& b.slot(p) == s
                &&& b.cells[k].data == a.cells[k].data
                &&& b.cells[k].record == a.cells[k].record
                &&& b.cells[k].head.count == sharers - 1
            }
            &&& shared && sharers == 1 && s.count > 0 ==> {
                &&& b.slot(p) == (SlotView { state: DataState::Created, ..s })
                &&& b.cells[k].data == a.cells[k].data
                &&& b.cells[k].record == a.cells[k].record
                &&& b.cells[k].head.count == 0
            }
            &&& shared && sharers == 1 && s.count == 0 ==> {
                &&& b.slot(p) == (SlotView { state: DataState::Destroyed, ..s })
                &&& b.cells[k].data is None
            }
        }),
{
    law_slot_and_object(a, p);
    let s = a.slot(p);
    lemma_with_slot_chain(a.pools, a.addr, p, s);
    lemma_with_slot_chain(a.pools, a.addr, p, SlotView { state: DataState::Created, ..s });
    lemma_with_slot_chain(a.pools, a.addr, p, SlotView { state: DataState::Destroyed, ..s });
}

/// What becomes of an object without a weak slot when its owner goes: its data, and nothing else.
pub proof fn law_direct_owner_goes<V, H: Copy>(a: RootView<V, H>, k: usize)
    requires
        a.wf(),
        a.cells.contains_key(k),
    ensures
        ({
            let b = a.with_dead_cell(k);
            &&& b.cells[k].data is None
            &&& b.cells[k].owner == a.cells[k].owner
            &&& b.pools == a.pools
            &&& only_object_differs(a, b, SlotPtr::null(), k)
        }),
{
}

/// One more weak handle is counted, and nothing else changes.
pub proof fn law_weak_handle_comes<V, H: Copy>(a: RootView<V, H>, p: SlotPtr)
    requires
        a.wf(),
        a.holds_weak(p),
        a.slot(p).count < u32::MAX,
    ensures
        ({
            let s = a.slot(p);
            let b = a.with_count(p, (s.count + 1) as u32);
            &&& in_use(b.pools, p)
            &&& b.slot(p) == (SlotView { count: (s.count + 1) as u32, ..s })
            &&& b.cells == a.cells
            &&& only_object_differs(a, b, p, key(s.strong))
        }),
{
    let s = a.slot(p);
    lemma_with_slot_chain(a.pools, a.addr, p, SlotView { count: (s.count + 1) as u32, ..s });
}

/// Writing to an object changes its data and nothing else.
pub proof fn law_writing_changes_the_data<V, H: Copy>(a: RootView<V, H>, k: usize, data: V)
    requires
        a.cells.contains_key(k),
    ensures
        ({
            let b = a.with_data(k, data);
            &&& b.cells[k].data == Some(data)
            &&& b.cells[k].head == a.cells[k].head
            &&& b.cells[k].record == a.cells[k].record
            &&& b.cells[k].owner == a.cells[k].owner
            &&& b.pools == a.pools
            &&& only_object_differs(a, b, SlotPtr::null(), k)
        }),
{
}

/// A value comes out of its hook as the hook may leave it, and unchanged where there is none.
pub proof fn law_hook_decides<V, H: Copy + TrPreDrop<V>>(
    record: PreDropRecord<H>,
    before: V,
    after: V,
)
    ensures
        record.hook_ is None ==> (record.outcome(before, after) <==> after == before),
        record.hook_ matches Some(hook) ==> (record.outcome(before, after) <==> hook.last_access(
            before,
            after,
        )),
{
}

/// A scope that is not below `n` is as closed from above as it was when the handle of `n` went, and
/// none becomes open.
proof fn lemma_letting_go_above<V, H: Copy>(a: RootView<V, H>, n: NodeId, m: NodeId)
    requires
        a.wf(),
        a.tree.nodes.contains_key(n),
        n != a.tree.root,
        a.tree.nodes.contains_key(m),
    ensures
        ({
            let b = a.let_go(n);
            &&& closed_above(a.tree.nodes, m) ==> closed_above(b.tree.nodes, m)
            &&& !below(a.tree.nodes, n, m) ==> closed_above(b.tree.nodes, m) == closed_above(
                a.tree.nodes,
                m,
            )
        }),
    decreases a.tree.nodes[m].stamp,
{
    let b = a.let_go(n);
    let t = a.tree.with_dropped(n);
    lemma_parent_is_older(a.tree.nodes, a.tree.clock, m);
    lemma_below_same(a.tree.nodes, t.nodes, n, m);
    if let Some(p) = a.tree.nodes[m].parent {
        lemma_letting_go_above(a, n, p);
        lemma_below_same(a.tree.nodes, t.nodes, n, p);
    }
}

/// A scope that is not below `n` loses no child but `n` when the handle of `n` went.
proof fn lemma_children_left<V, H: Copy>(a: RootView<V, H>, n: NodeId, m: NodeId)
    requires
        a.wf(),
        a.tree.nodes.contains_key(n),
        n != a.tree.root,
        a.tree.nodes.contains_key(m),
        !below(a.tree.nodes, n, m),
    ensures
        forall|c: NodeId| #[trigger]
            a.let_go(n).tree.nodes[m].children.contains(c) <==> a.tree.nodes[m].children.contains(c)
                && c != n,
{
    let t = a.tree.with_dropped(n);
    let x = a.tree.nodes[m].children;
    let y = a.let_go(n).tree.nodes[m].children;
    lemma_below_same(a.tree.nodes, t.nodes, n, m);
    if x.contains(n) {
        let i = x.index_of(n);
        assert(child_at(a.tree.nodes, m, i));
        assert(y == x.remove(i));
        assert forall|c: NodeId| #[trigger] y.contains(c) <==> x.contains(c) && c != n by {
            if y.contains(c) {
                let j = y.index_of(c);
                if j < i {
                    assert(x[j] == c);
                } else {
                    assert(x[j + 1] == c);
                }
            }
            if x.contains(c) && c != n {
                let j = x.index_of(c);
                if j < i {
                    assert(y[j] == c);
                } else {
                    assert(y[j - 1] == c);
                }
            }
        }
    } else {
        assert(parent_ok(a.tree.nodes, n));
    }
}

/// When the handle of the scope `n` goes, that scope and what is below it are closed, unless it is
/// closed already, and no other: a scope that is not below it is closed afterwards exactly where
/// it was before, keeps what is above it, and loses none of its children but `n`. No other handle
/// goes, and nothing in any scope changes.
pub proof fn law_letting_go_closes_only_below<V, H: Copy>(a: RootView<V, H>, n: NodeId)
    requires
        a.wf(),
        a.tree.nodes.contains_key(n),
        n != a.tree.root,
    ensures
        ({
            let b = a.let_go(n);
            &&& b.tree.root == a.tree.root
            &&& b.cells == a.cells && b.pools == a.pools && b.homes == a.homes
            &&& b.hooks == a.hooks && b.blocks == a.blocks && b.uses == a.uses
            &&& b.addr == a.addr && b.strict == a.strict
            &&& forall|m: NodeId| #[trigger]
                b.tree.nodes.contains_key(m) == a.tree.nodes.contains_key(m)
            &&& forall|m: NodeId| #[trigger]
                a.tree.nodes.contains_key(m) ==> {
                    let x = a.tree.nodes[m];
                    let y = b.tree.nodes[m];
                    &&& y.closed == (x.closed || (!a.tree.nodes[n].closed && below(
                        a.tree.nodes,
                        n,
                        m,
                    )))
                    &&& y.dropped == (x.dropped || m == n)
                    &&& y.content == x.content && y.addr == x.addr && y.stamp == x.stamp
                    &&& !below(a.tree.nodes, n, m) || a.tree.nodes[n].closed ==> y.parent
                        == x.parent
                    &&& !below(a.tree.nodes, n, m) ==> forall|c: NodeId| #[trigger]
                        y.children.contains(c) <==> x.children.contains(c) && c != n
                    &&& closed_above(a.tree.nodes, m) ==> closed_above(b.tree.nodes, m)
                    &&& !below(a.tree.nodes, n, m) ==> closed_above(b.tree.nodes, m)
                        == closed_above(a.tree.nodes, m)
                }
        }),
{
    let b = a.let_go(n);
    let t = a.tree.with_dropped(n);
    lemma_let_go(a, n);
    assert forall|m: NodeId| #[trigger] a.tree.nodes.contains_key(m) implies below(
        t.nodes,
        n,
        m,
    ) == below(a.tree.nodes, n, m) by {
        lemma_below_same(a.tree.nodes, t.nodes, n, m);
    }
    assert forall|m: NodeId| #[trigger] a.tree.nodes.contains_key(m) implies {
        let x = a.tree.nodes[m];
        let y = b.tree.nodes[m];
        &&& !below(a.tree.nodes, n, m) ==> forall|c: NodeId| #[trigger]
            y.children.contains(c) <==> x.children.contains(c) && c != n
        &&& closed_above(a.tree.nodes, m) ==> closed_above(b.tree.nodes, m)
        &&& !below(a.tree.nodes, n, m) ==> closed_above(b.tree.nodes, m) == closed_above(
            a.tree.nodes,
            m,
        )
    } by {
        lemma_letting_go_above(a, n, m);
        if !below(a.tree.nodes, n, m) {
            lemma_children_left(a, n, m);
        }
    }
}

/// Reclaiming takes a scope out exactly where it is closed, its handle is gone, no scope is below
/// it, and no slot of it is `Created`, `Owning` or `Sharing`; whatever else was ever in it. Every
/// other scope stays as it was, with its slots and objects. No weak handle is taken away.
pub proof fn law_reclaiming_takes_the_forgotten<V, H: Copy>(a: RootView<V, H>)
    requires
        a.wf(),
    ensures
        ({
            let b = a.reclaimed();
            &&& b.wf()
            &&& b.tree.root == a.tree.root && b.hooks == a.hooks && b.addr == a.addr
            &&& b.strict == a.strict && b.pools.len() == a.pools.len()
            &&& forall|m: NodeId| #[trigger]
                b.tree.nodes.contains_key(m) <==> a.tree.nodes.contains_key(m) && (
                !a.tree.nodes[m].closed || !a.tree.nodes[m].dropped
                    || a.tree.nodes[m].children.len() > 0 || exists|i: int|
                    0 <= i < a.live(m).len() && ((#[trigger] a.slot(a.live(m)[i])).state
                        == DataState::Created || a.slot(a.live(m)[i]).state == DataState::Owning
                        || a.slot(a.live(m)[i]).state == DataState::Sharing))
            &&& forall|m: NodeId| #[trigger]
                b.tree.nodes.contains_key(m) ==> b.tree.nodes[m] == a.tree.nodes[m]
            &&& forall|p: SlotPtr|
                #![trigger b.slot(p)]
                a.homes.contains_key(p) && b.tree.nodes.contains_key(a.homes[p])
                    ==> b.homes.contains_key(p) && b.homes[p] == a.homes[p] && b.slot(p) == a.slot(p)
            &&& forall|k: usize|
                #![trigger b.cells[k]]
                a.cells.contains_key(k) && b.tree.nodes.contains_key(a.cells[k].owner)
                    ==> b.cells.contains_key(k) && b.cells[k] == a.cells[k]
            &&& forall|p: SlotPtr| #[trigger]
                a.holds_weak(p) ==> b.holds_weak(p) && b.slot(p).count == a.slot(p).count
        }),
{
    let b = a.reclaimed();
    law_reclaim(a);
    assert forall|m: NodeId| #[trigger] b.tree.nodes.contains_key(m) <==> a.tree.nodes.contains_key(
        m,
    ) && (!a.tree.nodes[m].closed || !a.tree.nodes[m].dropped || a.tree.nodes[m].children.len() > 0
        || exists|i: int|
        0 <= i < a.live(m).len() && ((#[trigger] a.slot(a.live(m)[i])).state == DataState::Created
            || a.slot(a.live(m)[i]).state == DataState::Owning || a.slot(a.live(m)[i]).state
            == DataState::Sharing)) by {
        if a.tree.nodes.contains_key(m) && !a.is_quiescent(m) {
            let i = choose|i: int|
                0 <= i < a.live(m).len() && (#[trigger] a.slot(a.live(m)[i])).state.alive();
            assert(a.slot(a.live(m)[i]).state.alive());
        }
    }
    assert forall|m: NodeId| #[trigger] b.tree.nodes.contains_key(m) implies b.tree.nodes[m]
        == a.tree.nodes[m] by {
        assert(same_scope(a, b, m));
    }
    assert forall|p: SlotPtr|
        #![trigger b.slot(p)]
        a.homes.contains_key(p) && b.tree.nodes.contains_key(a.homes[p]) implies b.homes.contains_key(
        p,
    ) && b.homes[p] == a.homes[p] && b.slot(p) == a.slot(p) by {
        assert(same_scope(a, b, a.homes[p]));
        assert(b.homes.contains_key(p));
    }
    assert forall|k: usize|
        #![trigger b.cells[k]]
        a.cells.contains_key(k) && b.tree.nodes.contains_key(
            a.cells[k].owner,
        ) implies b.cells.contains_key(k) && b.cells[k] == a.cells[k] by {
        assert(same_scope(a, b, a.cells[k].owner));
        assert(b.cells.contains_key(k));
    }
}

/// Whether no scope waits that nothing holds any more: closed, its handle gone, no scope below it,
/// and none of its slots `Created`, `Owning` or `Sharing`.
pub open spec fn none_forgotten<V, H: Copy>(s: RootView<V, H>) -> bool {
    forall|m: NodeId| #[trigger]
        s.tree.nodes.contains_key(m) && s.tree.nodes[m].closed && s.tree.nodes[m].dropped
            && s.tree.nodes[m].children.len() == 0 ==> exists|i: int|
            0 <= i < s.live(m).len() && ((#[trigger] s.slot(s.live(m)[i])).state
                == DataState::Created || s.slot(s.live(m)[i]).state == DataState::Owning || s.slot(
                s.live(m)[i],
            ).state == DataState::Sharing)
}

/// Once scopes were reclaimed none is left that nothing holds.
pub proof fn law_none_forgotten<V, H: Copy>(a: RootView<V, H>)
    requires
        a.wf(),
    ensures
        none_forgotten(a.reclaimed()),
{
    let b = a.reclaimed();
    law_reclaiming_takes_the_forgotten(a);
    assert forall|m: NodeId| #[trigger]
        b.tree.nodes.contains_key(m) && b.tree.nodes[m].closed && b.tree.nodes[m].dropped
            && b.tree.nodes[m].children.len() == 0 implies exists|i: int|
        0 <= i < b.live(m).len() && ((#[trigger] b.slot(b.live(m)[i])).state == DataState::Created
            || b.slot(b.live(m)[i]).state == DataState::Owning || b.slot(b.live(m)[i]).state
            == DataState::Sharing) by {
        let i = choose|i: int|
            0 <= i < a.live(m).len() && ((#[trigger] a.slot(a.live(m)[i])).state
                == DataState::Created || a.slot(a.live(m)[i]).state == DataState::Owning || a.slot(
                a.live(m)[i],
            ).state == DataState::Sharing);
        assert(a.live_at(m, i));
        assert(b.slot(b.live(m)[i]) == a.slot(a.live(m)[i]));
    }
}

/// What a block is used for is gone: a scope that is not there any more.
pub open spec fn use_is_over<V, H: Copy>(s: RootView<V, H>, u: BlockUse) -> bool {
    match u {
        BlockUse::Node(m) => !s.tree.nodes.contains_key(m),
        BlockUse::Strong(m, _) => !s.tree.nodes.contains_key(m),
        BlockUse::Root => false,
        BlockUse::Weak(_) => false,
    }
}

proof fn lemma_memory_from<V, H: Copy>(a: RootView<V, H>, i: int)
    requires
        a.wf(),
        0 <= i <= a.tree.pending.len(),
    ensures
        ({
            let b = a.reclaimed_along(a.tree.pending.skip(i));
            &&& forall|x: usize| #[trigger]
                b.uses.contains_key(x) <==> a.uses.contains_key(x) && !use_is_over(b, a.uses[x])
            &&& forall|x: usize| #[trigger] b.uses.contains_key(x) ==> b.uses[x] == a.uses[x]
            &&& forall|x: usize| #[trigger]
                b.blocks.contains_key(x) <==> a.blocks.contains_key(x) && !(a.uses.contains_key(x)
                    && use_is_over(b, a.uses[x]))
            &&& forall|x: usize| #[trigger] b.blocks.contains_key(x) ==> b.blocks[x] == a.blocks[x]
        }),
    decreases a.tree.pending.len() - i,
{
    let all = a.tree.pending;
    let line = all.skip(i);
    let b = a.reclaimed_along(line);
    lemma_reclaim_from(a, i);
    if line.len() == 0 {
        assert forall|x: usize| #[trigger] a.uses.contains_key(x) implies !use_is_over(
            b,
            a.uses[x],
        ) by {
            assert(a.use_ok(x));
        }
        assert(b == a);
    } else {
        let n = line[0];
        let rest = line.skip(1);
        assert(n == all[i]);
        assert(rest =~= all.skip(i + 1));
        assert(a.tree.nodes.contains_key(all[i]));
        if a.is_reclaimable(n) {
            let c = a.without_scope(n);
            law_scope_taken_out(a, i);
            assert(c.tree.pending.skip(i) =~= rest);
            lemma_memory_from(c, i);
            lemma_reclaim_from(c, i);
            assert(!b.tree.nodes.contains_key(n));
            assert(all.contains(n));
            assert(a.tree.nodes[n].closed);
            assert(a.uses_as(a.tree.nodes[n].addr, BlockUse::Node(n)));
            assert forall|x: usize| #[trigger] c.uses.contains_key(x) <==> a.uses.contains_key(x)
                && !use_is_over(c, a.uses[x]) by {
                if a.uses.contains_key(x) {
                    assert(a.use_ok(x));
                }
            }
            assert forall|x: usize| #[trigger] c.blocks.contains_key(x) <==> a.blocks.contains_key(
                x,
            ) && !(a.uses.contains_key(x) && use_is_over(c, a.uses[x])) by {
                if a.uses.contains_key(x) {
                    assert(a.use_ok(x));
                }
            }
            assert forall|x: usize| a.uses.contains_key(x) && use_is_over(
                c,
                #[trigger] a.uses[x],
            ) implies use_is_over(b, a.uses[x]) by {}
            assert forall|x: usize| #[trigger] b.uses.contains_key(x) <==> a.uses.contains_key(x)
                && !use_is_over(b, a.uses[x]) by {
                assert(c.uses.contains_key(x) ==> c.uses[x] == a.uses[x]);
            }
            assert forall|x: usize| #[trigger] b.blocks.contains_key(x) <==> a.blocks.contains_key(
                x,
            ) && !(a.uses.contains_key(x) && use_is_over(b, a.uses[x])) by {
                assert(c.uses.contains_key(x) ==> c.uses[x] == a.uses[x]);
                assert(c.blocks.contains_key(x) <==> a.blocks.contains_key(x) && !(
                a.uses.contains_key(x) && use_is_over(c, a.uses[x])));
                assert(c.uses.contains_key(x) <==> a.uses.contains_key(x) && !use_is_over(
                    c,
                    a.uses[x],
                ));
            }
            assert forall|x: usize| #[trigger] b.uses.contains_key(x) implies b.uses[x]
                == a.uses[x] by {
                assert(c.uses.contains_key(x));
            }
            assert forall|x: usize| #[trigger] b.blocks.contains_key(x) implies b.blocks[x]
                == a.blocks[x] by {
                assert(c.blocks.contains_key(x));
            }
        } else {
            assert(b == a.reclaimed_along(all.skip(i + 1)));
            lemma_memory_from(a, i + 1);
        }
    }
}

/// Whether, of the scopes that are in both trees, those below `n` in `a` are closed in `b`, and
/// every other is exactly as closed as it was: itself, and by one above it.
pub open spec fn only_below_closed<V, H: Copy>(a: RootView<V, H>, b: RootView<V, H>, n: NodeId)
    -> bool {
    &&& forall|m: NodeId| #[trigger]
        b.tree.nodes.contains_key(m) ==> a.tree.nodes.contains_key(m) && b.tree.nodes[m].closed == (
        a.tree.nodes[m].closed || (!a.tree.nodes[n].closed && below(a.tree.nodes, n, m)))
    &&& forall|m: NodeId| #[trigger]
        b.tree.nodes.contains_key(m) && !below(a.tree.nodes, n, m) ==> closed_above(
            b.tree.nodes,
            m,
        ) == closed_above(a.tree.nodes, m)
    &&& forall|m: NodeId| #[trigger]
        a.tree.nodes.contains_key(m) && !a.tree.nodes[m].dropped && m != n
            ==> b.tree.nodes.contains_key(m) && !b.tree.nodes[m].dropped
    &&& b.strict == a.strict && b.tree.root == a.tree.root
}

/// Releasing the handle of the scope `n` closes that scope and what is below it, and no other: a
/// scope that is not below it may be used afterwards exactly where it could be used before. Every
/// scope with a handle of its own stays, and none is left that nothing holds.
pub proof fn law_release_closes_only_below<V, H: Copy>(a: RootView<V, H>, n: NodeId)
    requires
        a.wf(),
        a.tree.nodes.contains_key(n),
        n != a.tree.root,
    ensures
        ({
            let b = a.let_go(n).reclaimed();
            &&& forall|m: NodeId| #[trigger]
                b.tree.nodes.contains_key(m) ==> a.tree.nodes.contains_key(m)
                    && b.tree.nodes[m].closed == (a.tree.nodes[m].closed || (
                !a.tree.nodes[n].closed && below(a.tree.nodes, n, m)))
            &&& forall|m: NodeId| #[trigger]
                b.tree.nodes.contains_key(m) && !below(a.tree.nodes, n, m) ==> closed_above(
                    b.tree.nodes,
                    m,
                ) == closed_above(a.tree.nodes, m)
            &&& forall|m: NodeId| #[trigger]
                a.tree.nodes.contains_key(m) && !a.tree.nodes[m].dropped && m != n
                    ==> b.tree.nodes.contains_key(m) && !b.tree.nodes[m].dropped
            &&& b.strict == a.strict && b.tree.root == a.tree.root
            &&& only_below_closed(a, b, n)
            &&& none_forgotten(b)
        }),
{
    let g = a.let_go(n);
    let b = g.reclaimed();
    lemma_let_go(a, n);
    law_letting_go_closes_only_below(a, n);
    law_reclaiming_takes_the_forgotten(g);
    law_none_forgotten(g);
    assert forall|m: NodeId| #[trigger] b.tree.nodes.contains_key(m) implies closed_above(
        b.tree.nodes,
        m,
    ) == closed_above(g.tree.nodes, m) by {
        lemma_reclaim_keeps_shut(g, m);
    }
    assert forall|m: NodeId| #[trigger] b.tree.nodes.contains_key(m) implies a.tree.nodes.contains_key(
        m,
    ) && b.tree.nodes[m].closed == (a.tree.nodes[m].closed || (!a.tree.nodes[n].closed && below(
        a.tree.nodes,
        n,
        m,
    ))) by {
        assert(g.tree.nodes.contains_key(m));
    }
    assert forall|m: NodeId| #[trigger]
        b.tree.nodes.contains_key(m) && !below(a.tree.nodes, n, m) implies closed_above(
        b.tree.nodes,
        m,
    ) == closed_above(a.tree.nodes, m) by {
        assert(g.tree.nodes.contains_key(m));
        assert(a.tree.nodes.contains_key(m));
    }
    assert forall|m: NodeId| #[trigger]
        a.tree.nodes.contains_key(m) && !a.tree.nodes[m].dropped && m
            != n implies b.tree.nodes.contains_key(m) && !b.tree.nodes[m].dropped by {
        assert(!g.tree.nodes[m].dropped);
    }
}

/// With a scope that is reclaimed goes all of its memory, its own block and those of its pools,
/// back to the allocator; every other block stays.
pub proof fn law_memory_goes_with_the_scope<V, H: Copy>(a: RootView<V, H>)
    requires
        a.wf(),
    ensures
        ({
            let b = a.reclaimed();
            &&& forall|x: usize| #[trigger]
                b.blocks.contains_key(x) <==> a.blocks.contains_key(x) && !(a.uses.contains_key(x)
                    && use_is_over(b, a.uses[x]))
            &&& forall|x: usize| #[trigger] b.blocks.contains_key(x) ==> b.blocks[x] == a.blocks[x]
            &&& forall|x: usize| #[trigger]
                b.uses.contains_key(x) <==> a.uses.contains_key(x) && !use_is_over(b, a.uses[x])
        }),
{
    assert(a.tree.pending.skip(0) =~= a.tree.pending);
    lemma_memory_from(a, 0);
}

/// Emptying a scope leaves nothing in it, and changes nothing else of it: it is as open or closed
/// as it was, and has the same scopes above and below. Its objects are gone with their memory. A
/// slot of it that a weak handle points at is a zombie with the same count; one that none points
/// at is free. Every other scope, slot, object and block stays as it was.
pub proof fn law_emptying_a_scope<V, H: Copy>(a: RootView<V, H>, n: NodeId)
    requires
        a.wf(),
        a.tree.nodes.contains_key(n),
    ensures
        ({
            let b = a.flushed(n);
            &&& b.wf()
            &&& b.tree.root == a.tree.root && b.tree.pending == a.tree.pending
            &&& b.hooks == a.hooks && b.addr == a.addr && b.strict == a.strict
            &&& forall|m: NodeId| #[trigger]
                b.tree.nodes.contains_key(m) == a.tree.nodes.contains_key(m)
            &&& forall|m: NodeId| #[trigger]
                a.tree.nodes.contains_key(m) && m != n ==> b.tree.nodes[m] == a.tree.nodes[m]
            &&& b.tree.nodes[n] == (NodeView {
                content: b.tree.nodes[n].content,
                ..a.tree.nodes[n]
            })
            &&& b.live(n).len() == 0 && b.objects(n).len() == 0 && b.scope_pools(n).len() == 0
            &&& forall|k: usize| #[trigger]
                b.cells.contains_key(k) <==> a.cells.contains_key(k) && a.cells[k].owner != n
            &&& forall|k: usize| #[trigger] b.cells.contains_key(k) ==> b.cells[k] == a.cells[k]
            &&& forall|q: SlotPtr| #[trigger]
                b.homes.contains_key(q) <==> a.homes.contains_key(q) && a.homes[q] != n
            &&& forall|q: SlotPtr| #[trigger] b.homes.contains_key(q) ==> b.homes[q] == a.homes[q]
            &&& forall|q: SlotPtr| #[trigger]
                in_use(b.pools, q) <==> in_use(a.pools, q) && !(a.homes.contains_key(q)
                    && a.homes[q] == n && a.slot(q).count == 0)
            &&& forall|q: SlotPtr| #[trigger]
                in_use(b.pools, q) ==> b.slot(q) == (if a.homes.contains_key(q) && a.homes[q]
                    == n {
                    SlotView {
                        state: DataState::Zombie,
                        prev_live: SlotPtr::null(),
                        next_live: SlotPtr::null(),
                        ..a.slot(q)
                    }
                } else {
                    a.slot(q)
                })
            &&& forall|x: usize| #[trigger]
                b.blocks.contains_key(x) <==> a.blocks.contains_key(x) && !(a.uses.contains_key(x)
                    && a.uses[x] is Strong && a.uses[x]->Strong_0 == n)
            &&& forall|x: usize| #[trigger] b.blocks.contains_key(x) ==> b.blocks[x] == a.blocks[x]
        }),
{
    lemma_flushed(a, n);
    lemma_live_in_use(a, n);
    lemma_settled_all(a.pools, a.live(n), a.addr);
    let b = a.flushed(n);
    assert forall|q: SlotPtr| #[trigger] in_use(b.pools, q) <==> in_use(a.pools, q) && !(
    a.homes.contains_key(q) && a.homes[q] == n && a.slot(q).count == 0) by {
        assert(a.live(n).contains(q) == (a.homes.contains_key(q) && a.homes[q] == n));
    }
    assert forall|q: SlotPtr| #[trigger] in_use(b.pools, q) implies b.slot(q) == (if a.homes.contains_key(
        q,
    ) && a.homes[q] == n {
        SlotView {
            state: DataState::Zombie,
            prev_live: SlotPtr::null(),
            next_live: SlotPtr::null(),
            ..a.slot(q)
        }
    } else {
        a.slot(q)
    }) by {
        assert(a.live(n).contains(q) == (a.homes.contains_key(q) && a.homes[q] == n));
        assert(in_use(a.pools, q));
    }
}

/// What is destroyed when a scope is emptied is exactly what is in it: each of its objects that
/// has its data, whoever points at it, once, with the record that holds for it. Those with a weak
/// slot come first, in the order of the slots, then the others, in the order in which they were
/// placed.
pub proof fn law_victims_are_the_objects<V, H: Copy>(a: RootView<V, H>, n: NodeId) -> (keys: Seq<
    usize,
>)
    requires
        a.wf(),
        a.tree.nodes.contains_key(n),
    ensures
        keys.no_duplicates(),
        forall|k: usize| #[trigger]
            keys.contains(k) <==> a.cells.contains_key(k) && a.cells[k].owner == n
                && a.cells[k].data is Some,
        a.victims(n).len() == keys.len(),
        forall|i: int|
            0 <= i < keys.len() ==> (#[trigger] a.victims(n)[i]).data == a.cells[keys[i]].data->0
                && a.victims(n)[i].record == a.cells[keys[i]].record,
        forall|x: int, y: int|
            #![trigger keys[x], keys[y]]
            0 <= x < y < keys.len() ==> {
                let p = a.cells[keys[x]].head.weak;
                let q = a.cells[keys[y]].head.weak;
                &&& p == SlotPtr::null() ==> q == SlotPtr::null()
                &&& p != SlotPtr::null() && q != SlotPtr::null() ==> a.live(n).index_of(p) < a.live(
                    n,
                ).index_of(q)
                &&& p == SlotPtr::null() && q == SlotPtr::null() ==> a.objects(n).index_of(
                    ptr(keys[x]),
                ) < a.objects(n).index_of(ptr(keys[y]))
            },
        a.victims(n).len() > 0 <==> exists|k: usize| #[trigger]
            a.cells.contains_key(k) && a.cells[k].owner == n && a.cells[k].data is Some,
{
    let bound = bound_keys(a, a.live(n));
    let direct = direct_keys(a, a.objects(n));
    let keys = bound + direct;
    lemma_live_in_use(a, n);
    lemma_bound_keys(a, n, a.live(n).len() as int);
    lemma_direct_keys(a, n, a.objects(n).len() as int);
    assert(a.live(n).take(a.live(n).len() as int) =~= a.live(n));
    assert(a.objects(n).take(a.objects(n).len() as int) =~= a.objects(n));
    assert forall|k: usize| #[trigger] keys.contains(k) <==> a.cells.contains_key(k)
        && a.cells[k].owner == n && a.cells[k].data is Some by {
        if keys.contains(k) {
            let i = keys.index_of(k);
            if i < bound.len() {
                assert(bound[i] == k);
                assert(bound.contains(k));
            } else {
                assert(direct[i - bound.len()] == k);
                assert(direct.contains(k));
            }
        }
        if a.cells.contains_key(k) && a.cells[k].owner == n && a.cells[k].data is Some {
            assert(a.cell_ok(k));
            let q = a.cells[k].head.weak;
            if q != SlotPtr::null() {
                assert(a.slot_ok(q));
                assert(a.cell_of(q) == a.cells[k]);
                assert(a.live(n).contains(q));
                assert(bound.contains(k));
                let i = bound.index_of(k);
                assert(keys[i] == k);
            } else {
                assert(a.objects(n).contains(ptr(k)));
                assert(direct.contains(key(ptr(k))));
                let i = direct.index_of(k);
                assert(keys[bound.len() + i] == k);
            }
        }
    }
    assert forall|i: int, j: int| 0 <= i < j < keys.len() implies keys[i] != keys[j] by {
        if i < bound.len() && j >= bound.len() {
            assert(bound.contains(bound[i]));
            assert(direct.contains(direct[j - bound.len()]));
        }
    }
    assert forall|x: int, y: int|
        #![trigger keys[x], keys[y]]
        0 <= x < y < keys.len() implies {
        let p = a.cells[keys[x]].head.weak;
        let q = a.cells[keys[y]].head.weak;
        &&& p == SlotPtr::null() ==> q == SlotPtr::null()
        &&& p != SlotPtr::null() && q != SlotPtr::null() ==> a.live(n).index_of(p) < a.live(
            n,
        ).index_of(q)
        &&& p == SlotPtr::null() && q == SlotPtr::null() ==> a.objects(n).index_of(ptr(keys[x]))
            < a.objects(n).index_of(ptr(keys[y]))
    } by {
        if x < bound.len() {
            assert(keys[x] == bound[x]);
            assert(bound.contains(bound[x]));
        } else {
            assert(keys[x] == direct[x - bound.len()]);
            assert(direct.contains(direct[x - bound.len()]));
        }
        if y < bound.len() {
            assert(keys[y] == bound[y]);
            assert(bound.contains(bound[y]));
        } else {
            assert(keys[y] == direct[y - bound.len()]);
            assert(direct.contains(direct[y - bound.len()]));
        }
    }
    if exists|k: usize| #[trigger]
        a.cells.contains_key(k) && a.cells[k].owner == n && a.cells[k].data is Some {
        let k = choose|k: usize| #[trigger]
            a.cells.contains_key(k) && a.cells[k].owner == n && a.cells[k].data is Some;
        assert(keys.contains(k));
    }
    if keys.len() > 0 {
        assert(keys.contains(keys[0]));
    }
    keys
}

/// The keys of the objects whose slots are among `live` and have their data.
spec fn bound_keys<V, H: Copy>(a: RootView<V, H>, live: Seq<SlotPtr>) -> Seq<usize>
    decreases live.len(),
{
    if live.len() == 0 {
        Seq::empty()
    } else if a.slot(live.last()).state.alive() {
        bound_keys(a, live.drop_last()).push(key(a.slot(live.last()).strong))
    } else {
        bound_keys(a, live.drop_last())
    }
}

/// The keys of those of the objects `objects` that have their data, but no weak slot.
spec fn direct_keys<V, H: Copy>(a: RootView<V, H>, objects: Seq<ChunkPtr>) -> Seq<usize>
    decreases objects.len(),
{
    if objects.len() == 0 {
        Seq::empty()
    } else if a.is_direct(key(objects.last())) {
        direct_keys(a, objects.drop_last()).push(key(objects.last()))
    } else {
        direct_keys(a, objects.drop_last())
    }
}

proof fn lemma_bound_keys<V, H: Copy>(a: RootView<V, H>, n: NodeId, m: int)
    requires
        a.wf(),
        a.tree.nodes.contains_key(n),
        0 <= m <= a.live(n).len(),
    ensures
        ({
            let live = a.live(n).take(m);
            let keys = bound_keys(a, live);
            &&& keys.no_duplicates()
            &&& a.bound_victims(live).len() == keys.len()
            &&& forall|i: int|
                0 <= i < keys.len() ==> (#[trigger] a.bound_victims(live)[i]).data
                    == a.cells[keys[i]].data->0 && a.bound_victims(live)[i].record
                    == a.cells[keys[i]].record
            &&& forall|x: int, y: int|
                #![trigger keys[x], keys[y]]
                0 <= x < y < keys.len() ==> a.live(n).index_of(a.cells[keys[x]].head.weak) < a.live(
                    n,
                ).index_of(a.cells[keys[y]].head.weak)
            &&& forall|k: usize| #[trigger]
                keys.contains(k) ==> a.cells.contains_key(k) && a.cells[k].owner == n
                    && a.cells[k].data is Some && live.contains(a.cells[k].head.weak)
                    && a.cells[k].head.weak != SlotPtr::null()
            &&& forall|p: SlotPtr| #[trigger]
                live.contains(p) && a.slot(p).state.alive() ==> keys.contains(
                    key(a.slot(p).strong),
                )
        }),
    decreases m,
{
    let live = a.live(n).take(m);
    let keys = bound_keys(a, live);
    if m > 0 {
        lemma_bound_keys(a, n, m - 1);
        lemma_live_in_use(a, n);
        let p = a.live(n)[m - 1];
        let init = a.live(n).take(m - 1);
        let earlier = bound_keys(a, init);
        assert(live.drop_last() =~= init);
        assert(live.last() == p);
        assert(a.slot_ok(a.live(n)[m - 1]));
        assert(!init.contains(p)) by {
            if init.contains(p) {
                let j = init.index_of(p);
                assert(a.live(n)[j] == a.live(n)[m - 1]);
            }
        }
        assert forall|q: SlotPtr| #[trigger] live.contains(q) <==> init.contains(q) || q == p by {
            if live.contains(q) && q != p {
                let j = live.index_of(q);
                assert(init[j] == q);
            }
            if init.contains(q) {
                let j = init.index_of(q);
                assert(live[j] == q);
            }
            assert(live[m - 1] == p);
        }
        if a.slot(p).state.alive() {
            let k = key(a.slot(p).strong);
            assert(a.cells[k].head.weak == p);
            assert(!earlier.contains(k));
            assert(keys == earlier.push(k));
            assert forall|j: usize| #[trigger] keys.contains(j) <==> earlier.contains(j) || j == k by {
                if keys.contains(j) && j != k {
                    let i = keys.index_of(j);
                    assert(earlier[i] == j);
                }
                if earlier.contains(j) {
                    let i = earlier.index_of(j);
                    assert(keys[i] == j);
                }
                assert(keys[earlier.len() as int] == k);
            }
            assert forall|i: int, j: int| 0 <= i < j < keys.len() implies keys[i] != keys[j] by {
                assert(earlier.contains(earlier[i]));
            }
            assert(a.live(n).contains(p));
            assert(a.live(n).index_of(p) == m - 1);
            assert forall|x: int, y: int|
                #![trigger keys[x], keys[y]]
                0 <= x < y < keys.len() implies a.live(n).index_of(a.cells[keys[x]].head.weak)
                < a.live(n).index_of(a.cells[keys[y]].head.weak) by {
                if y == earlier.len() {
                    assert(earlier.contains(earlier[x]));
                    let q = a.cells[earlier[x]].head.weak;
                    let j = init.index_of(q);
                    assert(a.live(n)[j] == q);
                    assert(a.live(n).contains(q));
                    assert(a.live(n).index_of(q) == j);
                } else {
                    assert(earlier[x] == keys[x] && earlier[y] == keys[y]);
                }
            }
        }
    } else {
        assert(live =~= Seq::empty());
    }
}

proof fn lemma_direct_keys<V, H: Copy>(a: RootView<V, H>, n: NodeId, m: int)
    requires
        a.wf(),
        a.tree.nodes.contains_key(n),
        0 <= m <= a.objects(n).len(),
    ensures
        ({
            let objects = a.objects(n).take(m);
            let keys = direct_keys(a, objects);
            &&& keys.no_duplicates()
            &&& a.direct_victims(objects).len() == keys.len()
            &&& forall|i: int|
                0 <= i < keys.len() ==> (#[trigger] a.direct_victims(objects)[i]).data
                    == a.cells[keys[i]].data->0 && a.direct_victims(objects)[i].record
                    == a.cells[keys[i]].record
            &&& forall|x: int, y: int|
                #![trigger keys[x], keys[y]]
                0 <= x < y < keys.len() ==> a.objects(n).index_of(ptr(keys[x])) < a.objects(
                    n,
                ).index_of(ptr(keys[y]))
            &&& forall|k: usize| #[trigger]
                keys.contains(k) ==> a.cells.contains_key(k) && a.cells[k].owner == n
                    && a.cells[k].data is Some && a.cells[k].head.weak == SlotPtr::null()
                    && objects.contains(ptr(k))
            &&& forall|c: ChunkPtr|
                #![trigger key(c)]
                objects.contains(c) && a.is_direct(key(c)) ==> keys.contains(key(c))
        }),
    decreases m,
{
    let objects = a.objects(n).take(m);
    let keys = direct_keys(a, objects);
    if m > 0 {
        lemma_direct_keys(a, n, m - 1);
        let c = a.objects(n)[m - 1];
        let k = key(c);
        let init = a.objects(n).take(m - 1);
        let earlier = direct_keys(a, init);
        assert(objects.drop_last() =~= init);
        assert(objects.last() == c);
        assert(a.object_at(n, m - 1));
        assert(ptr(k) == c);
        assert(!init.contains(c)) by {
            if init.contains(c) {
                let j = init.index_of(c);
                assert(a.objects(n)[j] == a.objects(n)[m - 1]);
            }
        }
        assert forall|d: ChunkPtr| #[trigger] objects.contains(d) <==> init.contains(d) || d
            == c by {
            if objects.contains(d) && d != c {
                let j = objects.index_of(d);
                assert(init[j] == d);
            }
            if init.contains(d) {
                let j = init.index_of(d);
                assert(objects[j] == d);
            }
            assert(objects[m - 1] == c);
        }
        if a.is_direct(k) {
            assert(!earlier.contains(k));
            assert(keys == earlier.push(k));
            assert forall|j: usize| #[trigger] keys.contains(j) <==> earlier.contains(j) || j == k by {
                if keys.contains(j) && j != k {
                    let i = keys.index_of(j);
                    assert(earlier[i] == j);
                }
                if earlier.contains(j) {
                    let i = earlier.index_of(j);
                    assert(keys[i] == j);
                }
                assert(keys[earlier.len() as int] == k);
            }
            assert forall|i: int, j: int| 0 <= i < j < keys.len() implies keys[i] != keys[j] by {
                assert(earlier.contains(earlier[i]));
            }
            assert(a.objects(n).contains(c));
            assert(a.objects(n).index_of(c) == m - 1);
            assert forall|x: int, y: int|
                #![trigger keys[x], keys[y]]
                0 <= x < y < keys.len() implies a.objects(n).index_of(ptr(keys[x])) < a.objects(
                n,
            ).index_of(ptr(keys[y])) by {
                if y == earlier.len() {
                    assert(earlier.contains(earlier[x]));
                    let d = ptr(earlier[x]);
                    let j = init.index_of(d);
                    assert(a.objects(n)[j] == d);
                    assert(a.objects(n).contains(d));
                    assert(a.objects(n).index_of(d) == j);
                } else {
                    assert(earlier[x] == keys[x] && earlier[y] == keys[y]);
                }
            }
        }
    } else {
        assert(objects =~= Seq::empty());
    }
}

proof fn lemma_reclaim_keys<V, H: Copy>(a: RootView<V, H>, i: int) -> (keys: Seq<usize>)
    requires
        a.wf(),
        0 <= i <= a.tree.pending.len(),
    ensures
        ({
            let line = a.tree.pending.skip(i);
            let b = a.reclaimed_along(line);
            let victims = a.victims_along(line);
            &&& keys.no_duplicates()
            &&& forall|k: usize| #[trigger]
                keys.contains(k) <==> a.cells.contains_key(k) && a.cells[k].data is Some
                    && !b.tree.nodes.contains_key(a.cells[k].owner)
            &&& victims.len() == keys.len()
            &&& forall|j: int|
                0 <= j < keys.len() ==> (#[trigger] victims[j]).data == a.cells[keys[j]].data->0
                    && victims[j].record == a.cells[keys[j]].record
        }),
    decreases a.tree.pending.len() - i,
{
    let all = a.tree.pending;
    let line = all.skip(i);
    let b = a.reclaimed_along(line);
    lemma_reclaim_from(a, i);
    if line.len() == 0 {
        let keys = Seq::<usize>::empty();
        assert forall|k: usize| #[trigger] keys.contains(k) <==> a.cells.contains_key(k)
            && a.cells[k].data is Some && !b.tree.nodes.contains_key(a.cells[k].owner) by {
            if a.cells.contains_key(k) {
                assert(a.cell_ok(k));
            }
        }
        keys
    } else {
        let n = line[0];
        let rest = line.skip(1);
        assert(n == all[i]);
        assert(rest =~= all.skip(i + 1));
        assert(a.tree.nodes.contains_key(all[i]));
        if a.is_reclaimable(n) {
            let c = a.without_scope(n);
            law_scope_taken_out(a, i);
            assert(c.tree.pending.skip(i) =~= rest);
            lemma_reclaim_from(c, i);
            let first = law_victims_are_the_objects(a, n);
            let more = lemma_reclaim_keys(c, i);
            let keys = first + more;
            assert(!b.tree.nodes.contains_key(n));
            assert forall|k: usize| #[trigger] c.cells.contains_key(k) <==> a.cells.contains_key(k)
                && a.cells[k].owner != n by {}
            assert forall|k: usize| #[trigger] keys.contains(k) <==> first.contains(k)
                || more.contains(k) by {
                if keys.contains(k) {
                    let j = keys.index_of(k);
                    if j < first.len() {
                        assert(first[j] == k);
                    } else {
                        assert(more[j - first.len()] == k);
                    }
                }
                if first.contains(k) {
                    let j = first.index_of(k);
                    assert(keys[j] == k);
                }
                if more.contains(k) {
                    let j = more.index_of(k);
                    assert(keys[first.len() + j] == k);
                }
            }
            assert forall|x: int, y: int| 0 <= x < y < keys.len() implies keys[x] != keys[y] by {
                if x < first.len() && y >= first.len() {
                    assert(first.contains(first[x]));
                    assert(more.contains(more[y - first.len()]));
                }
            }
            let victims = a.victims_along(line);
            let behind = c.victims_along(rest);
            assert(victims == a.victims(n) + behind);
            assert forall|j: int| 0 <= j < keys.len() implies (#[trigger] victims[j]).data
                == a.cells[keys[j]].data->0 && victims[j].record == a.cells[keys[j]].record by {
                if j < first.len() {
                    assert(victims[j] == a.victims(n)[j]);
                } else {
                    assert(victims[j] == behind[j - first.len()]);
                    assert(more.contains(more[j - first.len()]));
                }
            }
            keys
        } else {
            lemma_reclaim_keys(a, i + 1)
        }
    }
}

/// What is destroyed when scopes are reclaimed is exactly what was left in them: each of their
/// objects that has its data, once, with the record that holds for it.
pub proof fn law_reclaimed_objects_are_handed_out<V, H: Copy>(a: RootView<V, H>) -> (keys: Seq<usize>)
    requires
        a.wf(),
    ensures
        keys.no_duplicates(),
        forall|k: usize| #[trigger]
            keys.contains(k) <==> a.cells.contains_key(k) && a.cells[k].data is Some
                && !a.reclaimed().tree.nodes.contains_key(a.cells[k].owner),
        a.reclaim_victims().len() == keys.len(),
        forall|j: int|
            0 <= j < keys.len() ==> (#[trigger] a.reclaim_victims()[j]).data
                == a.cells[keys[j]].data->0 && a.reclaim_victims()[j].record
                == a.cells[keys[j]].record,
{
    assert(a.tree.pending.skip(0) =~= a.tree.pending);
    lemma_reclaim_keys(a, 0)
}

/// A scope that was just opened is open, empty and has its handle; it is the youngest below its
/// parent. It may be used exactly where its parent may. Nothing else changes.
pub proof fn law_opening_a_scope<V, H: Copy>(
    a: RootView<V, H>,
    parent: NodeId,
    c: NodeId,
    addr: usize,
)
    requires
        a.wf(),
        a.tree.nodes.contains_key(parent),
        !a.tree.nodes.contains_key(c),
    ensures
        ({
            let b = a.with_child(parent, c, addr);
            let node = b.tree.nodes[c];
            &&& b.tree.nodes.contains_key(c)
            &&& !node.closed && !node.dropped && node.parent == Some(parent)
            &&& node.children.len() == 0 && node.addr == addr
            &&& b.live(c).len() == 0 && b.objects(c).len() == 0 && b.scope_pools(c).len() == 0
            &&& b.tree.nodes[parent] == (NodeView {
                children: a.tree.nodes[parent].children.push(c),
                ..a.tree.nodes[parent]
            })
            &&& forall|m: NodeId| #[trigger]
                b.tree.nodes.contains_key(m) <==> a.tree.nodes.contains_key(m) || m == c
            &&& forall|m: NodeId| #[trigger]
                a.tree.nodes.contains_key(m) && m != parent ==> b.tree.nodes[m] == a.tree.nodes[m]
            &&& b.tree.root == a.tree.root && b.tree.pending == a.tree.pending
            &&& b.pools == a.pools && b.cells == a.cells && b.homes == a.homes
            &&& b.hooks == a.hooks && b.addr == a.addr && b.strict == a.strict
            &&& b.blocks == a.blocks.insert(addr, node_layout())
            &&& closed_above(b.tree.nodes, c) == closed_above(a.tree.nodes, parent)
            &&& forall|m: NodeId| #[trigger]
                a.tree.nodes.contains_key(m) ==> closed_above(b.tree.nodes, m) == closed_above(
                    a.tree.nodes,
                    m,
                )
        }),
{
    let b = a.with_child(parent, c, addr);
    assert forall|m: NodeId| #[trigger] a.tree.nodes.contains_key(m) implies closed_above(
        b.tree.nodes,
        m,
    ) == closed_above(a.tree.nodes, m) by {
        lemma_opening_keeps_above(a, parent, c, addr, m);
    }
}

proof fn lemma_opening_keeps_above<V, H: Copy>(
    a: RootView<V, H>,
    parent: NodeId,
    c: NodeId,
    addr: usize,
    m: NodeId,
)
    requires
        a.wf(),
        a.tree.nodes.contains_key(parent),
        !a.tree.nodes.contains_key(c),
        a.tree.nodes.contains_key(m),
    ensures
        closed_above(a.with_child(parent, c, addr).tree.nodes, m) == closed_above(a.tree.nodes, m),
    decreases a.tree.nodes[m].stamp,
{
    lemma_parent_is_older(a.tree.nodes, a.tree.clock, m);
    if let Some(p) = a.tree.nodes[m].parent {
        lemma_opening_keeps_above(a, parent, c, addr, p);
    }
}

/// A tree that was just made has an open root and no other scope, no object, no hook and no
/// handle; all of its weak slots are free.
pub proof fn law_making_a_tree<V, H: Copy>(
    root: NodeId,
    addr: usize,
    pool: usize,
    count: PoolIndex,
    blocks: Map<usize, Layout>,
    strict: bool,
)
    ensures
        ({
            let s = fresh_root::<V, H>(root, addr, pool, count, blocks, strict);
            &&& s.tree.root == root && s.tree.pending.len() == 0
            &&& forall|m: NodeId| #[trigger] s.tree.nodes.contains_key(m) <==> m == root
            &&& !s.tree.nodes[root].closed && !s.tree.nodes[root].dropped
            &&& s.tree.nodes[root].children.len() == 0
            &&& s.pools.len() == 1 && s.pools[0].slots.len() == count
            &&& s.pools[0].free.len() == count
            &&& forall|p: SlotPtr| !#[trigger] in_use(s.pools, p)
            &&& forall|k: usize| !#[trigger] s.cells.contains_key(k)
            &&& forall|p: SlotPtr| !#[trigger] s.homes.contains_key(p)
            &&& forall|t: ConstTypeId| !#[trigger] s.hooks.contains_key(t)
            &&& s.addr == addr && s.strict == strict
            &&& s.blocks == blocks.insert(addr, root_layout()).insert(pool, pool_layout(count))
        }),
{
    let s = fresh_root::<V, H>(root, addr, pool, count, blocks, strict);
    assert forall|p: SlotPtr| !#[trigger] in_use(s.pools, p) by {
        if p.pool() == 0 && p.index() < count {
            assert(s.pools[0].free[p.index()] == p.index());
            assert(s.pools[0].free.contains(p.index() as PoolIndex));
        }
    }
}

/// The record that holds for an object is its own, else the one that its type was given in this
/// tree, else that of a type without a hook.
pub proof fn law_record_in_force<T: ?Sized, V, H: Copy>(
    s: RootView<V, H>,
    object_level: Option<PreDropRecord<H>>,
    hook: H,
)
    ensures
        ({
            let r = record_for::<T, V, H>(s, object_level);
            let own = s.hooks.contains_key(type_key::<T>());
            &&& object_level matches Some(record) ==> r == record
            &&& object_level is None && own ==> r == s.hooks[type_key::<T>()]
            &&& object_level is None && !own ==> r.hook_ is None && r.drops_ == drop_matters::<T>()
            &&& PreDropRecord::hooked(hook).hook_ == Some(hook)
            &&& PreDropRecord::hooked(hook).drops_
        }),
{
}

/// Reading gives back what a single owner placed: the value that was made, with the record that
/// holds for it, in the scope that it was placed in, with no weak slot. No slot and no other
/// object changes, nor any other scope, nor anything of the scope but what is in it.
pub proof fn law_placed_then_read<V: TrCarry<E::Target>, H: Copy, A: TrAllocator, E: TrEmplace>(
    ready: RootView<V, H>,
    memory: A,
    after: RootView<V, H>,
    left: A,
    n: NodeId,
    emplace: E,
    c: ChunkPtr,
)
    requires
        ready.wf(),
        ready.tree.nodes.contains_key(n),
        direct_done(ready, memory, after, left, n, emplace, Some(c)),
    ensures
        ({
            let cell = after.cells[key(c)];
            &&& !ready.cells.contains_key(key(c))
            &&& after.cells.contains_key(key(c))
            &&& exists|data: E::Target|
                emplace.places(data) && cell.data == Some(#[trigger] V::carrying(data))
                    && V::carrying(data).carried() == Some(data)
            &&& cell.record == record_for::<E::Target, V, H>(ready, None)
            &&& cell.owner == n && cell.head.weak == SlotPtr::null() && cell.head.count == 0
            &&& forall|k: usize| #[trigger]
                after.cells.contains_key(k) <==> ready.cells.contains_key(k) || k == key(c)
            &&& forall|k: usize|
                ready.cells.contains_key(k) ==> #[trigger] after.cells[k] == ready.cells[k]
            &&& after.pools == ready.pools && after.homes == ready.homes
            &&& after.hooks == ready.hooks && after.strict == ready.strict
            &&& after.tree.root == ready.tree.root && after.tree.pending == ready.tree.pending
            &&& forall|m: NodeId| #[trigger]
                after.tree.nodes.contains_key(m) == ready.tree.nodes.contains_key(m)
            &&& forall|m: NodeId| #[trigger]
                ready.tree.nodes.contains_key(m) && m != n ==> after.tree.nodes[m]
                    == ready.tree.nodes[m]
            &&& after.tree.nodes[n] == (NodeView {
                content: after.tree.nodes[n].content,
                ..ready.tree.nodes[n]
            })
            &&& after.live(n) == ready.live(n)
            &&& after.objects(n) == ready.objects(n).push(c)
        }),
{
    let data = choose|data: E::Target| #[trigger]
        direct_as(ready, memory, after, n, emplace, c, data);
    assert(direct_as(ready, memory, after, n, emplace, c, data));
    assert(c != ChunkPtr::null());
    assert(ptr(key(c)) == c);
    assert(after.cells[key(c)].data == Some(V::carrying(data)));
}

/// An owner that asks for a weak handle goes on owning: the object gets a slot with one weak
/// handle, and keeps its data and its record. No other slot and no other object changes.
pub proof fn law_owner_gets_a_weak_handle<V, H: Copy>(
    a: RootView<V, H>,
    addr: usize,
    k: usize,
    meta: usize,
)
    requires
        a.wf(),
        a.cells.contains_key(k),
        a.cells[k].data is Some,
        a.cells[k].head.weak == SlotPtr::null(),
        k < usize::MAX,
    ensures
        ({
            let p = a.slot_to_take();
            let b = a.with_slot_taken(addr).with_adopted(p, k, DataState::Owning, meta);
            &&& !in_use(a.pools, p)
            &&& b.slot(p).state == DataState::Owning && b.slot(p).count == 1
            &&& b.slot(p).strong == ptr(k) && b.slot(p).meta == meta
            &&& b.homes == a.homes.insert(p, a.cells[k].owner)
            &&& b.cells[k].data == a.cells[k].data && b.cells[k].record == a.cells[k].record
            &&& b.cells[k].head.weak == p && b.cells[k].owner == a.cells[k].owner
            &&& forall|j: usize| #[trigger] b.cells.contains_key(j) == a.cells.contains_key(j)
            &&& forall|j: usize|
                j != k && a.cells.contains_key(j) ==> #[trigger] b.cells[j] == a.cells[j]
            &&& forall|q: SlotPtr| #[trigger]
                in_use(a.pools, q) ==> in_use(b.pools, q) && b.slot(q) == (SlotView {
                    next_live: b.slot(q).next_live,
                    ..a.slot(q)
                })
            &&& b.hooks == a.hooks && b.strict == a.strict && b.tree.root == a.tree.root
            &&& forall|m: NodeId| #[trigger]
                a.tree.nodes.contains_key(m) && m != a.cells[k].owner ==> b.tree.nodes[m]
                    == a.tree.nodes[m]
            &&& b.live(a.cells[k].owner) == a.live(a.cells[k].owner).push(p)
            &&& b.objects(a.cells[k].owner) == a.objects(a.cells[k].owner)
        }),
{
    let p = a.slot_to_take();
    let t = a.with_slot_taken(addr);
    let n = a.cells[k].owner;
    let live = a.live(n);
    let b = t.with_adopted(p, k, DataState::Owning, meta);
    assert(a.cell_ok(k));
    law_slots_in_use_are_not_handed_out(a);
    lemma_taken_in_range(a, addr);
    lemma_live_in_use(a, n);
    let s = t.adopted_slot(live, p, k, DataState::Owning, meta);
    let mid = t.chained(live, p);
    assert(b.pools == with_slot(mid, p, s));
    if live.len() > 0 {
        let last = live[live.len() - 1];
        assert(in_use(a.pools, last));
        lemma_taken_keeps(a, addr, last);
    }
    assert(mid.len() == t.pools.len());
    assert(mid[p.pool()].slots.len() == t.pools[p.pool()].slots.len());
    assert(b.slot(p) == s);
    assert forall|q: SlotPtr| #[trigger] in_use(a.pools, q) implies in_use(b.pools, q) && b.slot(q)
        == (SlotView { next_live: b.slot(q).next_live, ..a.slot(q) }) by {
        lemma_slot_after_put(a, addr, n, s, q);
    }
}

/// A scope in which nothing changed but that is still there is held by what held it before.
proof fn lemma_still_held<V, H: Copy>(a: RootView<V, H>, b: RootView<V, H>, n: NodeId)
    requires
        none_forgotten(a),
        !a.tree.nodes[n].dropped,
        forall|m: NodeId| #[trigger]
            b.tree.nodes.contains_key(m) ==> a.tree.nodes.contains_key(m) && b.tree.nodes[m]
                == (NodeView { content: b.tree.nodes[m].content, ..a.tree.nodes[m] }),
        forall|m: NodeId| #[trigger]
            b.tree.nodes.contains_key(m) && m != n ==> b.live(m) == a.live(m) && forall|i: int|
                0 <= i < a.live(m).len() ==> #[trigger] b.slot(b.live(m)[i]) == a.slot(
                    a.live(m)[i],
                ),
    ensures
        none_forgotten(b),
{
    assert forall|m: NodeId| #[trigger]
        b.tree.nodes.contains_key(m) && b.tree.nodes[m].closed && b.tree.nodes[m].dropped
            && b.tree.nodes[m].children.len() == 0 implies exists|i: int|
        0 <= i < b.live(m).len() && ((#[trigger] b.slot(b.live(m)[i])).state == DataState::Created
            || b.slot(b.live(m)[i]).state == DataState::Owning || b.slot(b.live(m)[i]).state
            == DataState::Sharing) by {
        assert(m != n);
        let i = choose|i: int|
            0 <= i < a.live(m).len() && ((#[trigger] a.slot(a.live(m)[i])).state
                == DataState::Created || a.slot(a.live(m)[i]).state == DataState::Owning || a.slot(
                a.live(m)[i],
            ).state == DataState::Sharing);
        assert(b.slot(b.live(m)[i]) == a.slot(a.live(m)[i]));
    }
}

/// Putting an object reclaims first: afterwards no scope is left that nothing holds, whether there
/// was room for the object or not.
pub proof fn law_put_leaves_none_forgotten<V: TrCarry<E::Target>, H: Copy, A: TrAllocator, E: TrEmplace>(
    ready: RootView<V, H>,
    memory: A,
    after: RootView<V, H>,
    left: A,
    n: NodeId,
    emplace: E,
    object_level: Option<PreDropRecord<H>>,
    r: Option<SlotPtr>,
)
    requires
        ready.wf(),
        none_forgotten(ready),
        ready.tree.nodes.contains_key(n),
        !ready.tree.nodes[n].dropped,
        after.wf(),
        put_done(ready, memory, after, left, n, emplace, object_level, r),
    ensures
        none_forgotten(after),
{
    match r {
        Some(p) => {
            law_put_keeps_others(ready, memory, after, left, n, emplace, object_level, p);
            let (k, data) = choose|k: usize, data: E::Target| #[trigger]
                put_as(ready, memory, after, n, emplace, object_level, k, data);
            assert(after.tree.nodes.dom() =~= ready.tree.nodes.dom());
            assert forall|m: NodeId| #[trigger]
                after.tree.nodes.contains_key(m) implies ready.tree.nodes.contains_key(m)
                && after.tree.nodes[m] == (NodeView {
                content: after.tree.nodes[m].content,
                ..ready.tree.nodes[m]
            }) by {
                assert(ready.tree.nodes.contains_key(m));
                if m != n {
                    assert(same_scope(ready, after, m));
                }
            }
            assert forall|m: NodeId| #[trigger]
                after.tree.nodes.contains_key(m) && m != n implies after.live(m) == ready.live(m)
                && forall|i: int|
                0 <= i < ready.live(m).len() ==> #[trigger] after.slot(after.live(m)[i])
                    == ready.slot(ready.live(m)[i]) by {
                assert(ready.tree.nodes.contains_key(m));
                assert(same_scope(ready, after, m));
                assert forall|i: int| 0 <= i < ready.live(m).len() implies #[trigger] after.slot(
                    after.live(m)[i],
                ) == ready.slot(ready.live(m)[i]) by {
                    assert(ready.live_at(m, i));
                    assert(after.homes.contains_key(ready.live(m)[i]));
                }
            }
            lemma_still_held(ready, after, n);
        },
        None => {
            assert forall|m: NodeId| #[trigger]
                after.tree.nodes.contains_key(m) && m != n implies after.live(m) == ready.live(m)
                && forall|i: int|
                0 <= i < ready.live(m).len() ==> #[trigger] after.slot(after.live(m)[i])
                    == ready.slot(ready.live(m)[i]) by {
                assert forall|i: int| 0 <= i < ready.live(m).len() implies #[trigger] after.slot(
                    after.live(m)[i],
                ) == ready.slot(ready.live(m)[i]) by {
                    assert(ready.live_at(m, i));
                    assert(ready.slot_ok(ready.live(m)[i]));
                }
            }
            lemma_still_held(ready, after, n);
        },
    }
}

/// So does placing an object for a single owner.
pub proof fn law_placing_leaves_none_forgotten<
    V: TrCarry<E::Target>,
    H: Copy,
    A: TrAllocator,
    E: TrEmplace,
>(
    ready: RootView<V, H>,
    memory: A,
    after: RootView<V, H>,
    left: A,
    n: NodeId,
    emplace: E,
    r: Option<ChunkPtr>,
)
    requires
        ready.wf(),
        none_forgotten(ready),
        ready.tree.nodes.contains_key(n),
        !ready.tree.nodes[n].dropped,
        direct_done(ready, memory, after, left, n, emplace, r),
    ensures
        none_forgotten(after),
{
    if let Some(c) = r {
        law_placed_then_read(ready, memory, after, left, n, emplace, c);
        assert forall|m: NodeId| #[trigger]
            after.tree.nodes.contains_key(m) implies ready.tree.nodes.contains_key(m)
            && after.tree.nodes[m] == (NodeView {
            content: after.tree.nodes[m].content,
            ..ready.tree.nodes[m]
        }) by {
            assert(ready.tree.nodes.contains_key(m));
        }
        assert forall|m: NodeId| #[trigger]
            after.tree.nodes.contains_key(m) && m != n implies after.live(m) == ready.live(m)
            && forall|i: int|
            0 <= i < ready.live(m).len() ==> #[trigger] after.slot(after.live(m)[i]) == ready.slot(
                ready.live(m)[i],
            ) by {
            assert(ready.tree.nodes.contains_key(m));
        }
        lemma_still_held(ready, after, n);
    }
}

/// A weak slot that is handed out was free, has nothing in it and belongs to no object; a new pool
/// is put behind the others exactly where the last one has none. Every slot in use stays.
pub proof fn law_taking_a_slot<V, H: Copy, A: TrAllocator>(
    a: RootView<V, H>,
    memory: A,
    addr: usize,
    q: SlotPtr,
)
    requires
        a.wf(),
    ensures
        ({
            let p = a.slot_to_take();
            let b = a.with_slot_taken(addr);
            let full = a.pools.last().free.len() == 0;
            &&& !in_use(a.pools, p) && p != SlotPtr::null()
            &&& b.slot(p).state == DataState::Reclaimed && b.slot(p).count == 0
            &&& b.slot(p).strong == ChunkPtr::null() && !b.slot(p).locked
            &&& in_use(a.pools, q) ==> in_use(b.pools, q) && b.slot(q) == a.slot(q)
            &&& b.tree == a.tree && b.cells == a.cells && b.homes == a.homes && b.hooks == a.hooks
            &&& b.pools.len() == (if full {
                a.pools.len() + 1
            } else {
                a.pools.len()
            })
            &&& b.blocks == (if full {
                a.blocks.insert(addr, pool_layout(DEFAULT_SLOT_COUNT))
            } else {
                a.blocks
            })
            &&& a.finds_slot(memory) <==> !full || memory.grants(
                pool_layout(DEFAULT_SLOT_COUNT),
            ) is Some
            &&& a.after_slot(memory) == (if full {
                memory.asked(pool_layout(DEFAULT_SLOT_COUNT))
            } else {
                memory
            })
            &&& pool_layout(DEFAULT_SLOT_COUNT).size == 16_368
        }),
{
    law_slots_in_use_are_not_handed_out(a);
    lemma_pools_are_few(a);
    let b = a.with_slot_taken(addr);
    if a.pools.last().free.len() > 0 {
        let pool = a.pools[a.pools.len() - 1];
        assert(pool.wf());
        assert(free_at(pool.slots, pool.free, 0));
        law_slot_positions(a.pools.len() - 1, pool.free[0] as int);
    } else {
        law_slot_positions(a.pools.len() as int, 0);
        assert(b.pools.last().slots[0].state == DataState::Reclaimed);
    }
    if in_use(a.pools, q) {
        lemma_taken_keeps(a, addr, q);
    }
}

/// Placing a block changes the pools of its scope and nothing else; a block of memory comes with a
/// new pool, and only then.
pub proof fn law_placing_changes_only_the_pools<V, H: Copy>(
    a: RootView<V, H>,
    n: NodeId,
    layout: Layout,
    grant: Option<usize>,
)
    requires
        a.tree.nodes.contains_key(n),
    ensures
        ({
            let b = a.with_block(n, layout, grant);
            let opened = b.scope_pools(n).len() > a.scope_pools(n).len();
            &&& b.pools == a.pools && b.cells == a.cells && b.homes == a.homes
            &&& b.hooks == a.hooks && b.addr == a.addr && b.strict == a.strict
            &&& b.tree.root == a.tree.root && b.tree.pending == a.tree.pending
            &&& forall|m: NodeId| #[trigger]
                b.tree.nodes.contains_key(m) == a.tree.nodes.contains_key(m)
            &&& forall|m: NodeId| #[trigger]
                a.tree.nodes.contains_key(m) && m != n ==> b.tree.nodes[m] == a.tree.nodes[m]
            &&& b.live(n) == a.live(n) && b.objects(n) == a.objects(n)
            &&& b.tree.nodes[n] == (NodeView {
                content: b.tree.nodes[n].content,
                ..a.tree.nodes[n]
            })
            &&& !opened ==> b.blocks == a.blocks
            &&& opened ==> grant is Some && b.blocks == a.blocks.insert(
                grant->0,
                ScopePool::layout_spec(b.scope_pools(n).last().cell_count_),
            )
        }),
{
}

/// The scopes that wait go on waiting in their order when the handle of another goes; behind them
/// come those that it closes, and these alone: each after all that are below it, and of two that
/// are directly below the same scope the younger first.
pub proof fn law_those_who_wait_keep_their_order<V, H: Copy>(a: RootView<V, H>, n: NodeId)
    requires
        a.wf(),
        a.tree.nodes.contains_key(n),
        n != a.tree.root,
    ensures
        ({
            let b = a.let_go(n);
            let k = a.tree.pending.len() as int;
            &&& b.tree.pending.len() >= k
            &&& b.tree.pending.take(k) == a.tree.pending
            &&& b.tree.pending.no_duplicates()
            &&& children_first(a.tree.nodes, b.tree.pending.skip(k))
            &&& youngest_first(a.tree.nodes, b.tree.pending.skip(k))
            &&& forall|m: NodeId| #[trigger]
                b.tree.pending.contains(m) <==> a.tree.nodes.contains_key(m) && (
                a.tree.nodes[m].closed || (!a.tree.nodes[n].closed && below(a.tree.nodes, n, m)))
        }),
{
    let b = a.let_go(n);
    lemma_let_go(a, n);
    law_letting_go_closes_only_below(a, n);
    assert(b.tree.pending.take(a.tree.pending.len() as int) =~= a.tree.pending);
    let added = b.tree.pending.skip(a.tree.pending.len() as int);
    let t = a.tree.with_dropped(n);
    lemma_tree_kept(a.tree, n, NodeView { dropped: true, ..a.tree.nodes[n] });
    if a.tree.nodes[n].closed {
        assert(added =~= Seq::empty());
    } else {
        assert(added =~= close_order(t.nodes, t.clock, n));
        law_close_order_children_first(t.nodes, t.clock, n);
        law_close_order_youngest_first(t.nodes, t.clock, n);
        assert forall|i: int, j: int|
            0 <= i < added.len() && 0 <= j < added.len() && #[trigger] younger(
                a.tree.nodes,
                added[i],
                added[j],
            ) implies j < i by {
            let (p, x, y) = choose|p: NodeId, x: int, y: int|
                {
                    &&& a.tree.nodes.contains_key(p)
                    &&& 0 <= x < y < a.tree.nodes[p].children.len()
                    &&& #[trigger] a.tree.nodes[p].children[x] == added[i]
                    &&& #[trigger] a.tree.nodes[p].children[y] == added[j]
                };
            assert(t.nodes[p].children[x] == added[i] && t.nodes[p].children[y] == added[j]);
            assert(younger(t.nodes, added[i], added[j]));
        }
        assert forall|i: int, j: int|
            0 <= i < added.len() && 0 <= j < added.len() && a.tree.nodes[#[trigger] added[i]].parent
                == Some(#[trigger] added[j]) implies i < j by {
            assert(t.nodes[added[i]].parent == a.tree.nodes[added[i]].parent);
        }
    }
    assert forall|m: NodeId| #[trigger] b.tree.pending.contains(m) <==> a.tree.nodes.contains_key(m)
        && (a.tree.nodes[m].closed || (!a.tree.nodes[n].closed && below(a.tree.nodes, n, m))) by {
        if b.tree.pending.contains(m) {
            let i = b.tree.pending.index_of(m);
            assert(b.tree.nodes.contains_key(b.tree.pending[i]));
        }
        if a.tree.nodes.contains_key(m) {
            assert(b.tree.nodes.contains_key(m));
        }
    }
}

/// A put that finds no room leaves every scope, object, handle and hook as it was; at most a pool
/// of weak slots is there that was not there before.
pub proof fn law_refused_put_changes_nothing<
    V: TrCarry<E::Target>,
    H: Copy,
    A: TrAllocator,
    E: TrEmplace,
>(
    ready: RootView<V, H>,
    memory: A,
    after: RootView<V, H>,
    left: A,
    n: NodeId,
    emplace: E,
    object_level: Option<PreDropRecord<H>>,
    q: SlotPtr,
)
    requires
        ready.wf(),
        put_done(ready, memory, after, left, n, emplace, object_level, None),
    ensures
        after.tree == ready.tree && after.cells == ready.cells && after.homes == ready.homes,
        after.hooks == ready.hooks && after.strict == ready.strict && after.addr == ready.addr,
        in_use(ready.pools, q) ==> in_use(after.pools, q) && after.slot(q) == ready.slot(q),
        ready.pools.len() <= after.pools.len() <= ready.pools.len() + 1,
        ready.pools.last().free.len() > 0 ==> after == ready,
        !ready.finds_room(memory, n, emplace.layout()),
{
}

} // verus!
