//! What holds of a tree of scopes across its operations.

use vstd::prelude::*;

use crate::mem_::apart;
use crate::ptr_::{ChunkPtr, SlotPtr};
use crate::weak_::chain_::{in_use, lemma_taken_chain};
use crate::weak_::chunk_::{owning_result, sharing_result, DataState};
use crate::weak_::pool_::pool_layout;

use super::node_::{NodeId, NodeView, ScopePool};
use super::order_::{below, lemma_below_same, lemma_closed_below_wf};
use super::reclaim_::{lemma_taken_out, lemma_without_at};
use super::state_::{key, lemma_tree_changed, ptr, BlockUse, RootView};
use super::teardown_::{lemma_flushed, lemma_live_in_use, lemma_settled_all, Victim};
use super::tree_::{lemma_tree_kept, lemma_without_node_wf};

verus! {

/// Whether the scope `n` and all that is in it are the same in `a` and in `b`.
pub open spec fn same_scope<V, H: Copy>(a: RootView<V, H>, b: RootView<V, H>, n: NodeId) -> bool {
    &&& b.tree.nodes.contains_key(n)
    &&& b.tree.nodes[n] == a.tree.nodes[n]
    &&& forall|p: SlotPtr|
        a.homes.contains_key(p) && a.homes[p] == n ==> #[trigger] b.homes.contains_key(p)
            && b.homes[p] == n && in_use(b.pools, p) && b.slot(p) == a.slot(p)
    &&& forall|k: usize|
        a.cells.contains_key(k) && a.cells[k].owner == n ==> #[trigger] b.cells.contains_key(k)
            && b.cells[k] == a.cells[k]
}

/// Whether every weak handle of `a` is one of `b`, too.
pub open spec fn same_handles<V, H: Copy>(a: RootView<V, H>, b: RootView<V, H>) -> bool {
    forall|p: SlotPtr| #[trigger]
        a.holds_weak(p) ==> b.holds_weak(p) && b.slot(p).count == a.slot(p).count
}

/// Whether the slots that belong to no object of a scope are the same in `a` and in `b`.
pub open spec fn same_strays<V, H: Copy>(a: RootView<V, H>, b: RootView<V, H>) -> bool {
    forall|p: SlotPtr| #[trigger]
        in_use(a.pools, p) && !a.homes.contains_key(p) ==> in_use(b.pools, p)
            && !b.homes.contains_key(p) && b.slot(p) == a.slot(p)
}

/// No two blocks of a tree share a byte: neither the pools that objects are placed in, of one
/// scope or of several, nor the pools of weak slots.
pub proof fn law_pools_never_overlap<V, H: Copy>(a: RootView<V, H>)
    requires
        a.wf(),
    ensures
        forall|n: NodeId, i: int, m: NodeId, j: int|
            #![trigger a.scope_pools(n)[i], a.scope_pools(m)[j]]
            a.tree.nodes.contains_key(n) && a.tree.nodes.contains_key(m) && 0 <= i < a.scope_pools(
                n,
            ).len() && 0 <= j < a.scope_pools(m).len() && (n != m || i != j) ==> apart(
                a.scope_pools(n)[i].addr_,
                ScopePool::layout_spec(a.scope_pools(n)[i].cell_count_),
                a.scope_pools(m)[j].addr_,
                ScopePool::layout_spec(a.scope_pools(m)[j].cell_count_),
            ),
        forall|n: NodeId, i: int, j: int|
            #![trigger a.scope_pools(n)[i], a.pools[j]]
            a.tree.nodes.contains_key(n) && 0 <= i < a.scope_pools(n).len() && 0 <= j
                < a.pools.len() ==> apart(
                a.scope_pools(n)[i].addr_,
                ScopePool::layout_spec(a.scope_pools(n)[i].cell_count_),
                a.pools[j].addr,
                pool_layout(a.pools[j].slots.len() as u16),
            ),
{
    assert forall|n: NodeId, i: int, m: NodeId, j: int|
        #![trigger a.scope_pools(n)[i], a.scope_pools(m)[j]]
        a.tree.nodes.contains_key(n) && a.tree.nodes.contains_key(m) && 0 <= i < a.scope_pools(
            n,
        ).len() && 0 <= j < a.scope_pools(m).len() && (n != m || i != j) implies apart(
        a.scope_pools(n)[i].addr_,
        ScopePool::layout_spec(a.scope_pools(n)[i].cell_count_),
        a.scope_pools(m)[j].addr_,
        ScopePool::layout_spec(a.scope_pools(m)[j].cell_count_),
    ) by {
        let x = a.scope_pools(n)[i].addr_;
        let y = a.scope_pools(m)[j].addr_;
        assert(a.uses_as(x, BlockUse::Strong(n, i)) && a.use_ok(x));
        assert(a.uses_as(y, BlockUse::Strong(m, j)) && a.use_ok(y));
        assert(a.apart_at(x, y));
    }
    assert forall|n: NodeId, i: int, j: int|
        #![trigger a.scope_pools(n)[i], a.pools[j]]
        a.tree.nodes.contains_key(n) && 0 <= i < a.scope_pools(n).len() && 0 <= j
            < a.pools.len() implies apart(
        a.scope_pools(n)[i].addr_,
        ScopePool::layout_spec(a.scope_pools(n)[i].cell_count_),
        a.pools[j].addr,
        pool_layout(a.pools[j].slots.len() as u16),
    ) by {
        let x = a.scope_pools(n)[i].addr_;
        let y = a.pools[j].addr;
        assert(a.uses_as(x, BlockUse::Strong(n, i)) && a.use_ok(x));
        assert(a.uses_as(y, BlockUse::Weak(j)) && a.use_ok(y));
        assert(a.apart_at(x, y));
    }
}

/// Emptying a scope changes no other scope, and takes no weak handle away.
pub proof fn law_flush_keeps_others<V, H: Copy>(a: RootView<V, H>, n: NodeId)
    requires
        a.wf(),
        a.tree.nodes.contains_key(n),
    ensures
        forall|m: NodeId| #[trigger]
            a.tree.nodes.contains_key(m) && m != n ==> same_scope(a, a.flushed(n), m),
        same_handles(a, a.flushed(n)),
        same_strays(a, a.flushed(n)),
        a.flushed(n).pools.len() == a.pools.len(),
{
    let b = a.flushed(n);
    lemma_live_in_use(a, n);
    lemma_settled_all(a.pools, a.live(n), a.addr);
    assert forall|m: NodeId| #[trigger] a.tree.nodes.contains_key(m) && m != n implies same_scope(
        a,
        b,
        m,
    ) by {
        assert forall|p: SlotPtr| a.homes.contains_key(p) && a.homes[p] == m implies #[trigger]
            b.homes.contains_key(p) && b.homes[p] == m && in_use(b.pools, p) && b.slot(p) == a.slot(
            p,
        ) by {
            assert(a.slot_ok(p));
            assert(!a.live(n).contains(p));
        }
    }
    assert forall|p: SlotPtr| #[trigger] a.holds_weak(p) implies b.holds_weak(p) && b.slot(p).count
        == a.slot(p).count by {
        assert(in_use(b.pools, p));
    }
    assert forall|p: SlotPtr| #[trigger] in_use(a.pools, p) && !a.homes.contains_key(p) implies in_use(
        b.pools,
        p,
    ) && !b.homes.contains_key(p) && b.slot(p) == a.slot(p) by {
        assert(!a.live(n).contains(p));
        assert(in_use(b.pools, p));
    }
}

/// A scope that waits, with none below it, may be emptied and taken out: no other scope changes
/// by that, no weak handle is taken away, and the others wait in the same order.
pub proof fn law_scope_taken_out<V, H: Copy>(a: RootView<V, H>, i: int)
    requires
        a.wf(),
        0 <= i < a.tree.pending.len(),
        a.tree.nodes[a.tree.pending[i]].children.len() == 0,
    ensures
        ({
            let n = a.tree.pending[i];
            let b = a.without_scope(n);
            &&& b.wf()
            &&& b.tree.nodes.dom() == a.tree.nodes.dom().remove(n)
            &&& b.tree.pending == a.tree.pending.take(i) + a.tree.pending.skip(i + 1)
            &&& forall|m: NodeId| #[trigger]
                a.tree.nodes.contains_key(m) && m != n ==> same_scope(a, b, m)
            &&& same_handles(a, b)
            &&& same_strays(a, b)
            &&& b.pools.len() == a.pools.len()
        }),
{
    let n = a.tree.pending[i];
    let b = a.without_scope(n);
    let s = a.flushed(n);
    assert(a.tree.nodes.contains_key(a.tree.pending[i]));
    assert(a.tree.pending.contains(n));
    lemma_flushed(a, n);
    law_flush_keeps_others(a, n);
    assert(s.tree.pending.contains(n));
    lemma_without_node_wf(s.tree, n);
    lemma_taken_out(s, n);
    lemma_without_at(a.tree.pending, i);
    assert(b.tree.nodes.dom() =~= a.tree.nodes.dom().remove(n));
    assert forall|m: NodeId| #[trigger] a.tree.nodes.contains_key(m) && m != n implies same_scope(
        a,
        b,
        m,
    ) by {
        assert(same_scope(a, s, m));
        assert forall|p: SlotPtr| a.homes.contains_key(p) && a.homes[p] == m implies #[trigger]
            b.homes.contains_key(p) && b.homes[p] == m && in_use(b.pools, p) && b.slot(p) == a.slot(
            p,
        ) by {
            assert(s.homes.contains_key(p));
        }
        assert forall|k: usize| a.cells.contains_key(k) && a.cells[k].owner == m implies #[trigger]
            b.cells.contains_key(k) && b.cells[k] == a.cells[k] by {
            assert(s.cells.contains_key(k));
        }
    }
    assert forall|p: SlotPtr| #[trigger] a.holds_weak(p) implies b.holds_weak(p) && b.slot(p).count
        == a.slot(p).count by {
        assert(s.holds_weak(p));
    }
    assert forall|p: SlotPtr| #[trigger] in_use(a.pools, p) && !a.homes.contains_key(p) implies in_use(
        b.pools,
        p,
    ) && !b.homes.contains_key(p) && b.slot(p) == a.slot(p) by {
        assert(in_use(s.pools, p));
    }
}

/// What a scope that stays the same is judged by stays the same.
proof fn lemma_same_reclaimable<V, H: Copy>(a: RootView<V, H>, b: RootView<V, H>, n: NodeId)
    requires
        a.wf(),
        a.tree.nodes.contains_key(n),
        same_scope(a, b, n),
    ensures
        b.is_reclaimable(n) == a.is_reclaimable(n),
{
    lemma_live_in_use(a, n);
    assert forall|i: int| 0 <= i < a.live(n).len() implies #[trigger] b.slot(b.live(n)[i])
        == a.slot(a.live(n)[i]) by {
        let p = a.live(n)[i];
        assert(a.homes.contains_key(p));
        assert(b.homes.contains_key(p));
    }
    if a.is_quiescent(n) {
        assert forall|i: int| 0 <= i < b.live(n).len() implies !(#[trigger] b.slot(
            b.live(n)[i],
        )).state.alive() by {
            assert(!a.slot(a.live(n)[i]).state.alive());
        }
    }
    if b.is_quiescent(n) {
        assert forall|i: int| 0 <= i < a.live(n).len() implies !(#[trigger] a.slot(
            a.live(n)[i],
        )).state.alive() by {
            assert(!b.slot(b.live(n)[i]).state.alive());
        }
    }
}

/// Those of a line of scopes that something still holds.
pub open spec fn held<V, H: Copy>(a: RootView<V, H>, line: Seq<NodeId>) -> Seq<NodeId>
    decreases line.len(),
{
    if line.len() == 0 {
        Seq::empty()
    } else if a.is_reclaimable(line[0]) {
        held(a, line.skip(1))
    } else {
        seq![line[0]] + held(a, line.skip(1))
    }
}

/// Whether `b` is `a` without the scopes that waited and that nothing held.
pub open spec fn is_reclaim_of<V, H: Copy>(a: RootView<V, H>, b: RootView<V, H>) -> bool {
    &&& b.wf()
    &&& b.hooks == a.hooks
    &&& b.strict == a.strict
    &&& b.addr == a.addr
    &&& b.tree.root == a.tree.root
    &&& b.tree.pending == held(a, a.tree.pending)
    &&& forall|m: NodeId| #[trigger]
        b.tree.nodes.contains_key(m) == (a.tree.nodes.contains_key(m) && !a.is_reclaimable(m))
    &&& forall|m: NodeId| #[trigger] b.tree.nodes.contains_key(m) ==> same_scope(a, b, m)
    &&& same_handles(a, b)
    &&& same_strays(a, b)
    &&& b.pools.len() == a.pools.len()
}

/// Reclaiming takes out exactly the closed scopes whose handles are gone, in which nothing is
/// alive and below which there is none. Every other scope stays as it was, the others wait in
/// the same order, no weak handle is taken away, and the pools of weak slots stay.
pub proof fn law_reclaim<V, H: Copy>(a: RootView<V, H>)
    requires
        a.wf(),
    ensures
        is_reclaim_of(a, a.reclaimed()),
{
    assert(a.tree.pending.skip(0) =~= a.tree.pending);
    assert(a.tree.pending.take(0) + held(a, a.tree.pending) =~= held(a, a.tree.pending));
    lemma_reclaim_from(a, 0);
    let b = a.reclaimed();
    assert forall|m: NodeId| #[trigger]
        b.tree.nodes.contains_key(m) == (a.tree.nodes.contains_key(m) && !a.is_reclaimable(m)) by {
        if a.tree.nodes.contains_key(m) && a.is_reclaimable(m) {
            assert(a.tree.pending.contains(m));
        }
    }
}

/// From the `i`-th scope in line on, reclaiming takes out those that nothing holds.
pub proof fn lemma_reclaim_from<V, H: Copy>(a: RootView<V, H>, i: int)
    requires
        a.wf(),
        0 <= i <= a.tree.pending.len(),
    ensures
        ({
            let line = a.tree.pending.skip(i);
            let b = a.reclaimed_along(line);
            &&& b.wf()
            &&& b.hooks == a.hooks
            &&& b.strict == a.strict
            &&& b.addr == a.addr
            &&& b.tree.root == a.tree.root
            &&& b.tree.pending == a.tree.pending.take(i) + held(a, line)
            &&& forall|m: NodeId| #[trigger]
                b.tree.nodes.contains_key(m) == (a.tree.nodes.contains_key(m) && !(line.contains(m)
                    && a.is_reclaimable(m)))
            &&& forall|m: NodeId| #[trigger]
                b.tree.nodes.contains_key(m) ==> same_scope(a, b, m)
            &&& same_handles(a, b)
            &&& same_strays(a, b)
            &&& b.pools.len() == a.pools.len()
        }),
    decreases a.tree.pending.len() - i,
{
    let all = a.tree.pending;
    let line = all.skip(i);
    let b = a.reclaimed_along(line);
    if line.len() == 0 {
        assert(all.take(i) + held(a, line) =~= all);
        assert forall|m: NodeId| #[trigger] b.tree.nodes.contains_key(m) implies same_scope(
            a,
            b,
            m,
        ) by {
            lemma_same_self(a, m);
        }
    } else {
        let n = line[0];
        let rest = line.skip(1);
        assert(n == all[i]);
        assert(rest =~= all.skip(i + 1));
        assert(a.tree.nodes.contains_key(all[i]));
        assert forall|m: NodeId| #[trigger] line.contains(m) == (m == n || rest.contains(m)) by {
            if line.contains(m) && m != n {
                let j = line.index_of(m);
                assert(rest[j - 1] == m);
            }
            if rest.contains(m) {
                let j = rest.index_of(m);
                assert(line[j + 1] == m);
            }
        }
        assert(!rest.contains(n)) by {
            if rest.contains(n) {
                let j = rest.index_of(n);
                assert(all[i + 1 + j] == all[i]);
            }
        }
        if a.is_reclaimable(n) {
            let c = a.without_scope(n);
            law_scope_taken_out(a, i);
            assert(c.tree.pending.skip(i) =~= rest);
            assert(c.tree.pending.take(i) =~= all.take(i));
            lemma_reclaim_from(c, i);
            lemma_same_held(a, c, rest);
            assert forall|m: NodeId| #[trigger]
                b.tree.nodes.contains_key(m) == (a.tree.nodes.contains_key(m) && !(line.contains(m)
                    && a.is_reclaimable(m))) by {
                assert(c.tree.nodes.contains_key(m) == (a.tree.nodes.contains_key(m) && m != n));
                if c.tree.nodes.contains_key(m) {
                    lemma_same_reclaimable(a, c, m);
                }
            }
            assert forall|m: NodeId| #[trigger] b.tree.nodes.contains_key(m) implies same_scope(
                a,
                b,
                m,
            ) by {
                assert(c.tree.nodes.contains_key(m));
                assert(a.tree.nodes.contains_key(m));
                lemma_same_joined(a, c, b, m);
            }
            assert forall|p: SlotPtr| #[trigger] a.holds_weak(p) implies b.holds_weak(p) && b.slot(
                p,
            ).count == a.slot(p).count by {
                assert(c.holds_weak(p));
            }
            assert forall|p: SlotPtr| #[trigger]
                in_use(a.pools, p) && !a.homes.contains_key(p) implies in_use(b.pools, p)
                && !b.homes.contains_key(p) && b.slot(p) == a.slot(p) by {
                assert(in_use(c.pools, p));
            }
        } else {
            lemma_reclaim_from(a, i + 1);
            assert(all.take(i) + held(a, line) =~= all.take(i + 1) + held(a, rest));
        }
    }
}

proof fn lemma_same_self<V, H: Copy>(a: RootView<V, H>, n: NodeId)
    requires
        a.wf(),
        a.tree.nodes.contains_key(n),
    ensures
        same_scope(a, a, n),
{
    assert forall|p: SlotPtr| #[trigger] a.homes.contains_key(p) implies in_use(a.pools, p) by {
        assert(a.slot_ok(p));
    }
}

proof fn lemma_same_joined<V, H: Copy>(
    a: RootView<V, H>,
    b: RootView<V, H>,
    c: RootView<V, H>,
    n: NodeId,
)
    requires
        same_scope(a, b, n),
        same_scope(b, c, n),
    ensures
        same_scope(a, c, n),
{
    assert forall|p: SlotPtr| a.homes.contains_key(p) && a.homes[p] == n implies #[trigger]
        c.homes.contains_key(p) && c.homes[p] == n && in_use(c.pools, p) && c.slot(p) == a.slot(
        p,
    ) by {
        assert(b.homes.contains_key(p));
        assert(c.homes.contains_key(p));
    }
    assert forall|k: usize| a.cells.contains_key(k) && a.cells[k].owner == n implies #[trigger]
        c.cells.contains_key(k) && c.cells[k] == a.cells[k] by {
        assert(b.cells.contains_key(k));
        assert(c.cells.contains_key(k));
    }
}

proof fn lemma_same_held<V, H: Copy>(a: RootView<V, H>, b: RootView<V, H>, line: Seq<NodeId>)
    requires
        a.wf(),
        forall|i: int|
            0 <= i < line.len() ==> a.tree.nodes.contains_key(#[trigger] line[i]) && same_scope(
                a,
                b,
                line[i],
            ),
    ensures
        held(b, line) == held(a, line),
    decreases line.len(),
{
    if line.len() > 0 {
        lemma_same_reclaimable(a, b, line[0]);
        assert forall|i: int| 0 <= i < line.skip(1).len() implies a.tree.nodes.contains_key(
            #[trigger] line.skip(1)[i],
        ) && same_scope(a, b, line.skip(1)[i]) by {
            assert(line.skip(1)[i] == line[i + 1]);
        }
        lemma_same_held(a, b, line.skip(1));
    }
}

impl<V, H: Copy> RootView<V, H> {
    /// Those of the slots `live` whose data is there.
    pub open spec fn alive_in(&self, live: Seq<SlotPtr>) -> Seq<SlotPtr> {
        live.filter(|p: SlotPtr| self.slot(p).state.alive())
    }

    /// Those of the objects `objects` that have their data, but no weak slot.
    pub open spec fn direct_in(&self, objects: Seq<ChunkPtr>) -> Seq<ChunkPtr> {
        objects.filter(|c: ChunkPtr| self.is_direct(key(c)))
    }

    /// Whether the data of the object `k` is reached through one of the slots of the scope `n`.
    pub open spec fn is_bound(&self, n: NodeId, k: usize) -> bool {
        exists|p: SlotPtr| #[trigger]
            self.live(n).contains(p) && self.slot(p).state.alive() && self.slot(p).strong == ptr(k)
    }
}

proof fn lemma_bound_victims<V, H: Copy>(a: RootView<V, H>, live: Seq<SlotPtr>)
    ensures
        a.bound_victims(live) == a.alive_in(live).map_values(|p: SlotPtr| a.victim_at(p)),
    decreases live.len(),
{
    reveal(Seq::filter);
    if live.len() > 0 {
        lemma_bound_victims(a, live.drop_last());
    }
    assert(a.bound_victims(live) =~= a.alive_in(live).map_values(|p: SlotPtr| a.victim_at(p)));
}

proof fn lemma_direct_victims<V, H: Copy>(a: RootView<V, H>, objects: Seq<ChunkPtr>)
    ensures
        a.direct_victims(objects) == a.direct_in(objects).map_values(
            |c: ChunkPtr|
                Victim { record: a.cells[key(c)].record, data: a.cells[key(c)].data->0 },
        ),
    decreases objects.len(),
{
    reveal(Seq::filter);
    if objects.len() > 0 {
        lemma_direct_victims(a, objects.drop_last());
    }
    assert(a.direct_victims(objects) =~= a.direct_in(objects).map_values(
        |c: ChunkPtr| Victim { record: a.cells[key(c)].record, data: a.cells[key(c)].data->0 },
    ));
}

/// Emptying a scope destroys each of its objects whose data is there exactly once: first those
/// that have a weak slot, in the order of the slots, then the others, in the order in which they
/// were placed; and every such object is one or the other.
pub proof fn law_flush_destroys_each_once<V, H: Copy>(a: RootView<V, H>, n: NodeId)
    requires
        a.wf(),
        a.tree.nodes.contains_key(n),
    ensures
        a.victims(n) == a.alive_in(a.live(n)).map_values(|p: SlotPtr| a.victim_at(p))
            + a.direct_in(a.objects(n)).map_values(
            |c: ChunkPtr|
                Victim { record: a.cells[key(c)].record, data: a.cells[key(c)].data->0 },
        ),
        a.live(n).no_duplicates(),
        a.objects(n).no_duplicates(),
        forall|p: SlotPtr, q: SlotPtr|
            a.live(n).contains(p) && a.live(n).contains(q) && p != q && #[trigger] a.slot(
                p,
            ).state.alive() && #[trigger] a.slot(q).state.alive() ==> a.slot(p).strong != a.slot(
                q,
            ).strong,
        forall|k: usize|
            a.cells.contains_key(k) && a.cells[k].owner == n && a.cells[k].data is Some ==> (
            #[trigger] a.is_bound(n, k) != a.is_direct(k)) && a.objects(n).contains(ptr(k)),
{
    lemma_bound_victims(a, a.live(n));
    lemma_direct_victims(a, a.objects(n));
    lemma_live_in_use(a, n);
    assert forall|p: SlotPtr, q: SlotPtr|
        a.live(n).contains(p) && a.live(n).contains(q) && p != q && #[trigger] a.slot(
            p,
        ).state.alive() && #[trigger] a.slot(q).state.alive() implies a.slot(p).strong != a.slot(
        q,
    ).strong by {
        assert(a.slot_ok(p));
        assert(a.slot_ok(q));
        assert(a.cell_of(p).head.weak == p);
    }
    assert forall|k: usize|
        a.cells.contains_key(k) && a.cells[k].owner == n && a.cells[k].data is Some implies (
    #[trigger] a.is_bound(n, k) != a.is_direct(k)) && a.objects(n).contains(ptr(k)) by {
        assert(a.cell_ok(k));
        let q = a.cells[k].head.weak;
        if q != SlotPtr::null() {
            assert(a.slot_ok(q));
            assert(a.cell_of(q) == a.cells[k]);
            assert(a.live(n).contains(q));
        } else if a.is_bound(n, k) {
            let p = choose|p: SlotPtr| #[trigger]
                a.live(n).contains(p) && a.slot(p).state.alive() && a.slot(p).strong == ptr(k);
            assert(a.slot_ok(p));
            assert(p != SlotPtr::null());
        }
    }
}

/// Emptying a scope leaves nothing in it, gives the memory of its objects back, and leaves it as
/// open or closed as it was.
pub proof fn law_flush_leaves_nothing<V, H: Copy>(a: RootView<V, H>, n: NodeId)
    requires
        a.wf(),
        a.tree.nodes.contains_key(n),
    ensures
        ({
            let b = a.flushed(n);
            &&& b.wf()
            &&& b.live(n).len() == 0 && b.objects(n).len() == 0 && b.scope_pools(n).len() == 0
            &&& b.victims(n).len() == 0
            &&& forall|k: usize| #[trigger] b.cells.contains_key(k) ==> b.cells[k].owner != n
            &&& forall|x: usize| #[trigger] b.blocks.contains_key(x) == (a.blocks.contains_key(x)
                && !a.is_pool_block(n, x))
            &&& b.tree.nodes[n].closed == a.tree.nodes[n].closed
            &&& b.tree.nodes[n].dropped == a.tree.nodes[n].dropped
        }),
{
    lemma_flushed(a, n);
}

/// What becomes of the weak slots of a scope that is emptied. One that a handle still points at
/// stays in use, and gives no strong handle any more; all others are free.
pub proof fn law_flush_settles_slots<V, H: Copy>(a: RootView<V, H>, n: NodeId, p: SlotPtr)
    requires
        a.wf(),
        a.tree.nodes.contains_key(n),
        a.homes.contains_key(p),
        a.homes[p] == n,
    ensures
        ({
            let b = a.flushed(n);
            if a.slot(p).count > 0 {
                &&& b.holds_weak(p)
                &&& b.slot(p).count == a.slot(p).count
                &&& b.slot(p).state == DataState::Zombie
                &&& owning_result(b.slot(p)) == Err::<ChunkPtr, _>(DataState::Zombie)
                &&& sharing_result(b.slot(p)) == Err::<ChunkPtr, _>(DataState::Zombie)
            } else {
                !in_use(b.pools, p)
            }
        }),
{
    lemma_live_in_use(a, n);
    lemma_settled_all(a.pools, a.live(n), a.addr);
    assert(a.live(n).contains(p));
    assert(in_use(a.pools, p));
}

/// A weak handle that is left over when its scope is emptied is a zombie: it stays valid, and
/// gives no strong handle any more.
pub proof fn law_collect_leaves_zombies<V, H: Copy>(a: RootView<V, H>, n: NodeId, p: SlotPtr)
    requires
        a.wf(),
        a.tree.nodes.contains_key(n),
        a.homes.contains_key(p),
        a.homes[p] == n,
        a.holds_weak(p),
    ensures
        ({
            let b = a.flushed(n).reclaimed();
            &&& b.holds_weak(p)
            &&& b.slot(p).count == a.slot(p).count
            &&& b.slot(p).state == DataState::Zombie
            &&& !b.homes.contains_key(p)
            &&& owning_result(b.slot(p)) == Err::<ChunkPtr, _>(DataState::Zombie)
            &&& sharing_result(b.slot(p)) == Err::<ChunkPtr, _>(DataState::Zombie)
        }),
{
    law_flush_settles_slots(a, n, p);
    lemma_flushed(a, n);
    let f = a.flushed(n);
    law_reclaim(f);
    assert(in_use(f.pools, p) && !f.homes.contains_key(p));
}

/// A slot that is in use is never handed out.
pub proof fn law_slots_in_use_are_not_handed_out<V, H: Copy>(a: RootView<V, H>)
    requires
        a.wf(),
    ensures
        !in_use(a.pools, a.slot_to_take()),
{
    if a.pools.last().free.len() > 0 {
        lemma_taken_chain(a.pools, a.addr);
    }
}

/// Closing a scope and all below it, when its handle goes, destroys nothing: every object, every
/// slot and what is in every scope stay as they are.
pub proof fn law_close_keeps_everything<V, H: Copy>(a: RootView<V, H>, n: NodeId)
    requires
        a.wf(),
        a.tree.nodes.contains_key(n),
        n != a.tree.root,
    ensures
        ({
            let b = a.let_go(n);
            &&& b.cells == a.cells
            &&& b.pools == a.pools
            &&& b.homes == a.homes
            &&& b.blocks == a.blocks
            &&& b.tree.nodes.dom() == a.tree.nodes.dom()
            &&& forall|m: NodeId| #[trigger]
                a.tree.nodes.contains_key(m) ==> b.tree.nodes[m].content == a.tree.nodes[m].content
            &&& b.tree.nodes[n].dropped
            &&& forall|m: NodeId| #[trigger]
                a.tree.nodes.contains_key(m) && below(a.tree.nodes, n, m) && !a.tree.nodes[n].closed
                    ==> b.tree.nodes[m].closed
        }),
{
    let b = a.let_go(n);
    assert(b.tree.nodes.dom() =~= a.tree.nodes.dom());
    let t = a.tree.with_dropped(n);
    assert forall|m: NodeId| #[trigger]
        a.tree.nodes.contains_key(m) && below(a.tree.nodes, n, m) && !a.tree.nodes[n].closed implies
        b.tree.nodes[m].closed by {
        lemma_below_same(a.tree.nodes, t.nodes, n, m);
    }
}

/// Reclaiming never destroys data that a handle can still reach: what is destroyed are objects
/// that have no weak slot, whose owners never let go of them.
pub proof fn law_reclaim_destroys_only_forgotten<V, H: Copy>(a: RootView<V, H>, n: NodeId)
    requires
        a.wf(),
        a.tree.nodes.contains_key(n),
        a.is_reclaimable(n),
    ensures
        a.victims(n) == a.direct_victims(a.objects(n)),
{
    lemma_quiet_victims(a, a.live(n), n);
    assert(a.victims(n) =~= a.direct_victims(a.objects(n)));
}

proof fn lemma_quiet_victims<V, H: Copy>(a: RootView<V, H>, live: Seq<SlotPtr>, n: NodeId)
    requires
        a.is_quiescent(n),
        live.len() <= a.live(n).len(),
        live == a.live(n).take(live.len() as int) || live == a.live(n),
    ensures
        a.bound_victims(live).len() == 0,
    decreases live.len(),
{
    if live.len() > 0 {
        let i = live.len() - 1;
        assert(live.last() == a.live(n)[i]);
        assert(!a.slot(a.live(n)[i]).state.alive());
        assert(live.drop_last() =~= a.live(n).take(i));
        lemma_quiet_victims(a, live.drop_last(), n);
    }
}

/// An object that is alive survives that its scope's handle goes, and whatever is reclaimed
/// then: its slot, its data and its scope stay as they are.
pub proof fn law_alive_objects_survive<V, H: Copy>(a: RootView<V, H>, p: SlotPtr)
    requires
        a.wf(),
        a.homes.contains_key(p),
        a.slot(p).state.alive(),
    ensures
        ({
            let b = a.reclaimed();
            &&& b.wf()
            &&& b.homes.contains_key(p)
            &&& b.homes[p] == a.homes[p]
            &&& b.slot(p) == a.slot(p)
            &&& b.cell_of(p) == a.cell_of(p)
        }),
{
    let n = a.homes[p];
    assert(a.slot_ok(p));
    lemma_live_in_use(a, n);
    law_reclaim(a);
    let b = a.reclaimed();
    let i = a.live(n).index_of(p);
    assert(a.live(n).contains(p));
    assert(a.live(n)[i] == p);
    assert(a.slot(a.live(n)[i]).state.alive());
    assert(!a.is_reclaimable(n));
    assert(b.tree.nodes.contains_key(n));
    assert(same_scope(a, b, n));
    assert(b.homes.contains_key(p));
    assert(b.cells.contains_key(key(a.slot(p).strong)));
}

/// When a scope is taken out, the memory that it had goes back: its own block and those of its
/// pools, and no other.
pub proof fn law_memory_of_a_scope_goes_back<V, H: Copy>(a: RootView<V, H>, n: NodeId, x: usize)
    requires
        a.wf(),
        a.tree.nodes.contains_key(n),
        n != a.tree.root,
    ensures
        a.without_scope(n).blocks.contains_key(x) == (a.blocks.contains_key(x) && x
            != a.tree.nodes[n].addr && !a.is_pool_block(n, x)),
{
}

/// That the handle of a scope goes leaves the tree sound.
pub proof fn lemma_let_go<V, H: Copy>(a: RootView<V, H>, n: NodeId)
    requires
        a.wf(),
        a.tree.nodes.contains_key(n),
        n != a.tree.root,
    ensures
        a.let_go(n).wf(),
{
    let t = a.tree.with_dropped(n);
    lemma_tree_kept(a.tree, n, NodeView { dropped: true, ..a.tree.nodes[n] });
    if !t.nodes[n].closed {
        lemma_closed_below_wf(t, n);
    }
    let u = a.let_go(n).tree;
    assert(u.nodes.dom() =~= a.tree.nodes.dom());
    lemma_tree_changed(a, u);
}

/// Letting go of scopes keeps alive what is alive: whichever scope's handle goes, an object with
/// its data stays as it is, with its slot and its data.
pub proof fn law_letting_go_keeps_alive_objects<V, H: Copy>(
    a: RootView<V, H>,
    n: NodeId,
    p: SlotPtr,
)
    requires
        a.wf(),
        a.tree.nodes.contains_key(n),
        n != a.tree.root,
        a.homes.contains_key(p),
        a.slot(p).state.alive(),
    ensures
        ({
            let b = a.let_go(n).reclaimed();
            &&& b.wf()
            &&& b.homes.contains_key(p)
            &&& b.homes[p] == a.homes[p]
            &&& b.slot(p) == a.slot(p)
            &&& b.cell_of(p) == a.cell_of(p)
        }),
{
    lemma_let_go(a, n);
    law_alive_objects_survive(a.let_go(n), p);
}

/// A scope whose handle is there stays, whatever is done with others: it survives that scopes
/// are reclaimed, that another is emptied, and that the handle of another goes. So does it
/// when it is emptied itself. The root stays the root, and a tree as strict as it was.
pub proof fn law_scopes_with_handles_stay<V, H: Copy>(a: RootView<V, H>, n: NodeId, m: NodeId)
    requires
        a.wf(),
        a.tree.nodes.contains_key(n),
        !a.tree.nodes[n].dropped,
        a.tree.nodes.contains_key(m),
        m != a.tree.root,
    ensures
        a.reclaimed().tree.nodes.contains_key(n),
        a.flushed(m).reclaimed().tree.nodes.contains_key(n),
        m != n ==> a.let_go(m).reclaimed().tree.nodes.contains_key(n),
        m != n ==> !a.let_go(m).reclaimed().tree.nodes[n].dropped,
        !a.reclaimed().tree.nodes[n].dropped,
        !a.flushed(m).reclaimed().tree.nodes[n].dropped,
        a.reclaimed().tree.root == a.tree.root && a.reclaimed().strict == a.strict,
        a.flushed(m).reclaimed().tree.root == a.tree.root && a.flushed(m).reclaimed().strict
            == a.strict,
        a.let_go(m).reclaimed().tree.root == a.tree.root && a.let_go(m).reclaimed().strict
            == a.strict,
{
    law_reclaim(a);
    assert(!a.is_reclaimable(n));
    assert(a.reclaimed().tree.nodes.contains_key(n));
    lemma_flushed(a, m);
    let f = a.flushed(m);
    law_reclaim(f);
    assert(!f.is_reclaimable(n));
    assert(f.reclaimed().tree.nodes.contains_key(n));
    lemma_let_go(a, m);
    let g = a.let_go(m);
    law_reclaim(g);
    if m != n {
        assert(g.tree.nodes.contains_key(n) && !g.tree.nodes[n].dropped);
        assert(!g.is_reclaimable(n));
        assert(g.reclaimed().tree.nodes.contains_key(n));
    }
}

} // verus!
