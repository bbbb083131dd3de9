//! How long the memory lasts: what holds of objects that are put one after the other into a tree
//! over an address space.

use vstd::prelude::*;

use crate::abs_::TrCarry;
use crate::emplace_::TrEmplace;
use crate::mem_::{
    law_address_space_moves_on, law_align_up, law_ceil_div, AddressSpace, Layout, TrAllocator,
};
use crate::ptr_::{PoolIndex, SlotPtr};
use crate::scope_::{emplaced, object_level, shut, ScopeError};
use crate::strong_::pool_::STRONG_POOL_HEAD;
use crate::weak_::pool_::{pool_layout, DEFAULT_SLOT_COUNT};

use super::handle_laws_::law_put_keeps_others;
use super::laws_::{law_flush_keeps_others, law_reclaim, lemma_let_go, same_scope};
use super::node_::{
    cells_for, node_layout, opened_layout, skipped, NodeId, NodeView, ScopePool,
    DEFAULT_CELL_SIZE,
};
use super::order_::{closed_above, lemma_parent_is_older, nodes_wf, Nodes};
use super::put_::{chunk_fits, chunk_layout, data_grant};
use super::root_::RootScope;
use super::state_::{slot_grant, RootView};
use super::teardown_::{freed_pools, lemma_flushed};

verus! {

/// What a block of this layout takes of an address space at most: its size, and what is skipped
/// to align it.
pub open spec fn taken_by(layout: Layout) -> int {
    layout.size + layout.align
}

/// What an object with data of this layout takes of an address space at most: a pool of weak
/// slots, and a pool for the data.
pub open spec fn taken_by_put(data: Layout) -> int {
    taken_by(pool_layout(DEFAULT_SLOT_COUNT)) + taken_by(opened_layout(chunk_layout(data)))
}

/// Whether data of this layout fits into a pool at all.
pub open spec fn fits_a_pool(data: Layout) -> bool {
    chunk_fits(data) && cells_for(chunk_layout(data)) <= PoolIndex::MAX
}

/// Giving the memory of pools back leaves the place where an address space looks for the next
/// block.
proof fn lemma_freed_pools(space: AddressSpace, pools: Seq<ScopePool>)
    ensures
        freed_pools(space, pools).next() == space.next(),
        freed_pools(space, pools).limit() == space.limit(),
    decreases pools.len(),
{
    if pools.len() > 0 {
        let pool = pools.last();
        let layout = ScopePool::layout_spec(pool.cell_count_);
        law_address_space_moves_on(space, layout, pool.addr_);
        lemma_freed_pools(space.freed(pool.addr_, layout), pools.drop_last());
    }
}

/// Taking scopes out leaves the place where an address space looks for the next block.
proof fn lemma_freed_along<V, H: Copy>(
    a: RootView<V, H>,
    space: AddressSpace,
    line: Seq<NodeId>,
)
    ensures
        a.freed_along(space, line).next() == space.next(),
        a.freed_along(space, line).limit() == space.limit(),
    decreases line.len(),
{
    if line.len() > 0 {
        let n = line[0];
        if a.is_reclaimable(n) {
            let mid = freed_pools(space, a.scope_pools(n));
            lemma_freed_pools(space, a.scope_pools(n));
            law_address_space_moves_on(mid, node_layout(), a.tree.nodes[n].addr);
            lemma_freed_along(a.without_scope(n), a.freed_scope(space, n), line.skip(1));
        } else {
            lemma_freed_along(a, space, line.skip(1));
        }
    }
}

/// Reclaiming leaves the place where an address space looks for the next block, and the number
/// of pools of weak slots.
pub proof fn law_reclaiming_keeps_space<V, H: Copy>(a: RootView<V, H>, space: AddressSpace)
    requires
        a.wf(),
    ensures
        a.reclaimed_memory(space).next() == space.next(),
        a.reclaimed_memory(space).limit() == space.limit(),
        a.reclaimed().pools.len() == a.pools.len(),
{
    law_reclaim(a);
    lemma_freed_along(a, space, a.tree.pending);
}

/// Nor does emptying a scope, or letting go of its handle, move that place on.
pub proof fn law_giving_back_keeps_space<V, H: Copy>(
    a: RootView<V, H>,
    space: AddressSpace,
    n: NodeId,
)
    requires
        a.wf(),
        a.tree.nodes.contains_key(n),
        n != a.tree.root,
    ensures
        ({
            let left = a.flushed(n).reclaimed_memory(freed_pools(space, a.scope_pools(n)));
            &&& left.next() == space.next()
            &&& left.limit() == space.limit()
            &&& a.flushed(n).reclaimed().pools.len() == a.pools.len()
        }),
        ({
            let left = a.let_go(n).reclaimed_memory(space);
            &&& left.next() == space.next()
            &&& left.limit() == space.limit()
            &&& a.let_go(n).reclaimed().pools.len() == a.pools.len()
        }),
{
    lemma_flushed(a, n);
    law_flush_keeps_others(a, n);
    lemma_freed_pools(space, a.scope_pools(n));
    law_reclaiming_keeps_space(a.flushed(n), freed_pools(space, a.scope_pools(n)));
    lemma_let_go(a, n);
    law_reclaiming_keeps_space(a.let_go(n), space);
}

/// A pool for data of this layout, or for weak slots, is handed out where the space suffices.
proof fn lemma_room<V, H: Copy>(a: RootView<V, H>, space: AddressSpace, n: NodeId, data: Layout)
    requires
        fits_a_pool(data),
        data.wf(),
    ensures
        ({
            let left = a.after_room(space, n, data);
            &&& left.limit() == space.limit()
            &&& space.next() <= left.next()
            &&& left.next() <= space.next() + taken_by_put(data)
            &&& space.next() + taken_by_put(data) <= space.limit() ==> a.finds_room(space, n, data)
        }),
{
    law_address_space_moves_on(space, pool_layout(DEFAULT_SLOT_COUNT), 0);
    let then = a.after_slot(space);
    law_address_space_moves_on(then, opened_layout(chunk_layout(data)), 0);
}

/// There is room for an object as long as the address space has what it takes at most, whatever
/// was put before.
pub proof fn law_ample_space_is_room<V, H: Copy>(
    root: RootScope<V, H, AddressSpace>,
    n: NodeId,
    data: Layout,
)
    requires
        root.wf(),
        data.wf(),
        fits_a_pool(data),
        root.allocator_.next() + taken_by_put(data) <= root.allocator_.limit(),
    ensures
        root.grants_room(n, data),
{
    law_reclaiming_keeps_space(root@, root.allocator_);
    lemma_room(root@.reclaimed(), root@.reclaimed_memory(root.allocator_), n, data);
}

/// The chunk of data of this layout, in numbers.
proof fn lemma_chunk_numbers(data: Layout)
    requires
        data.wf(),
        chunk_fits(data),
    ensures
        data.size + 16 <= chunk_layout(data).size <= data.size + data.align + 16,
        8 <= chunk_layout(data).align,
        data.align <= chunk_layout(data).align <= data.align + 8,
{
    law_align_up(16, data.align as int);
}

/// Data of up to half a megabyte fits into a pool of its own, and takes little more of an address
/// space than its size and the pools of the default size; data that no number of cells can hold
/// fits into none.
pub proof fn law_which_data_fits(data: Layout)
    requires
        data.wf(),
    ensures
        data.size + 2 * data.align <= 524_000 ==> fits_a_pool(data) && taken_by_put(data)
            <= data.size + 2 * data.align + 33_000,
        data.size > 524_264 ==> !fits_a_pool(data),
{
    law_align_up(16, data.align as int);
    if chunk_fits(data) {
        lemma_chunk_numbers(data);
        let chunk = chunk_layout(data);
        law_ceil_div(STRONG_POOL_HEAD + chunk.size, DEFAULT_CELL_SIZE as int);
        law_ceil_div(chunk.size + skipped(chunk.align as int), DEFAULT_CELL_SIZE as int);
    }
}

/// A scope that may be used takes any object of ordinary size as long as the address space has
/// what that takes, whatever was put before.
pub proof fn law_ordinary_data_is_taken<V, H: Copy>(
    root: RootScope<V, H, AddressSpace>,
    n: NodeId,
    data: Layout,
)
    requires
        root.wf(),
        data.wf(),
        data.size + 2 * data.align <= 524_000,
        root.allocator_.next() + data.size + 2 * data.align + 33_000 <= root.allocator_.limit(),
    ensures
        root.grants_room(n, data),
        root.grants_place(n, data),
{
    law_which_data_fits(data);
    law_ample_space_is_room(root, n, data);
    law_reclaiming_keeps_space(root@, root.allocator_);
    let memory = root@.reclaimed_memory(root.allocator_);
    law_address_space_moves_on(memory, opened_layout(chunk_layout(data)), 0);
}

/// Whatever the allocator is: an object is taken without asking for memory where a weak slot is
/// free and the scope's last pool has room for it.
pub proof fn law_room_in_the_pools<V, H: Copy, A: TrAllocator>(
    a: RootView<V, H>,
    memory: A,
    n: NodeId,
    data: Layout,
)
    requires
        data.wf(),
        a.pools.last().free.len() > 0,
        a.scope_pools(n).len() > 0,
        a.scope_pools(n).last().free_start() + data.size + 2 * data.align + 24
            <= a.scope_pools(n).last().end(),
        a.scope_pools(n).last().end() <= usize::MAX,
        a.scope_pools(n).last().free_start() >= 0,
    ensures
        a.finds_room(memory, n, data),
        a.finds_place(memory, n, data),
        a.after_room(memory, n, data) == memory,
{
    law_align_up(16, data.align as int);
    lemma_chunk_numbers(data);
    law_align_up(
        a.scope_pools(n).last().free_start(),
        chunk_layout(data).align as int,
    );
}

/// Whatever the allocator is: where it refuses every request, an object is taken only into what
/// the pools have.
pub proof fn law_no_memory_no_room<V, H: Copy, A: TrAllocator>(
    a: RootView<V, H>,
    memory: A,
    n: NodeId,
    data: Layout,
)
    requires
        data.wf(),
        slot_grant(memory) is None,
        data_grant(memory, data) is None,
    ensures
        a.finds_room(memory, n, data) ==> a.pools.last().free.len() > 0 && a.scope_pools(n).len()
            > 0 && a.scope_pools(n).last().free_start() + data.size + 16 <= a.scope_pools(
            n,
        ).last().end(),
        a.pools.last().free.len() == 0 ==> !a.finds_room(memory, n, data),
        a.scope_pools(n).len() == 0 ==> !a.finds_place(memory, n, data),
{
    if chunk_fits(data) {
        lemma_chunk_numbers(data);
        law_align_up(
            a.scope_pools(n).last().free_start(),
            chunk_layout(data).align as int,
        );
    }
}

/// Reclaiming opens and closes no scope that stays, nor one above it.
pub proof fn lemma_reclaim_keeps_shut<V, H: Copy>(a: RootView<V, H>, x: NodeId)
    requires
        a.wf(),
        a.reclaimed().tree.nodes.contains_key(x),
    ensures
        closed_above(a.reclaimed().tree.nodes, x) == closed_above(a.tree.nodes, x),
    decreases a.tree.nodes[x].stamp,
{
    let b = a.reclaimed();
    law_reclaim(a);
    assert(a.tree.nodes.contains_key(x) && same_scope(a, b, x));
    lemma_parent_is_older(a.tree.nodes, a.tree.clock, x);
    if let Some(p) = a.tree.nodes[x].parent {
        assert(!a.is_reclaimable(p));
        assert(b.tree.nodes.contains_key(p));
        assert(same_scope(a, b, p));
        lemma_reclaim_keeps_shut(a, p);
    }
}

/// Nor does a change of what is in a scope.
proof fn lemma_content_keeps_shut(a: Nodes, b: Nodes, clock: nat, x: NodeId)
    requires
        nodes_wf(a, clock),
        a.contains_key(x),
        forall|m: NodeId| #[trigger]
            a.contains_key(m) ==> b.contains_key(m) && b[m] == (NodeView {
                content: b[m].content,
                ..a[m]
            }),
    ensures
        closed_above(b, x) == closed_above(a, x),
    decreases a[x].stamp,
{
    lemma_parent_is_older(a, clock, x);
    if let Some(p) = a[x].parent {
        lemma_content_keeps_shut(a, b, clock, p);
    }
}

/// Putting an object takes no more of an address space than that, and adds at most one pool of
/// weak slots. A scope that takes objects goes on taking them.
pub proof fn law_put_takes_no_more<V: TrCarry<E::Target>, H: Copy, E: TrEmplace>(
    before: RootScope<V, H, AddressSpace>,
    after: RootScope<V, H, AddressSpace>,
    n: NodeId,
    emplace: E,
    pre_drop: Option<H>,
    r: Result<SlotPtr, ScopeError>,
)
    requires
        before.wf(),
        before@.tree.nodes.contains_key(n),
        !before@.tree.nodes[n].dropped,
        emplace.layout().wf(),
        fits_a_pool(emplace.layout()),
        after.wf(),
        emplaced(before, after, n, emplace, pre_drop, r),
    ensures
        after.allocator_.limit() == before.allocator_.limit(),
        after.allocator_.next() <= before.allocator_.next() + taken_by_put(emplace.layout()),
        after@.pools.len() <= before@.pools.len() + 1,
        shut(after@, n) == shut(before@, n),
{
    let memory = before@.reclaimed_memory(before.allocator_);
    let ready = before@.reclaimed();
    law_reclaiming_keeps_space(before@, before.allocator_);
    lemma_room(ready, memory, n, emplace.layout());
    law_reclaim(before@);
    assert(ready.tree.nodes.contains_key(n));
    if let Ok(p) = r {
        law_put_keeps_others(
            ready,
            memory,
            after@,
            after.allocator_,
            n,
            emplace,
            object_level(pre_drop),
            p,
        );
        assert forall|m: NodeId| #[trigger]
            ready.tree.nodes.contains_key(m) implies after@.tree.nodes.contains_key(m)
            && after@.tree.nodes[m] == (NodeView {
            content: after@.tree.nodes[m].content,
            ..ready.tree.nodes[m]
        }) by {
            if m != n {
                assert(same_scope(ready, after@, m));
            }
        }
        lemma_content_keeps_shut(ready.tree.nodes, after@.tree.nodes, ready.tree.clock, n);
    }
    lemma_reclaim_keeps_shut(before@, n);
}

} // verus!
