//! One scope: its place in the tree, and the objects in it.

use vstd::arithmetic::div_mod::lemma_fundamental_div_mod;
use vstd::prelude::*;

use crate::mem_::{
    align_up, ceil_div, clear_of, div_ceil, law_align_up, law_ceil_div, AllocError, Layout,
    TrAllocator,
};
use crate::ptr_::{ChunkPtr, PoolIndex, SlotPtr};
use crate::strong_::pool_::{law_blocks_never_overlap, StrongPool, STRONG_POOL_HEAD};

verus! {

/// The key of a scope in its tree.
pub type NodeId = usize;

/// The size of a cell of a strong pool.
pub const DEFAULT_CELL_SIZE: usize = 8;

/// How many cells a strong pool of the default size has.
pub const DEFAULT_CELL_COUNT: usize = 2048;

/// The pools that a scope places its objects in.
pub type ScopePool = StrongPool<8>;

/// What the size of a node's block is.
pub const NODE_SIZE: usize = 120;

/// What the address of a node's block must be a multiple of.
pub const NODE_ALIGN: usize = 8;

/// The layout of a node's block.
pub open spec fn node_layout() -> Layout {
    Layout { size: NODE_SIZE, align: NODE_ALIGN }
}

/// The scope, and what is below it, is closed.
pub const FLAG_CLOSED: usize = 1;

/// The handle of the scope is gone.
pub const FLAG_HANDLE_DROPPED: usize = 2;

/// What is common to all nodes: who is above, and who is below.
pub struct TreeNodeBase {
    parent_node_: Option<NodeId>,
    child_head_: Option<NodeId>,
    child_tail_: Option<NodeId>,
}

/// A node's neighbours above and below, as they are spoken of in contracts.
pub struct BaseView {
    pub parent: Option<NodeId>,
    pub child_head: Option<NodeId>,
    pub child_tail: Option<NodeId>,
}

impl View for TreeNodeBase {
    type V = BaseView;

    closed spec fn view(&self) -> BaseView {
        BaseView {
            parent: self.parent_node_,
            child_head: self.child_head_,
            child_tail: self.child_tail_,
        }
    }
}

impl TreeNodeBase {
    pub fn new(parent: Option<NodeId>) -> (r: Self)
        ensures
            r@ == (BaseView { parent, child_head: None, child_tail: None }),
    {
        TreeNodeBase { parent_node_: parent, child_head_: None, child_tail_: None }
    }

    pub fn parent(&self) -> (r: Option<NodeId>)
        ensures
            r == self@.parent,
    {
        self.parent_node_
    }

    /// The first child.
    pub fn child_head(&self) -> (r: Option<NodeId>)
        ensures
            r == self@.child_head,
    {
        self.child_head_
    }

    /// The last child.
    pub fn child_tail(&self) -> (r: Option<NodeId>)
        ensures
            r == self@.child_tail,
    {
        self.child_tail_
    }

    pub fn update_child_head(&mut self, updated: Option<NodeId>)
        ensures
            final(self)@ == (BaseView { child_head: updated, ..old(self)@ }),
    {
        self.child_head_ = updated;
    }

    pub fn update_child_tail(&mut self, updated: Option<NodeId>)
        ensures
            final(self)@ == (BaseView { child_tail: updated, ..old(self)@ }),
    {
        self.child_tail_ = updated;
    }

    /// Cuts the node off from the one above.
    pub fn clear_parent(&mut self)
        ensures
            final(self)@ == (BaseView { parent: None, ..old(self)@ }),
    {
        self.parent_node_ = None;
    }
}

/// What is in a scope: the pools that its objects are placed in, the objects, and the chain of
/// those that have a weak slot.
pub struct ScopeContent {
    pub strong_pools_: Vec<ScopePool>,
    pub objects_: Vec<ChunkPtr>,
    pub live_head_: SlotPtr,
    pub live_tail_: SlotPtr,
    pub live_: Ghost<Seq<SlotPtr>>,
}

/// What is in a scope, as it is spoken of in contracts.
#[verifier::ext_equal]
pub struct ContentView {
    pub pools: Seq<ScopePool>,
    /// The objects, in the order in which they were placed.
    pub objects: Seq<ChunkPtr>,
    /// The weak slots of the objects that have one, in the order in which they got it.
    pub live: Seq<SlotPtr>,
}

impl ContentView {
    pub open spec fn empty() -> Self {
        ContentView { pools: Seq::empty(), objects: Seq::empty(), live: Seq::empty() }
    }

    /// Every pool is sound and knows the one before it.
    pub open spec fn pools_wf(&self) -> bool {
        forall|i: int| 0 <= i < self.pools.len() ==> #[trigger] pool_at(self.pools, i)
    }
}

/// The `i`-th pool is sound and knows the one before it.
pub open spec fn pool_at(pools: Seq<ScopePool>, i: int) -> bool {
    &&& pools[i].wf()
    &&& pools[i].prev_pool_ == (if i == 0 {
        None
    } else {
        Some(pools[i - 1].addr_)
    })
}

/// The address of the last pool.
pub open spec fn last_pool(pools: Seq<ScopePool>) -> Option<usize> {
    if pools.len() == 0 {
        None
    } else {
        Some(pools.last().addr_)
    }
}

/// How many bytes may have to be skipped before a block with this alignment, where the cells
/// start at a multiple of their size.
pub open spec fn skipped(align: int) -> int {
    if align % (DEFAULT_CELL_SIZE as int) == 0 {
        align - DEFAULT_CELL_SIZE
    } else {
        align - 1
    }
}

/// How many cells a pool gets that is opened for a block of this layout: enough for a head and
/// the block, enough for the block behind what is skipped to align it, and no fewer than the
/// default.
pub open spec fn cells_for(layout: Layout) -> int {
    let unit = DEFAULT_CELL_SIZE as int;
    let plain = ceil_div(STRONG_POOL_HEAD + layout.size, unit) + 1;
    let aligned = ceil_div(layout.size + skipped(layout.align as int), unit);
    let need = if plain < aligned {
        aligned
    } else {
        plain
    };
    if need < DEFAULT_CELL_COUNT {
        DEFAULT_CELL_COUNT as int
    } else {
        need
    }
}

/// A pool that is opened for a block of this layout.
pub open spec fn opened_pool(pools: Seq<ScopePool>, layout: Layout, addr: usize) -> ScopePool {
    ScopePool::fresh(addr, last_pool(pools), cells_for(layout) as PoolIndex)
}

/// What placing a block of this layout comes to, given where a new pool would be: the block's
/// address, if it finds a place, and the pools.
///
/// The last pool is tried first. Where the block does not fit there, a new pool is opened that
/// it fits into.
pub open spec fn placed(pools: Seq<ScopePool>, layout: Layout, grant: Option<usize>) -> (
    Option<usize>,
    Seq<ScopePool>,
) {
    if pools.len() > 0 && pools.last().fits(layout) {
        (
            Some(pools.last().place(layout) as usize),
            pools.update(pools.len() - 1, pools.last().after(layout)),
        )
    } else if cells_for(layout) > PoolIndex::MAX {
        (None, pools)
    } else {
        match grant {
            None => (None, pools),
            Some(addr) => {
                let pool = opened_pool(pools, layout, addr);
                (Some(pool.place(layout) as usize), pools.push(pool.after(layout)))
            },
        }
    }
}

/// Whether placing a block of this layout asks the allocator for a new pool.
pub open spec fn asks_for_pool(pools: Seq<ScopePool>, layout: Layout) -> bool {
    &&& !(pools.len() > 0 && pools.last().fits(layout))
    &&& cells_for(layout) <= PoolIndex::MAX
}

/// The layout of the pool that is opened for a block of this layout.
pub open spec fn opened_layout(layout: Layout) -> Layout {
    ScopePool::layout_spec(cells_for(layout) as PoolIndex)
}

/// The allocator after a block of this layout was placed: it was asked for a pool, where one
/// was needed.
pub open spec fn after_placing<A: TrAllocator>(
    alloc: A,
    pools: Seq<ScopePool>,
    layout: Layout,
) -> A {
    if asks_for_pool(pools, layout) {
        alloc.asked(opened_layout(layout))
    } else {
        alloc
    }
}

/// Whether a block of this layout at `addr` is aligned, and lies in the used cells of the pool.
pub open spec fn lies_in(pool: ScopePool, addr: usize, layout: Layout) -> bool {
    &&& addr as int % layout.align as int == 0
    &&& pool.cells() <= addr
    &&& addr + layout.size <= pool.free_start()
    &&& pool.free_start() <= pool.end()
}

/// A block fits into the pool that is opened for it, wherever the pool is.
pub proof fn law_opened_pool_fits(pools: Seq<ScopePool>, layout: Layout, addr: usize)
    requires
        layout.wf(),
        addr % 8 == 0,
        cells_for(layout) <= PoolIndex::MAX,
    ensures
        opened_pool(pools, layout, addr).fits(layout),
{
    let pool = opened_pool(pools, layout, addr);
    let align = layout.align as int;
    law_ceil_div(layout.size + skipped(align), DEFAULT_CELL_SIZE as int);
    lemma_skipped(addr + STRONG_POOL_HEAD, align);
    assert(pool.free_start() == addr + STRONG_POOL_HEAD);
    assert(pool.cell_count_ * 8 >= layout.size + skipped(align));
}

/// Aligning an address that is a multiple of the cells' size skips no more than that.
proof fn lemma_skipped(start: int, align: int)
    requires
        align > 0,
        start % 8 == 0,
    ensures
        align_up(start, align) <= start + skipped(align),
{
    law_align_up(start, align);
    if align % 8 == 0 {
        let end = align_up(start, align);
        let q = end / align;
        let r = align / 8;
        lemma_fundamental_div_mod(end, align);
        assert(end == 8 * (r * q)) by (nonlinear_arith)
            requires
                end == align * q,
                align == 8 * r,
        ;
    }
}

/// A block that is placed is aligned, and lies in the last pool behind everything that was placed
/// there before. The pools before it stay as they are, and a new one is opened, behind the old
/// last one, exactly where the block does not fit there.
pub proof fn law_placed_block(pools: Seq<ScopePool>, layout: Layout, grant: Option<usize>)
    requires
        layout.wf(),
        forall|i: int| 0 <= i < pools.len() ==> #[trigger] pool_at(pools, i),
        grant matches Some(addr) ==> addr % 8 == 0 && addr + opened_layout(layout).size <= usize::MAX,
    ensures
        ({
            let (addr, after) = placed(pools, layout, grant);
            let fits = pools.len() > 0 && pools.last().fits(layout);
            &&& addr is Some <==> fits || (cells_for(layout) <= PoolIndex::MAX && grant is Some)
            &&& addr is None ==> after == pools
            &&& addr matches Some(at) ==> {
                let ready = if fits {
                    pools.last()
                } else {
                    opened_pool(pools, layout, grant->0)
                };
                &&& lies_in(after.last(), at, layout)
                &&& ready.free_start() <= at
                &&& after.last().addr_ == ready.addr_
                &&& after.len() == (if fits {
                    pools.len()
                } else {
                    pools.len() + 1
                })
                &&& after.drop_last() == (if fits {
                    pools.drop_last()
                } else {
                    pools
                })
                &&& !fits ==> after.last().prev_pool_ == last_pool(pools)
            }
        }),
{
    let (addr, after) = placed(pools, layout, grant);
    if pools.len() > 0 && pools.last().fits(layout) {
        assert(pool_at(pools, pools.len() - 1));
        law_blocks_never_overlap(pools.last(), layout);
        assert(after.drop_last() =~= pools.drop_last());
    } else if cells_for(layout) <= PoolIndex::MAX && grant is Some {
        let pool = opened_pool(pools, layout, grant->0);
        law_opened_pool_fits(pools, layout, grant->0);
        law_blocks_never_overlap(pool, layout);
        assert(after.drop_last() =~= pools);
    }
}

impl View for ScopeContent {
    type V = ContentView;

    open spec fn view(&self) -> ContentView {
        ContentView { pools: self.strong_pools_@, objects: self.objects_@, live: self.live_@ }
    }
}

impl ScopeContent {
    /// The chain's ends are what they should be.
    pub open spec fn ends_wf(&self) -> bool {
        &&& self.live_head_ == (if self@.live.len() == 0 {
            SlotPtr::null()
        } else {
            self@.live[0]
        })
        &&& self.live_tail_ == (if self@.live.len() == 0 {
            SlotPtr::null()
        } else {
            self@.live.last()
        })
    }

    pub open spec fn wf(&self) -> bool {
        self.ends_wf() && self@.pools_wf()
    }

    /// An empty scope.
    pub fn new() -> (r: Self)
        ensures
            r.wf(),
            r@ == ContentView::empty(),
    {
        ScopeContent {
            strong_pools_: Vec::new(),
            objects_: Vec::new(),
            live_head_: SlotPtr::null(),
            live_tail_: SlotPtr::null(),
            live_: Ghost(Seq::empty()),
        }
    }

    /// How many bytes are left in the last pool. Those of earlier pools are never used again.
    pub fn free_size(&self) -> (r: usize)
        requires
            self.wf(),
        ensures
            r == (if self@.pools.len() == 0 {
                0
            } else {
                self@.pools.last().end() - self@.pools.last().free_start()
            }),
    {
        if self.strong_pools_.len() == 0 {
            return 0;
        }
        let last: usize = self.strong_pools_.len() - 1;
        assert(pool_at(self@.pools, last as int));
        self.strong_pools_[last].free_addr_().1
    }

    /// Places a block of this layout in the last pool or, where it does not fit, in a new one.
    /// Fails where the block needs more cells than a pool can have, or where there is no memory
    /// for the pool.
    pub fn allocate<A: TrAllocator>(&mut self, layout: Layout, alloc: &mut A) -> (r: Result<
        usize,
        AllocError,
    >)
        requires
            old(self).wf(),
            old(alloc).wf(),
            layout.wf(),
        ensures
            final(self).wf(),
            final(alloc).wf(),
            final(self).objects_ == old(self).objects_,
            final(self)@.live == old(self)@.live,
            ({
                let grant = old(alloc).grants(opened_layout(layout));
                let (addr, pools) = placed(old(self)@.pools, layout, grant);
                &&& r == (match addr {
                    Some(addr) => Ok(addr),
                    None => Err(AllocError),
                })
                &&& final(self)@.pools == pools
                &&& r matches Ok(addr) ==> lies_in(pools.last(), addr, layout)
                &&& if asks_for_pool(old(self)@.pools, layout) && grant is Some {
                    &&& !old(alloc).blocks().contains_key(grant->0)
                    &&& clear_of(old(alloc).blocks(), grant->0, opened_layout(layout))
                    &&& grant->0 % 8 == 0
                    &&& grant->0 + opened_layout(layout).size <= usize::MAX
                    &&& final(alloc).blocks() == old(alloc).blocks().insert(
                        grant->0,
                        opened_layout(layout),
                    )
                } else {
                    final(alloc).blocks() == old(alloc).blocks()
                }
                &&& *final(alloc) == after_placing(*old(alloc), old(self)@.pools, layout)
            }),
    {
        let ghost before = self@.pools;
        proof {
            law_ceil_div(STRONG_POOL_HEAD + layout.size, DEFAULT_CELL_SIZE as int);
            law_ceil_div(layout.size + skipped(layout.align as int), DEFAULT_CELL_SIZE as int);
        }
        if self.strong_pools_.len() > 0 {
            let last: usize = self.strong_pools_.len() - 1;
            assert(pool_at(before, last as int));
            let tail = &mut self.strong_pools_[last];
            let placed_at = tail.allocate_(layout);
            assert(self.strong_pools_@ =~= before.update(last as int, self.strong_pools_@[last as int]));
            if let Ok(addr) = placed_at {
                proof {
                    lemma_pools_replaced(before, before.last().after(layout));
                    law_placed_block(before, layout, None);
                }
                return Ok(addr);
            }
            assert(self.strong_pools_@ =~= before);
        }
        let skip: usize = if layout.align % DEFAULT_CELL_SIZE == 0 {
            layout.align - DEFAULT_CELL_SIZE
        } else {
            layout.align - 1
        };
        let (size, room) = match (
            STRONG_POOL_HEAD.checked_add(layout.size),
            skip.checked_add(layout.size),
        ) {
            (Some(size), Some(room)) => (size, room),
            _ => {
                return Err(AllocError);
            },
        };
        let plain: usize = div_ceil(size, DEFAULT_CELL_SIZE) + 1;
        let aligned: usize = div_ceil(room, DEFAULT_CELL_SIZE);
        let need: usize = if plain < aligned {
            aligned
        } else {
            plain
        };
        let cell_count: usize = if need < DEFAULT_CELL_COUNT {
            DEFAULT_CELL_COUNT
        } else {
            need
        };
        if cell_count > PoolIndex::MAX as usize {
            return Err(AllocError);
        }
        let prev = if self.strong_pools_.len() == 0 {
            None
        } else {
            Some(self.strong_pools_[self.strong_pools_.len() - 1].addr_)
        };
        match StrongPool::try_new_(cell_count as PoolIndex, alloc, prev) {
            Err(e) => Err(e),
            Ok(pool) => {
                let mut pool = pool;
                proof {
                    law_opened_pool_fits(before, layout, pool.addr_);
                    law_placed_block(before, layout, Some(pool.addr_));
                }
                let placed_at = pool.allocate_(layout);
                self.strong_pools_.push(pool);
                proof {
                    lemma_pools_pushed(before, pool);
                    assert(self.strong_pools_@ =~= before.push(pool));
                }
                match placed_at {
                    Ok(addr) => Ok(addr),
                    Err(_) => Err(AllocError),
                }
            },
        }
    }
}

/// Pools stay sound when the last is replaced by a sound one at the same address.
proof fn lemma_pools_replaced(pools: Seq<ScopePool>, pool: ScopePool)
    requires
        pools.len() > 0,
        forall|i: int| 0 <= i < pools.len() ==> #[trigger] pool_at(pools, i),
        pool.wf(),
        pool.prev_pool_ == pools.last().prev_pool_,
    ensures
        forall|i: int|
            0 <= i < pools.len() ==> #[trigger] pool_at(pools.update(pools.len() - 1, pool), i),
{
    let after = pools.update(pools.len() - 1, pool);
    assert forall|i: int| 0 <= i < pools.len() implies #[trigger] pool_at(after, i) by {
        assert(pool_at(pools, i));
    }
}

proof fn lemma_pools_pushed(pools: Seq<ScopePool>, pool: ScopePool)
    requires
        forall|i: int| 0 <= i < pools.len() ==> #[trigger] pool_at(pools, i),
        pool.wf(),
        pool.prev_pool_ == last_pool(pools),
    ensures
        forall|i: int| 0 <= i < pools.push(pool).len() ==> #[trigger] pool_at(pools.push(pool), i),
{
    let after = pools.push(pool);
    assert forall|i: int| 0 <= i < after.len() implies #[trigger] pool_at(after, i) by {
        if i < pools.len() {
            assert(pool_at(pools, i));
        }
    }
}

/// What a scope has beyond its place above and below: its flags, its neighbours, and what is
/// in it.
pub struct ScopeNodeExt {
    pub flags_: usize,
    pub prev_sibling_: Option<NodeId>,
    pub next_sibling_: Option<NodeId>,
    /// The next scope that waits to be reclaimed, while this one waits too.
    pub pending_next_: Option<NodeId>,
    /// The address of the node's block.
    pub addr_: usize,
    pub content_: ScopeContent,
}

/// A scope in the tree.
pub struct ScopeNode {
    pub node_base_: TreeNodeBase,
    pub scope_ext_: ScopeNodeExt,
    pub children_: Ghost<Seq<NodeId>>,
    /// When the scope was opened, counted in scopes.
    pub stamp_: Ghost<nat>,
}

/// A scope as it is spoken of in contracts.
#[verifier::ext_equal]
pub struct NodeView {
    pub parent: Option<NodeId>,
    /// The scopes below, eldest first.
    pub children: Seq<NodeId>,
    pub closed: bool,
    /// Whether the scope's handle is gone.
    pub dropped: bool,
    pub addr: usize,
    pub stamp: nat,
    pub content: ContentView,
}

/// Whether the flags say that the scope is closed.
pub open spec fn flags_closed(flags: usize) -> bool {
    flags & FLAG_CLOSED == FLAG_CLOSED
}

/// Whether the flags say that the scope's handle is gone.
pub open spec fn flags_dropped(flags: usize) -> bool {
    flags & FLAG_HANDLE_DROPPED == FLAG_HANDLE_DROPPED
}

proof fn lemma_flags(flags: usize)
    ensures
        flags_closed(flags | FLAG_CLOSED),
        flags_dropped(flags | FLAG_CLOSED) == flags_dropped(flags),
        flags_dropped(flags | FLAG_HANDLE_DROPPED),
        flags_closed(flags | FLAG_HANDLE_DROPPED) == flags_closed(flags),
        !flags_closed(0),
        !flags_dropped(0),
{
    assert((flags | 1) & 1 == 1 && (flags | 1) & 2 == flags & 2 && (flags | 2) & 2 == 2 && (flags
        | 2) & 1 == flags & 1 && 0usize & 1 == 0 && 0usize & 2 == 0) by (bit_vector);
}

impl View for ScopeNode {
    type V = NodeView;

    open spec fn view(&self) -> NodeView {
        NodeView {
            parent: self.node_base_@.parent,
            children: self.children_@,
            closed: flags_closed(self.scope_ext_.flags_),
            dropped: flags_dropped(self.scope_ext_.flags_),
            addr: self.scope_ext_.addr_,
            stamp: self.stamp_@,
            content: self.scope_ext_.content_@,
        }
    }
}

impl NodeView {
    /// A scope that was just opened.
    pub open spec fn fresh(parent: Option<NodeId>, addr: usize, stamp: nat) -> Self {
        NodeView {
            parent,
            children: Seq::empty(),
            closed: false,
            dropped: false,
            addr,
            stamp,
            content: ContentView::empty(),
        }
    }
}

impl ScopeNode {
    /// An empty scope below `parent`, not yet among its children.
    pub(crate) fn child_of_(parent: Option<NodeId>, addr: usize, Ghost(stamp): Ghost<nat>) -> (r: Self)
        ensures
            r@ == NodeView::fresh(parent, addr, stamp),
            r.node_base_@ == (BaseView { parent, child_head: None, child_tail: None }),
            r.scope_ext_.prev_sibling_ is None,
            r.scope_ext_.next_sibling_ is None,
            r.scope_ext_.pending_next_ is None,
            r.scope_ext_.content_.wf(),
    {
        proof {
            lemma_flags(0);
        }
        ScopeNode {
            node_base_: TreeNodeBase::new(parent),
            scope_ext_: ScopeNodeExt {
                flags_: 0,
                prev_sibling_: None,
                next_sibling_: None,
                pending_next_: None,
                addr_: addr,
                content_: ScopeContent::new(),
            },
            children_: Ghost(Seq::empty()),
            stamp_: Ghost(stamp),
        }
    }

    /// Whether there is a scope above.
    pub fn has_parent_(&self) -> (r: bool)
        ensures
            r == self@.parent is Some,
    {
        self.node_base_.parent().is_some()
    }

    pub fn is_closed_(&self) -> (r: bool)
        ensures
            r == self@.closed,
    {
        self.scope_ext_.flags_ & FLAG_CLOSED == FLAG_CLOSED
    }

    pub fn is_handle_dropped_(&self) -> (r: bool)
        ensures
            r == self@.dropped,
    {
        self.scope_ext_.flags_ & FLAG_HANDLE_DROPPED == FLAG_HANDLE_DROPPED
    }

    /// Notes that the scope's handle is gone.
    pub fn mark_handle_dropped_(&mut self)
        ensures
            final(self)@ == (NodeView { dropped: true, ..old(self)@ }),
            final(self).node_base_ == old(self).node_base_,
            final(self).scope_ext_ == (ScopeNodeExt {
                flags_: final(self).scope_ext_.flags_,
                ..old(self).scope_ext_
            }),
    {
        proof {
            lemma_flags(self.scope_ext_.flags_);
        }
        self.scope_ext_.flags_ = self.scope_ext_.flags_ | FLAG_HANDLE_DROPPED;
    }

    /// Notes that the scope is closed.
    pub fn mark_closed_(&mut self)
        ensures
            final(self)@ == (NodeView { closed: true, ..old(self)@ }),
            final(self).node_base_ == old(self).node_base_,
            final(self).scope_ext_ == (ScopeNodeExt {
                flags_: final(self).scope_ext_.flags_,
                ..old(self).scope_ext_
            }),
    {
        proof {
            lemma_flags(self.scope_ext_.flags_);
        }
        self.scope_ext_.flags_ = self.scope_ext_.flags_ | FLAG_CLOSED;
    }

    /// How many bytes are left in the last pool.
    pub fn free_size(&self) -> (r: usize)
        requires
            self.scope_ext_.content_.wf(),
        ensures
            r == (if self@.content.pools.len() == 0 {
                0
            } else {
                self@.content.pools.last().end() - self@.content.pools.last().free_start()
            }),
    {
        self.scope_ext_.content_.free_size()
    }

    /// Places a block of this layout in the last pool or, where it does not fit, in a new one.
    /// Fails where the block needs more cells than a pool can have, or where there is no memory
    /// for the pool.
    pub fn allocate<A: TrAllocator>(&mut self, layout: Layout, alloc: &mut A) -> (r: Result<
        usize,
        AllocError,
    >)
        requires
            old(self).scope_ext_.content_.wf(),
            old(alloc).wf(),
            layout.wf(),
        ensures
            final(self).scope_ext_.content_.wf(),
            final(alloc).wf(),
            ({
                let grant = old(alloc).grants(opened_layout(layout));
                let (addr, pools) = placed(old(self)@.content.pools, layout, grant);
                &&& r == (match addr {
                    Some(addr) => Ok(addr),
                    None => Err(AllocError),
                })
                &&& r matches Ok(addr) ==> lies_in(pools.last(), addr, layout)
                &&& final(self)@ == (NodeView {
                    content: ContentView { pools, ..old(self)@.content },
                    ..old(self)@
                })
                &&& if asks_for_pool(old(self)@.content.pools, layout) && grant is Some {
                    &&& !old(alloc).blocks().contains_key(grant->0)
                    &&& clear_of(old(alloc).blocks(), grant->0, opened_layout(layout))
                    &&& grant->0 % 8 == 0
                    &&& grant->0 + opened_layout(layout).size <= usize::MAX
                    &&& final(alloc).blocks() == old(alloc).blocks().insert(
                        grant->0,
                        opened_layout(layout),
                    )
                } else {
                    final(alloc).blocks() == old(alloc).blocks()
                }
                &&& *final(alloc) == after_placing(*old(alloc), old(self)@.content.pools, layout)
            }),
            final(self).node_base_ == old(self).node_base_,
            final(self).scope_ext_ == (ScopeNodeExt {
                content_: final(self).scope_ext_.content_,
                ..old(self).scope_ext_
            }),
    {
        self.scope_ext_.content_.allocate(layout, alloc)
    }
}

/// Which blocks a pool is opened for: every one of half a megabyte with what is skipped to align
/// it, and none that the largest number of cells cannot hold. The pool is of the default size
/// unless the block needs more, and then little larger than the block.
pub proof fn law_which_blocks_fit(layout: Layout)
    requires
        layout.wf(),
    ensures
        layout.size + layout.align <= 524_200 ==> cells_for(layout) <= PoolIndex::MAX,
        layout.size > 524_280 ==> cells_for(layout) > PoolIndex::MAX,
        cells_for(layout) >= 2048,
        cells_for(layout) * 8 >= layout.size,
        layout.size + layout.align <= 16_000 ==> cells_for(layout) == 2048,
        cells_for(layout) == 2048 || cells_for(layout) * 8 <= layout.size + layout.align + 40,
        layout.align <= 8 ==> cells_for(layout) == 2048 || cells_for(layout) * 8 <= layout.size
            + 31,
{
    law_ceil_div(STRONG_POOL_HEAD + layout.size, DEFAULT_CELL_SIZE as int);
    law_ceil_div(layout.size + skipped(layout.align as int), DEFAULT_CELL_SIZE as int);
}

/// The allocator is asked for a pool exactly where a block does not fit into the last one and a
/// pool can hold it, and for nothing else.
pub proof fn law_memory_is_asked_when_needed<A: TrAllocator>(
    alloc: A,
    pools: Seq<ScopePool>,
    layout: Layout,
)
    ensures
        ({
            let fits = pools.len() > 0 && pools.last().fits(layout);
            &&& asks_for_pool(pools, layout) <==> !fits && cells_for(layout) <= 65_535
            &&& after_placing(alloc, pools, layout) == (if !fits && cells_for(layout) <= 65_535 {
                alloc.asked(opened_layout(layout))
            } else {
                alloc
            })
            &&& cells_for(layout) <= 65_535 ==> opened_layout(layout).size == 16 + cells_for(layout)
                * 8 && opened_layout(layout).align == 8
        }),
{
}

} // verus!
