//! A whole tree of scopes with all its objects, as it is spoken of in contracts: what holds of
//! it at all times, and what the operations make of it.

use vstd::prelude::*;

use typeid::ConstTypeId;

use crate::mem_::{apart, clear_of, Layout, TrAllocator};
use crate::ptr_::{ChunkPtr, SlotPtr, POOL_LIMIT};
use crate::strong_::chunk_::{noted_record, HeadView, StrongChunk, StrongChunkState};
use crate::weak_::chain_::{
    chain_wf, grown, in_use, lemma_grown_chain, lemma_returned_chain, lemma_taken_chain,
    lemma_with_slot_chain, next_slot, returned, slot_of, taken, with_slot, ChainView,
};
use crate::weak_::chunk_::{sharing_result, DataState, SlotView};
use crate::weak_::pool_::{free_at, pool_layout, PoolView, DEFAULT_SLOT_COUNT};
use crate::weak_::pre_drop_::PreDropRecord;

use super::node_::{
    asks_for_pool, node_layout, opened_layout, placed, ContentView, NodeId, NodeView, ScopePool,
};
use super::order_::TreeView;
use super::tree_::lemma_tree_kept;

verus! {

/// The block of an object: its data, until that is destroyed, and what is done before.
pub struct ChunkCell<V, H> {
    pub chunk_: Option<StrongChunk<V>>,
    pub record_: PreDropRecord<H>,
    /// The scope that the object was placed in.
    pub owner_: NodeId,
    /// Where in that scope's pools it was placed.
    pub addr_: usize,
}

/// An object as it is spoken of in contracts.
#[verifier::reject_recursive_types(H)]
pub struct CellView<V, H> {
    /// The data, until it is destroyed.
    pub data: Option<V>,
    pub head: HeadView,
    pub record: PreDropRecord<H>,
    pub owner: NodeId,
    pub addr: usize,
}

/// The head of a chunk whose data is gone.
pub open spec fn no_head() -> HeadView {
    HeadView {
        head_offset: 0,
        next_offset: 0,
        state: StrongChunkState::Desert,
        count: 0,
        weak: SlotPtr::null(),
    }
}

impl<V, H> View for ChunkCell<V, H> {
    type V = CellView<V, H>;

    open spec fn view(&self) -> CellView<V, H> {
        CellView {
            data: match self.chunk_ {
                Some(chunk) => Some(chunk.data_),
                None => None,
            },
            head: match self.chunk_ {
                Some(chunk) => chunk.chunk_head_@,
                None => no_head(),
            },
            record: self.record_,
            owner: self.owner_,
            addr: self.addr_,
        }
    }
}

/// What a block of memory is used for.
pub enum BlockUse {
    /// The root.
    Root,
    /// A scope.
    Node(NodeId),
    /// A pool of a scope, by its place among the scope's pools.
    Strong(NodeId, int),
    /// A pool of weak slots, by its place in the chain.
    Weak(int),
}

/// What the size of the root's block is.
pub const ROOT_SIZE: usize = 168;

/// The layout of the root's block.
pub open spec fn root_layout() -> Layout {
    Layout { size: ROOT_SIZE, align: 8 }
}

/// The key of the chunk at `c`.
pub open spec fn key(c: ChunkPtr) -> usize {
    (c.raw - 1) as usize
}

/// Where the chunk with the key `k` is.
pub open spec fn ptr(k: usize) -> ChunkPtr {
    ChunkPtr { raw: (k + 1) as usize }
}

/// A tree of scopes with all its objects.
#[verifier::ext_equal]
#[verifier::reject_recursive_types(V)]
#[verifier::reject_recursive_types(H)]
pub struct RootView<V, H> {
    pub tree: TreeView,
    /// The pools of weak slots.
    pub pools: ChainView<H>,
    /// The objects, by the keys of their chunks.
    pub cells: Map<usize, CellView<V, H>>,
    /// The scopes that the weak slots of objects belong to.
    pub homes: Map<SlotPtr, NodeId>,
    /// The hooks that types were given.
    pub hooks: Map<ConstTypeId, PreDropRecord<H>>,
    /// The blocks of memory that are handed out, and what this tree uses them for.
    pub blocks: Map<usize, Layout>,
    pub uses: Map<usize, BlockUse>,
    /// The address of the root's block.
    pub addr: usize,
    /// Whether nothing may be put into a closed scope.
    pub strict: bool,
}

impl<V, H: Copy> RootView<V, H> {
    /// The weak slots of the objects in the scope `n`.
    pub open spec fn live(&self, n: NodeId) -> Seq<SlotPtr> {
        self.tree.nodes[n].content.live
    }

    /// The objects in the scope `n`.
    pub open spec fn objects(&self, n: NodeId) -> Seq<ChunkPtr> {
        self.tree.nodes[n].content.objects
    }

    /// The pools of the scope `n`.
    pub open spec fn scope_pools(&self, n: NodeId) -> Seq<ScopePool> {
        self.tree.nodes[n].content.pools
    }

    /// The weak slot at `p`.
    pub open spec fn slot(&self, p: SlotPtr) -> SlotView<H> {
        slot_of(self.pools, p)
    }

    /// The object whose weak slot is at `p`.
    pub open spec fn cell_of(&self, p: SlotPtr) -> CellView<V, H> {
        self.cells[key(self.slot(p).strong)]
    }

    /// The slot at `p` and its object know each other, and the object's data is there.
    pub open spec fn bound_ok(&self, p: SlotPtr) -> bool {
        let s = self.slot(p);
        let cell = self.cell_of(p);
        &&& s.strong != ChunkPtr::null()
        &&& self.cells.contains_key(key(s.strong))
        &&& cell.owner == self.homes[p]
        &&& cell.data is Some
        &&& cell.head.weak == p
        &&& s.record == noted_record(cell.record)
        &&& s.state == DataState::Sharing <==> cell.head.count > 0
        &&& cell.head.state == (if cell.head.count > 0 {
            StrongChunkState::Sharing
        } else {
            StrongChunkState::Owning
        })
    }

    /// A slot that belongs to an object of a scope.
    pub open spec fn slot_ok(&self, p: SlotPtr) -> bool {
        let s = self.slot(p);
        &&& in_use(self.pools, p)
        &&& !s.locked
        &&& s.state.alive() || s.state == DataState::Destroyed
        &&& s.state.alive() ==> self.bound_ok(p)
    }

    /// A slot in use that belongs to no object of a scope: either it has outlived its scope, or
    /// it was never given an object.
    pub open spec fn stray_ok(&self, p: SlotPtr) -> bool {
        let s = self.slot(p);
        &&& !s.locked
        &&& {
            ||| s.state == DataState::Zombie && s.count > 0
            ||| s.state == DataState::Reclaimed && s.count == 0
        }
    }

    /// The `i`-th slot of the scope `n` is at home there and knows its neighbours.
    pub open spec fn live_at(&self, n: NodeId, i: int) -> bool {
        let live = self.live(n);
        &&& self.homes.contains_key(live[i])
        &&& self.homes[live[i]] == n
        &&& self.slot(live[i]).prev_live == (if i == 0 {
            SlotPtr::null()
        } else {
            live[i - 1]
        })
        &&& self.slot(live[i]).next_live == (if i == live.len() - 1 {
            SlotPtr::null()
        } else {
            live[i + 1]
        })
    }

    /// An object is among those of its scope; where it has a weak slot, the slot knows it.
    pub open spec fn cell_ok(&self, k: usize) -> bool {
        let cell = self.cells[k];
        &&& k < usize::MAX
        &&& self.tree.nodes.contains_key(cell.owner)
        &&& self.objects(cell.owner).contains(ptr(k))
        &&& cell.data is Some && cell.head.weak != SlotPtr::null() ==> {
            &&& self.homes.contains_key(cell.head.weak)
            &&& self.slot(cell.head.weak).state.alive()
            &&& self.slot(cell.head.weak).strong == ptr(k)
        }
        &&& cell.data is Some && cell.head.weak == SlotPtr::null() ==> {
            &&& cell.head.count == 0
            &&& cell.head.state == StrongChunkState::Owning
        }
    }

    /// The `i`-th object of the scope `n` is there, and belongs to the scope.
    pub open spec fn object_at(&self, n: NodeId, i: int) -> bool {
        let c = self.objects(n)[i];
        &&& c != ChunkPtr::null()
        &&& self.cells.contains_key(key(c))
        &&& self.cells[key(c)].owner == n
    }

    /// The scopes' slots are theirs alone, chained in the order in which they came.
    pub open spec fn live_wf(&self) -> bool {
        &&& forall|p: SlotPtr| #[trigger]
            self.homes.contains_key(p) ==> {
                &&& self.slot_ok(p)
                &&& self.tree.nodes.contains_key(self.homes[p])
                &&& self.live(self.homes[p]).contains(p)
            }
        &&& forall|p: SlotPtr| #[trigger]
            in_use(self.pools, p) && !self.homes.contains_key(p) ==> self.stray_ok(p)
        &&& forall|n: NodeId, i: int|
            self.tree.nodes.contains_key(n) && 0 <= i < self.live(n).len()
                ==> #[trigger] self.live_at(n, i)
        &&& forall|n: NodeId| #[trigger]
            self.tree.nodes.contains_key(n) ==> self.live(n).no_duplicates()
    }

    /// The objects are those of the scopes.
    pub open spec fn cells_wf(&self) -> bool {
        &&& forall|k: usize| #[trigger] self.cells.contains_key(k) ==> self.cell_ok(k)
        &&& forall|n: NodeId, i: int|
            self.tree.nodes.contains_key(n) && 0 <= i < self.objects(n).len()
                ==> #[trigger] self.object_at(n, i)
        &&& forall|n: NodeId| #[trigger]
            self.tree.nodes.contains_key(n) ==> self.objects(n).no_duplicates()
    }

    /// The block at `a` is used as noted.
    pub open spec fn use_ok(&self, a: usize) -> bool {
        &&& self.blocks.contains_key(a)
        &&& match self.uses[a] {
            BlockUse::Root => a == self.addr && self.blocks[a] == root_layout(),
            BlockUse::Node(n) => {
                &&& self.tree.nodes.contains_key(n)
                &&& n != self.tree.root
                &&& self.tree.nodes[n].addr == a
                &&& self.blocks[a] == node_layout()
            },
            BlockUse::Strong(n, i) => {
                &&& self.tree.nodes.contains_key(n)
                &&& 0 <= i < self.scope_pools(n).len()
                &&& self.scope_pools(n)[i].addr_ == a
                &&& self.blocks[a] == ScopePool::layout_spec(self.scope_pools(n)[i].cell_count_)
            },
            BlockUse::Weak(i) => {
                &&& 0 <= i < self.pools.len()
                &&& self.pools[i].addr == a
                &&& self.blocks[a] == pool_layout(self.pools[i].slots.len() as u16)
            },
        }
    }

    /// Whether the block at `a` is used so.
    pub open spec fn uses_as(&self, a: usize, u: BlockUse) -> bool {
        self.uses.contains_key(a) && self.uses[a] == u
    }

    /// The blocks of the tree at `a` and at `b` share no byte.
    pub open spec fn apart_at(&self, a: usize, b: usize) -> bool {
        self.uses.contains_key(a) && self.uses.contains_key(b) && a != b ==> apart(
            a,
            self.blocks[a],
            b,
            self.blocks[b],
        )
    }

    /// Everything in the tree has a block of its own, and no two of them share a byte.
    pub open spec fn blocks_wf(&self) -> bool {
        &&& forall|a: usize| #[trigger] self.uses.contains_key(a) ==> self.use_ok(a)
        &&& forall|a: usize, b: usize| #[trigger] self.apart_at(a, b)
        &&& self.uses_as(self.addr, BlockUse::Root)
        &&& forall|n: NodeId| #[trigger]
            self.tree.nodes.contains_key(n) && n != self.tree.root ==> self.uses_as(
                self.tree.nodes[n].addr,
                BlockUse::Node(n),
            )
        &&& forall|n: NodeId, i: int|
            self.tree.nodes.contains_key(n) && 0 <= i < self.scope_pools(n).len() ==> self.uses_as(
                (#[trigger] self.scope_pools(n)[i]).addr_,
                BlockUse::Strong(n, i),
            )
        &&& forall|i: int|
            0 <= i < self.pools.len() ==> self.uses_as(
                (#[trigger] self.pools[i]).addr,
                BlockUse::Weak(i),
            )
    }

    pub open spec fn wf(&self) -> bool {
        &&& self.tree.wf()
        &&& chain_wf(self.pools, self.addr)
        &&& self.live_wf()
        &&& self.cells_wf()
        &&& self.blocks_wf()
        &&& self.addr > 0
    }

    /// The tree with the weak slot at `p` replaced.
    pub open spec fn with_slot(&self, p: SlotPtr, s: SlotView<H>) -> Self {
        RootView { pools: with_slot(self.pools, p, s), ..*self }
    }

    /// The tree with the object `k` replaced.
    pub open spec fn with_cell(&self, k: usize, cell: CellView<V, H>) -> Self {
        RootView { cells: self.cells.insert(k, cell), ..*self }
    }

    /// Whether a weak handle may point at the slot at `p`.
    pub open spec fn holds_weak(&self, p: SlotPtr) -> bool {
        in_use(self.pools, p) && self.slot(p).count > 0
    }

    /// The tree with another number of weak handles that point at `p`.
    pub open spec fn with_count(&self, p: SlotPtr, count: u32) -> Self {
        self.with_slot(p, SlotView { count, ..self.slot(p) })
    }

    /// The tree with the slot at `p` in another state.
    pub open spec fn with_state(&self, p: SlotPtr, state: DataState) -> Self {
        self.with_slot(p, SlotView { state, ..self.slot(p) })
    }

    /// The tree after the data of the object `k` was destroyed.
    pub open spec fn with_dead_cell(&self, k: usize) -> Self {
        self.with_cell(k, CellView { data: None, head: no_head(), ..self.cells[k] })
    }

    /// The tree after the data of the object whose slot is at `p` was destroyed.
    pub open spec fn with_destroyed(&self, p: SlotPtr) -> Self {
        self.with_state(p, DataState::Destroyed).with_dead_cell(key(self.slot(p).strong))
    }

    /// Whether the data at `c` is there for a single owner who never asked for a weak handle.
    pub open spec fn holds_direct(&self, c: ChunkPtr) -> bool {
        &&& c != ChunkPtr::null()
        &&& self.cells.contains_key(key(c))
        &&& self.cells[key(c)].data is Some
        &&& self.cells[key(c)].head.weak == SlotPtr::null()
    }

    /// The tree with the data of the object `k` replaced.
    pub open spec fn with_data(&self, k: usize, data: V) -> Self {
        self.with_cell(k, CellView { data: Some(data), ..self.cells[k] })
    }

    /// The tree after a weak handle at `p` went. The last one takes data with it that nobody
    /// holds strongly, and gives back a slot that has outlived its scope.
    pub open spec fn with_weak_dropped(&self, p: SlotPtr) -> Self {
        let s = self.slot(p);
        if s.count > 1 {
            self.with_count(p, (s.count - 1) as u32)
        } else if s.state == DataState::Zombie {
            self.with_returned(p)
        } else if s.state == DataState::Created {
            self.with_count(p, 0).with_destroyed(p)
        } else {
            self.with_count(p, 0)
        }
    }

    /// Whether the data goes when a weak handle at `p` goes.
    pub open spec fn weak_drop_destroys(&self, p: SlotPtr) -> bool {
        self.slot(p).count == 1 && self.slot(p).state == DataState::Created
    }

    /// The tree after the single owner of the object at `p` went: the data stays as long as a
    /// weak handle is left.
    pub open spec fn with_owner_dropped(&self, p: SlotPtr) -> Self {
        let s = self.slot(p);
        if s.state != DataState::Owning {
            *self
        } else if s.count > 0 {
            self.with_state(p, DataState::Created)
        } else {
            self.with_destroyed(p)
        }
    }

    /// Whether the data goes when the single owner of the object at `p` goes.
    pub open spec fn owner_drop_destroys(&self, p: SlotPtr) -> bool {
        self.slot(p).state == DataState::Owning && self.slot(p).count == 0
    }

    /// The head of a chunk with this many sharers.
    pub open spec fn shared_head(&self, p: SlotPtr, count: u32) -> HeadView {
        HeadView {
            state: if count > 0 {
                StrongChunkState::Sharing
            } else {
                StrongChunkState::Owning
            },
            count,
            ..self.cell_of(p).head
        }
    }

    /// The tree with another number of sharers of the object at `p`.
    pub open spec fn with_sharers(&self, p: SlotPtr, state: DataState, count: u32) -> Self {
        let k = key(self.slot(p).strong);
        self.with_state(p, state).with_cell(
            k,
            CellView { head: self.shared_head(p, count), ..self.cells[k] },
        )
    }

    /// The tree after one more sharer of the object at `p` came, if it may come.
    pub open spec fn with_sharer(&self, p: SlotPtr) -> Self {
        if sharing_result(self.slot(p)) is Ok {
            self.with_sharers(p, DataState::Sharing, (self.cell_of(p).head.count + 1) as u32)
        } else {
            *self
        }
    }

    /// The tree after a sharer of the object at `p` went. With the last one the data stays as
    /// long as a weak handle is left.
    pub open spec fn with_sharer_dropped(&self, p: SlotPtr) -> Self {
        let s = self.slot(p);
        if s.state != DataState::Sharing {
            *self
        } else {
            let count = (self.cell_of(p).head.count - 1) as u32;
            if count > 0 {
                self.with_sharers(p, DataState::Sharing, count)
            } else if s.count > 0 {
                self.with_sharers(p, DataState::Created, 0)
            } else {
                self.with_destroyed(p)
            }
        }
    }

    /// Whether the data goes when a sharer of the object at `p` goes.
    pub open spec fn sharer_drop_destroys(&self, p: SlotPtr) -> bool {
        self.slot(p).state == DataState::Sharing && self.cell_of(p).head.count == 1 && self.slot(
            p,
        ).count == 0
    }

    /// The tree with what is in the scope `n` replaced.
    pub open spec fn with_content(&self, n: NodeId, content: ContentView) -> Self {
        RootView { tree: self.tree.with_content(n, content), ..*self }
    }

    /// The tree after an object with the data `data` was placed at `addr` in the scope `n`,
    /// under the key `k`. It has no weak slot.
    pub open spec fn with_object(
        &self,
        n: NodeId,
        k: usize,
        data: V,
        record: PreDropRecord<H>,
        addr: usize,
    ) -> Self {
        let content = self.tree.nodes[n].content;
        self.with_content(
            n,
            ContentView { objects: content.objects.push(ptr(k)), ..content },
        ).with_cell(
            k,
            CellView {
                data: Some(data),
                head: HeadView {
                    head_offset: 0,
                    next_offset: 0,
                    state: StrongChunkState::Owning,
                    count: 0,
                    weak: SlotPtr::null(),
                },
                record,
                owner: n,
                addr,
            },
        )
    }

    /// The pools after the slot at `p` was chained behind the last of `live`.
    pub open spec fn chained(&self, live: Seq<SlotPtr>, p: SlotPtr) -> ChainView<H> {
        if live.len() == 0 {
            self.pools
        } else {
            with_slot(
                self.pools,
                live.last(),
                SlotView { next_live: p, ..self.slot(live.last()) },
            )
        }
    }

    /// The slot at `p` when it was given to the object `k` as the last of `live`, with one weak
    /// handle.
    pub open spec fn adopted_slot(
        &self,
        live: Seq<SlotPtr>,
        p: SlotPtr,
        k: usize,
        state: DataState,
        meta: usize,
    ) -> SlotView<H> {
        SlotView {
            locked: false,
            state,
            count: 1,
            prev_live: if live.len() == 0 {
                SlotPtr::null()
            } else {
                live.last()
            },
            next_live: SlotPtr::null(),
            strong: ptr(k),
            record: noted_record(self.cells[k].record),
            meta,
            ..self.slot(p)
        }
    }

    /// The tree after the object `k`, which had no weak slot, was given the one at `p`.
    pub open spec fn with_adopted(&self, p: SlotPtr, k: usize, state: DataState, meta: usize)
        -> Self {
        let cell = self.cells[k];
        let n = cell.owner;
        let content = self.tree.nodes[n].content;
        RootView {
            tree: self.tree.with_content(
                n,
                ContentView { live: content.live.push(p), ..content },
            ),
            pools: with_slot(
                self.chained(content.live, p),
                p,
                self.adopted_slot(content.live, p, k, state, meta),
            ),
            cells: self.cells.insert(
                k,
                CellView { head: HeadView { weak: p, ..cell.head }, ..cell },
            ),
            homes: self.homes.insert(p, n),
            ..*self
        }
    }

    /// The tree after a pool of weak slots at `addr` was put behind the others.
    pub open spec fn with_weak_pool(&self, addr: usize) -> Self {
        RootView {
            pools: grown(self.pools, addr, DEFAULT_SLOT_COUNT, self.addr),
            blocks: self.blocks.insert(addr, pool_layout(DEFAULT_SLOT_COUNT)),
            uses: self.uses.insert(addr, BlockUse::Weak(self.pools.len() as int)),
            ..*self
        }
    }

    /// The tree with the pools of the scope `n` replaced; `block` is the block of the last of
    /// them, where it is new.
    pub open spec fn with_scope_pools(
        &self,
        n: NodeId,
        pools: Seq<ScopePool>,
        block: Option<(usize, Layout)>,
    ) -> Self {
        let s = self.with_content(n, ContentView { pools, ..self.tree.nodes[n].content });
        match block {
            None => s,
            Some((addr, layout)) => RootView {
                blocks: s.blocks.insert(addr, layout),
                uses: s.uses.insert(addr, BlockUse::Strong(n, self.scope_pools(n).len() as int)),
                ..s
            },
        }
    }

    /// The block of the pool that is opened in the scope `n` for a block of this layout, if one
    /// is opened.
    pub open spec fn block_for(&self, n: NodeId, layout: Layout, grant: Option<usize>) -> Option<
        (usize, Layout),
    > {
        if asks_for_pool(self.scope_pools(n), layout) && grant is Some {
            Some((grant->0, opened_layout(layout)))
        } else {
            None
        }
    }

    /// The tree after a block of this layout was placed in the scope `n`, or could not be.
    pub open spec fn with_block(&self, n: NodeId, layout: Layout, grant: Option<usize>) -> Self {
        self.with_scope_pools(
            n,
            placed(self.scope_pools(n), layout, grant).1,
            self.block_for(n, layout, grant),
        )
    }

    /// The weak slot that is handed out next.
    pub open spec fn slot_to_take(&self) -> SlotPtr {
        if self.pools.last().free.len() > 0 {
            next_slot(self.pools)
        } else {
            SlotPtr::at(self.pools.len() as int, 0)
        }
    }

    /// Whether there is a weak slot to be handed out, in the last pool or in one that the
    /// allocator grants.
    pub open spec fn finds_slot<A: TrAllocator>(&self, memory: A) -> bool {
        self.pools.last().free.len() > 0 || slot_grant(memory) is Some
    }

    /// The allocator after a weak slot was asked for.
    pub open spec fn after_slot<A: TrAllocator>(&self, memory: A) -> A {
        if self.pools.last().free.len() > 0 {
            memory
        } else {
            memory.asked(pool_layout(DEFAULT_SLOT_COUNT))
        }
    }

    /// The tree when its last pool has a free weak slot; where that takes a new pool, it is at
    /// `addr`.
    pub open spec fn with_free_slot(&self, addr: usize) -> Self {
        if self.pools.last().free.len() > 0 {
            *self
        } else {
            self.with_weak_pool(addr)
        }
    }

    /// The tree after a weak slot was handed out; where that takes a new pool, it is at `addr`.
    pub open spec fn with_slot_taken(&self, addr: usize) -> Self {
        let s = self.with_free_slot(addr);
        RootView { pools: taken(s.pools), ..s }
    }

    /// The tree after the scope `c` was opened below `p`, in the block at `addr`.
    pub open spec fn with_child(&self, p: NodeId, c: NodeId, addr: usize) -> Self {
        RootView {
            tree: self.tree.with_child(p, c, addr),
            blocks: self.blocks.insert(addr, node_layout()),
            uses: self.uses.insert(addr, BlockUse::Node(c)),
            ..*self
        }
    }

    /// The tree after the weak slot at `p` went back to its pool.
    pub open spec fn with_returned(&self, p: SlotPtr) -> Self {
        RootView { pools: returned(self.pools, p), ..*self }
    }
}

/// Where a new pool of weak slots would be.
pub open spec fn slot_grant<A: TrAllocator>(memory: A) -> Option<usize> {
    memory.grants(pool_layout(DEFAULT_SLOT_COUNT))
}

/// The blocks are used as before when only slots and objects change.
proof fn lemma_blocks_kept<V, H: Copy>(a: RootView<V, H>, b: RootView<V, H>)
    requires
        a.blocks_wf(),
        b.blocks == a.blocks,
        b.uses == a.uses,
        b.addr == a.addr,
        b.tree.root == a.tree.root,
        b.tree.nodes.dom() == a.tree.nodes.dom(),
        forall|n: NodeId|
            #![trigger b.tree.nodes[n]]
            a.tree.nodes.contains_key(n) ==> b.tree.nodes[n].addr == a.tree.nodes[n].addr
                && b.scope_pools(n).len() == a.scope_pools(n).len(),
        forall|n: NodeId, i: int|
            #![trigger b.scope_pools(n)[i]]
            a.tree.nodes.contains_key(n) && 0 <= i < a.scope_pools(n).len()
                ==> b.scope_pools(n)[i].addr_ == a.scope_pools(n)[i].addr_ && b.scope_pools(
                n,
            )[i].cell_count_ == a.scope_pools(n)[i].cell_count_,
        b.pools.len() == a.pools.len(),
        forall|i: int|
            0 <= i < a.pools.len() ==> (#[trigger] b.pools[i]).addr == a.pools[i].addr
                && b.pools[i].slots.len() == a.pools[i].slots.len(),
    ensures
        b.blocks_wf(),
{
    assert forall|x: usize, y: usize| #[trigger] b.apart_at(x, y) by {
        assert(a.apart_at(x, y));
    }
    assert forall|x: usize| #[trigger] b.uses.contains_key(x) implies b.use_ok(x) by {
        assert(a.uses.contains_key(x) && a.use_ok(x));
        match b.uses[x] {
            BlockUse::Root => {},
            BlockUse::Node(n) => {
                assert(b.tree.nodes[n].addr == a.tree.nodes[n].addr);
            },
            BlockUse::Strong(n, i) => {
                assert(b.tree.nodes[n].addr == a.tree.nodes[n].addr);
                assert(b.scope_pools(n)[i].addr_ == a.scope_pools(n)[i].addr_);
            },
            BlockUse::Weak(i) => {
                assert(b.pools[i].addr == a.pools[i].addr);
            },
        }
    }
    assert forall|n: NodeId| #[trigger]
        b.tree.nodes.contains_key(n) && n != b.tree.root implies b.uses_as(
        b.tree.nodes[n].addr,
        BlockUse::Node(n),
    ) by {
        assert(a.tree.nodes.contains_key(n));
        assert(b.tree.nodes[n].addr == a.tree.nodes[n].addr);
    }
    assert forall|n: NodeId, i: int|
        b.tree.nodes.contains_key(n) && 0 <= i < b.scope_pools(n).len() implies b.uses_as(
        (#[trigger] b.scope_pools(n)[i]).addr_,
        BlockUse::Strong(n, i),
    ) by {
        assert(a.tree.nodes.contains_key(n));
        assert(b.tree.nodes[n].addr == a.tree.nodes[n].addr);
        assert(b.scope_pools(n)[i].addr_ == a.scope_pools(n)[i].addr_);
    }
    assert forall|i: int| 0 <= i < b.pools.len() implies b.uses_as(
        (#[trigger] b.pools[i]).addr,
        BlockUse::Weak(i),
    ) by {
        assert(b.pools[i].addr == a.pools[i].addr);
    }
}

/// What may become of an object with a weak slot: its data stays, and slot and head still agree
/// on who holds it; or its data is destroyed.
pub open spec fn object_step<V, H: Copy>(
    s: SlotView<H>,
    s2: SlotView<H>,
    c: CellView<V, H>,
    c2: CellView<V, H>,
    p: SlotPtr,
) -> bool {
    &&& s2.pool_order == s.pool_order
    &&& s2.prev_live == s.prev_live
    &&& s2.next_live == s.next_live
    &&& s2.strong == s.strong
    &&& !s2.locked
    &&& c2.owner == c.owner
    &&& {
        ||| {
            &&& s2.state.alive()
            &&& s2.record == s.record
            &&& c2.record == c.record
            &&& c2.data is Some
            &&& c2.head.weak == p
            &&& s2.state == DataState::Sharing <==> c2.head.count > 0
            &&& c2.head.state == (if c2.head.count > 0 {
                StrongChunkState::Sharing
            } else {
                StrongChunkState::Owning
            })
        }
        ||| s2.state == DataState::Destroyed && c2.data is None
    }
}

/// A step of one object keeps the tree sound.
pub proof fn lemma_object_step<V, H: Copy>(
    a: RootView<V, H>,
    p: SlotPtr,
    s2: SlotView<H>,
    c2: CellView<V, H>,
)
    requires
        a.wf(),
        a.homes.contains_key(p),
        a.slot(p).state.alive(),
        object_step(a.slot(p), s2, a.cell_of(p), c2, p),
    ensures
        a.with_slot(p, s2).with_cell(key(a.slot(p).strong), c2).wf(),
{
    let k = key(a.slot(p).strong);
    let b = a.with_slot(p, s2).with_cell(k, c2);
    assert(a.slot_ok(p));
    lemma_with_slot_chain(a.pools, a.addr, p, s2);
    assert forall|q: SlotPtr| #[trigger] b.homes.contains_key(q) implies {
        &&& b.slot_ok(q)
        &&& b.tree.nodes.contains_key(b.homes[q])
        &&& b.live(b.homes[q]).contains(q)
    } by {
        assert(a.homes.contains_key(q) && a.slot_ok(q));
        if q != p {
            assert(b.slot(q) == a.slot(q));
            if a.slot(q).state.alive() {
                assert(key(a.slot(q).strong) != k) by {
                    assert(a.cell_of(q).head.weak == q);
                }
            }
        }
    }
    assert forall|q: SlotPtr| #[trigger]
        in_use(b.pools, q) && !b.homes.contains_key(q) implies b.stray_ok(q) by {
        assert(in_use(a.pools, q) && !a.homes.contains_key(q));
        assert(a.stray_ok(q));
        assert(b.slot(q) == a.slot(q));
    }
    assert forall|n: NodeId, i: int|
        b.tree.nodes.contains_key(n) && 0 <= i < b.live(n).len() implies #[trigger] b.live_at(
        n,
        i,
    ) by {
        assert(a.live_at(n, i));
        let q = a.live(n)[i];
        assert(a.slot_ok(q));
        if q != p {
            assert(b.slot(q) == a.slot(q));
        }
    }
    assert forall|j: usize| #[trigger] b.cells.contains_key(j) implies b.cell_ok(j) by {
        assert(a.cells.contains_key(j) && a.cell_ok(j));
        let cell = a.cells[j];
        if j != k && cell.data is Some && cell.head.weak != SlotPtr::null() {
            let q = cell.head.weak;
            assert(a.slot_ok(q));
            assert(q != p) by {
                if q == p {
                    assert(ptr(j) == a.slot(p).strong);
                }
            }
            assert(b.slot(q) == a.slot(q));
        }
    }
    assert forall|n: NodeId, i: int|
        b.tree.nodes.contains_key(n) && 0 <= i < b.objects(n).len() implies #[trigger] b.object_at(
        n,
        i,
    ) by {
        assert(a.object_at(n, i));
    }
    lemma_blocks_kept(a, b);
}

/// An object's data may change, and an object without a weak slot may lose it.
pub proof fn lemma_data_changed<V, H: Copy>(a: RootView<V, H>, k: usize, c2: CellView<V, H>)
    requires
        a.wf(),
        a.cells.contains_key(k),
        c2.owner == a.cells[k].owner,
        ({
            ||| {
                &&& c2.record == a.cells[k].record
                &&& c2.head == a.cells[k].head
                &&& c2.data is Some == a.cells[k].data is Some
            }
            ||| a.cells[k].head.weak == SlotPtr::null() && c2.data is None
        }),
    ensures
        a.with_cell(k, c2).wf(),
{
    let b = a.with_cell(k, c2);
    assert(a.cell_ok(k));
    assert forall|q: SlotPtr| #[trigger] b.homes.contains_key(q) implies {
        &&& b.slot_ok(q)
        &&& b.tree.nodes.contains_key(b.homes[q])
        &&& b.live(b.homes[q]).contains(q)
    } by {
        assert(a.homes.contains_key(q) && a.slot_ok(q));
        if a.slot(q).state.alive() && key(a.slot(q).strong) == k {
            assert(a.cell_of(q).head.weak == q);
            assert(q != SlotPtr::null());
        }
    }
    assert forall|q: SlotPtr| #[trigger]
        in_use(b.pools, q) && !b.homes.contains_key(q) implies b.stray_ok(q) by {
        assert(a.stray_ok(q));
    }
    assert forall|n: NodeId, i: int|
        b.tree.nodes.contains_key(n) && 0 <= i < b.live(n).len() implies #[trigger] b.live_at(
        n,
        i,
    ) by {
        assert(a.live_at(n, i));
    }
    assert forall|j: usize| #[trigger] b.cells.contains_key(j) implies b.cell_ok(j) by {
        assert(a.cells.contains_key(j) && a.cell_ok(j));
    }
    assert forall|n: NodeId, i: int|
        b.tree.nodes.contains_key(n) && 0 <= i < b.objects(n).len() implies #[trigger] b.object_at(
        n,
        i,
    ) by {
        assert(a.object_at(n, i));
    }
    lemma_blocks_kept(a, b);
}

/// A slot whose data is destroyed may change its count.
pub proof fn lemma_dead_count<V, H: Copy>(a: RootView<V, H>, p: SlotPtr, count: u32)
    requires
        a.wf(),
        a.homes.contains_key(p),
        a.slot(p).state == DataState::Destroyed,
    ensures
        a.with_slot(p, SlotView { count, ..a.slot(p) }).wf(),
{
    let s2 = SlotView { count, ..a.slot(p) };
    assert(a.slot_ok(p));
    lemma_quiet_slot(a, p, s2);
}

/// A slot that outlived its scope may change its count, as long as a handle is left.
pub proof fn lemma_zombie_count<V, H: Copy>(a: RootView<V, H>, p: SlotPtr, count: u32)
    requires
        a.wf(),
        in_use(a.pools, p),
        a.slot(p).state == DataState::Zombie,
        count > 0,
    ensures
        a.with_slot(p, SlotView { count, ..a.slot(p) }).wf(),
        !a.homes.contains_key(p),
{
    let s2 = SlotView { count, ..a.slot(p) };
    if a.homes.contains_key(p) {
        assert(a.slot_ok(p));
    }
    assert(a.stray_ok(p));
    lemma_quiet_slot(a, p, s2);
}

/// A slot without live data may change in what nothing else looks at.
proof fn lemma_quiet_slot<V, H: Copy>(a: RootView<V, H>, p: SlotPtr, s2: SlotView<H>)
    requires
        a.wf(),
        in_use(a.pools, p),
        !a.slot(p).state.alive(),
        s2.pool_order == a.slot(p).pool_order,
        s2.prev_live == a.slot(p).prev_live,
        s2.next_live == a.slot(p).next_live,
        s2.state == a.slot(p).state,
        !s2.locked,
        !a.homes.contains_key(p) ==> a.with_slot(p, s2).stray_ok(p),
    ensures
        a.with_slot(p, s2).wf(),
{
    let b = a.with_slot(p, s2);
    lemma_with_slot_chain(a.pools, a.addr, p, s2);
    assert forall|q: SlotPtr| #[trigger] b.homes.contains_key(q) implies {
        &&& b.slot_ok(q)
        &&& b.tree.nodes.contains_key(b.homes[q])
        &&& b.live(b.homes[q]).contains(q)
    } by {
        assert(a.homes.contains_key(q) && a.slot_ok(q));
        if q != p {
            assert(b.slot(q) == a.slot(q));
        }
    }
    assert forall|q: SlotPtr| #[trigger]
        in_use(b.pools, q) && !b.homes.contains_key(q) implies b.stray_ok(q) by {
        assert(in_use(a.pools, q) && !a.homes.contains_key(q));
        if q != p {
            assert(a.stray_ok(q));
            assert(b.slot(q) == a.slot(q));
        }
    }
    assert forall|n: NodeId, i: int|
        b.tree.nodes.contains_key(n) && 0 <= i < b.live(n).len() implies #[trigger] b.live_at(
        n,
        i,
    ) by {
        assert(a.live_at(n, i));
        let q = a.live(n)[i];
        assert(a.slot_ok(q));
        if q != p {
            assert(b.slot(q) == a.slot(q));
        }
    }
    assert forall|j: usize| #[trigger] b.cells.contains_key(j) implies b.cell_ok(j) by {
        assert(a.cells.contains_key(j) && a.cell_ok(j));
        let cell = a.cells[j];
        if cell.data is Some && cell.head.weak != SlotPtr::null() {
            let q = cell.head.weak;
            assert(a.slot_ok(q));
            assert(q != p);
            assert(b.slot(q) == a.slot(q));
        }
    }
    assert forall|n: NodeId, i: int|
        b.tree.nodes.contains_key(n) && 0 <= i < b.objects(n).len() implies #[trigger] b.object_at(
        n,
        i,
    ) by {
        assert(a.object_at(n, i));
    }
    lemma_blocks_kept(a, b);
}

/// A slot that was just handed out may go back: the tree is then as if it had stayed free.
pub proof fn lemma_slot_released<V, H: Copy>(a: RootView<V, H>, addr: usize)
    requires
        a.wf(),
        a.with_slot_taken(addr).wf(),
        in_use(a.with_slot_taken(addr).pools, a.slot_to_take()),
        !a.homes.contains_key(a.slot_to_take()),
    ensures
        a.with_free_slot(addr).wf(),
        a.with_slot_taken(addr).with_returned(a.slot_to_take()) == a.with_free_slot(addr),
        !a.with_slot_taken(addr).slot(a.slot_to_take()).locked,
{
    let p = a.slot_to_take();
    let b = a.with_free_slot(addr);
    let pool = b.pools.last();
    lemma_zombie_returned(a.with_slot_taken(addr), p);
    assert(free_at(pool.slots, pool.free, 0)) by {
        if a.pools.last().free.len() > 0 {
            assert(a.pools[a.pools.len() - 1].wf());
        }
    }
    assert(pool.after_take().after_return(pool.free[0]) =~= pool);
    assert(returned(taken(b.pools), p) =~= b.pools);
}

/// A slot that outlived its scope may go back to its pool.
pub proof fn lemma_zombie_returned<V, H: Copy>(a: RootView<V, H>, p: SlotPtr)
    requires
        a.wf(),
        in_use(a.pools, p),
        !a.homes.contains_key(p),
    ensures
        a.with_returned(p).wf(),
{
    let b = a.with_returned(p);
    lemma_returned_chain(a.pools, a.addr, p);
    assert forall|q: SlotPtr| #[trigger] b.homes.contains_key(q) implies {
        &&& b.slot_ok(q)
        &&& b.tree.nodes.contains_key(b.homes[q])
        &&& b.live(b.homes[q]).contains(q)
    } by {
        assert(a.homes.contains_key(q) && a.slot_ok(q));
        assert(b.slot(q) == a.slot(q));
    }
    assert forall|q: SlotPtr| #[trigger]
        in_use(b.pools, q) && !b.homes.contains_key(q) implies b.stray_ok(q) by {
        assert(in_use(a.pools, q) && !a.homes.contains_key(q));
        assert(a.stray_ok(q));
        assert(b.slot(q) == a.slot(q));
    }
    assert forall|n: NodeId, i: int|
        b.tree.nodes.contains_key(n) && 0 <= i < b.live(n).len() implies #[trigger] b.live_at(
        n,
        i,
    ) by {
        assert(a.live_at(n, i));
        let q = a.live(n)[i];
        assert(a.slot_ok(q));
        assert(b.slot(q) == a.slot(q));
    }
    assert forall|j: usize| #[trigger] b.cells.contains_key(j) implies b.cell_ok(j) by {
        assert(a.cells.contains_key(j) && a.cell_ok(j));
        let cell = a.cells[j];
        if cell.data is Some && cell.head.weak != SlotPtr::null() {
            let q = cell.head.weak;
            assert(a.slot_ok(q));
            assert(b.slot(q) == a.slot(q));
        }
    }
    assert forall|n: NodeId, i: int|
        b.tree.nodes.contains_key(n) && 0 <= i < b.objects(n).len() implies #[trigger] b.object_at(
        n,
        i,
    ) by {
        assert(a.object_at(n, i));
    }
    lemma_blocks_kept(a, b);
}

/// A free slot may be handed out; it belongs to no object then.
pub proof fn lemma_slot_taken<V, H: Copy>(a: RootView<V, H>)
    requires
        a.wf(),
        a.pools.last().free.len() > 0,
    ensures
        (RootView { pools: taken(a.pools), ..a }).wf(),
        !a.homes.contains_key(next_slot(a.pools)),
{
    let b = RootView { pools: taken(a.pools), ..a };
    lemma_taken_chain(a.pools, a.addr);
    let p = next_slot(a.pools);
    if a.homes.contains_key(p) {
        assert(a.slot_ok(p));
    }
    assert forall|q: SlotPtr| #[trigger] b.homes.contains_key(q) implies {
        &&& b.slot_ok(q)
        &&& b.tree.nodes.contains_key(b.homes[q])
        &&& b.live(b.homes[q]).contains(q)
    } by {
        assert(a.homes.contains_key(q) && a.slot_ok(q));
        assert(b.slot(q) == a.slot(q));
    }
    assert forall|q: SlotPtr| #[trigger]
        in_use(b.pools, q) && !b.homes.contains_key(q) implies b.stray_ok(q) by {
        if q != p {
            assert(in_use(a.pools, q) && !a.homes.contains_key(q));
            assert(a.stray_ok(q));
            assert(b.slot(q) == a.slot(q));
        }
    }
    assert forall|n: NodeId, i: int|
        b.tree.nodes.contains_key(n) && 0 <= i < b.live(n).len() implies #[trigger] b.live_at(
        n,
        i,
    ) by {
        assert(a.live_at(n, i));
        let q = a.live(n)[i];
        assert(a.slot_ok(q));
        assert(b.slot(q) == a.slot(q));
    }
    assert forall|j: usize| #[trigger] b.cells.contains_key(j) implies b.cell_ok(j) by {
        assert(a.cells.contains_key(j) && a.cell_ok(j));
        let cell = a.cells[j];
        if cell.data is Some && cell.head.weak != SlotPtr::null() {
            let q = cell.head.weak;
            assert(a.slot_ok(q));
            assert(b.slot(q) == a.slot(q));
        }
    }
    assert forall|n: NodeId, i: int|
        b.tree.nodes.contains_key(n) && 0 <= i < b.objects(n).len() implies #[trigger] b.object_at(
        n,
        i,
    ) by {
        assert(a.object_at(n, i));
    }
    lemma_blocks_kept(a, b);
}

/// An object without a weak slot may be placed in a scope.
pub proof fn lemma_object_placed<V, H: Copy>(
    a: RootView<V, H>,
    n: NodeId,
    k: usize,
    data: V,
    record: PreDropRecord<H>,
    addr: usize,
)
    requires
        a.wf(),
        a.tree.nodes.contains_key(n),
        !a.cells.contains_key(k),
        k < usize::MAX,
    ensures
        a.with_object(n, k, data, record, addr).wf(),
{
    let b = a.with_object(n, k, data, record, addr);
    let content = ContentView { objects: a.objects(n).push(ptr(k)), ..a.tree.nodes[n].content };
    lemma_content_tree(a.tree, n, content);
    assert forall|q: SlotPtr| #[trigger] b.homes.contains_key(q) implies {
        &&& b.slot_ok(q)
        &&& b.tree.nodes.contains_key(b.homes[q])
        &&& b.live(b.homes[q]).contains(q)
    } by {
        assert(a.homes.contains_key(q) && a.slot_ok(q));
    }
    assert forall|q: SlotPtr| #[trigger]
        in_use(b.pools, q) && !b.homes.contains_key(q) implies b.stray_ok(q) by {
        assert(a.stray_ok(q));
    }
    assert forall|m: NodeId, i: int|
        b.tree.nodes.contains_key(m) && 0 <= i < b.live(m).len() implies #[trigger] b.live_at(
        m,
        i,
    ) by {
        assert(a.live_at(m, i));
    }
    assert(b.objects(n)[a.objects(n).len() as int] == ptr(k));
    assert forall|j: usize| #[trigger] b.cells.contains_key(j) implies b.cell_ok(j) by {
        if j != k {
            assert(a.cells.contains_key(j) && a.cell_ok(j));
            if a.cells[j].owner == n {
                let i = choose|i: int| 0 <= i < a.objects(n).len() && a.objects(n)[i] == ptr(j);
                assert(b.objects(n)[i] == ptr(j));
            }
        }
    }
    assert(!a.objects(n).contains(ptr(k))) by {
        if a.objects(n).contains(ptr(k)) {
            let i = choose|i: int| 0 <= i < a.objects(n).len() && a.objects(n)[i] == ptr(k);
            assert(a.object_at(n, i));
        }
    }
    assert forall|m: NodeId, i: int|
        b.tree.nodes.contains_key(m) && 0 <= i < b.objects(m).len() implies #[trigger] b.object_at(
        m,
        i,
    ) by {
        if !(m == n && i == a.objects(n).len()) {
            assert(a.object_at(m, i));
        }
    }
    assert(b.tree.nodes.dom() =~= a.tree.nodes.dom());
    lemma_blocks_kept(a, b);
}

/// An object that has no weak slot may be given one that belongs to none.
pub proof fn lemma_adopted<V, H: Copy>(
    a: RootView<V, H>,
    p: SlotPtr,
    k: usize,
    state: DataState,
    meta: usize,
)
    requires
        a.wf(),
        in_use(a.pools, p),
        !a.homes.contains_key(p),
        a.cells.contains_key(k),
        a.cells[k].data is Some,
        a.cells[k].head.weak == SlotPtr::null(),
        state == DataState::Created || state == DataState::Owning,
    ensures
        a.with_adopted(p, k, state, meta).wf(),
{
    let b = a.with_adopted(p, k, state, meta);
    let n = a.cells[k].owner;
    let live = a.live(n);
    let content = ContentView { live: live.push(p), ..a.tree.nodes[n].content };
    assert(a.cell_ok(k));
    assert(a.stray_ok(p));
    lemma_content_tree(a.tree, n, content);
    let mid = a.chained(live, p);
    if live.len() > 0 {
        let last = live.last();
        assert(a.live_at(n, live.len() - 1));
        assert(a.slot_ok(last));
        lemma_with_slot_chain(a.pools, a.addr, last, SlotView { next_live: p, ..a.slot(last) });
        assert(last != p);
    }
    let s2 = a.adopted_slot(live, p, k, state, meta);
    assert(slot_of(mid, p) == a.slot(p));
    lemma_with_slot_chain(mid, a.addr, p, s2);
    assert(!live.contains(p)) by {
        if live.contains(p) {
            let i = choose|i: int| 0 <= i < live.len() && live[i] == p;
            assert(a.live_at(n, i));
        }
    }
    assert(p != SlotPtr::null());
    assert(b.live(n)[live.len() as int] == p);
    // Every other slot is as it was, but for the link of the one before.
    assert forall|q: SlotPtr| in_use(a.pools, q) && q != p implies {
        &&& #[trigger] b.slot(q) == SlotView { next_live: b.slot(q).next_live, ..a.slot(q) }
        &&& !(live.len() > 0 && q == live.last()) ==> b.slot(q) == a.slot(q)
        &&& live.len() > 0 && q == live.last() ==> b.slot(q).next_live == p
    } by {
        assert(in_use(mid, q));
        assert(slot_of(b.pools, q) == slot_of(mid, q));
        if live.len() > 0 && q != live.last() {
            assert(slot_of(mid, q) == slot_of(a.pools, q));
        }
    }
    assert forall|q: SlotPtr| #[trigger] b.homes.contains_key(q) implies {
        &&& b.slot_ok(q)
        &&& b.tree.nodes.contains_key(b.homes[q])
        &&& b.live(b.homes[q]).contains(q)
    } by {
        if q != p {
            assert(a.homes.contains_key(q) && a.slot_ok(q));
            assert(b.slot(q).state == a.slot(q).state);
            if a.slot(q).state.alive() {
                assert(key(a.slot(q).strong) != k) by {
                    assert(a.cell_of(q).head.weak == q);
                    assert(q != SlotPtr::null());
                }
            }
            if a.homes[q] == n {
                let i = choose|i: int| 0 <= i < live.len() && live[i] == q;
                assert(b.live(n)[i] == q);
            }
        }
    }
    assert forall|q: SlotPtr| #[trigger]
        in_use(b.pools, q) && !b.homes.contains_key(q) implies b.stray_ok(q) by {
        assert(in_use(mid, q));
        assert(in_use(a.pools, q) && !a.homes.contains_key(q));
        assert(a.stray_ok(q));
        assert(b.slot(q).state == a.slot(q).state);
    }
    assert forall|m: NodeId, i: int|
        b.tree.nodes.contains_key(m) && 0 <= i < b.live(m).len() implies #[trigger] b.live_at(
        m,
        i,
    ) by {
        if m == n && i == live.len() {
        } else {
            assert(a.live_at(m, i));
            let q = a.live(m)[i];
            assert(a.slot_ok(q));
            assert(q != p);
            assert(b.slot(q).prev_live == a.slot(q).prev_live);
            if live.len() > 0 && q == live.last() {
                assert(a.live_at(n, live.len() - 1));
                assert(m == n);
                assert(i == live.len() - 1) by {
                    assert(live[i] == live[live.len() - 1]);
                }
            } else if m == n {
                assert(i != live.len() - 1);
            }
        }
    }
    assert forall|j: usize| #[trigger] b.cells.contains_key(j) implies b.cell_ok(j) by {
        assert(a.cells.contains_key(j) && a.cell_ok(j));
        let cell = a.cells[j];
        if j != k && cell.data is Some && cell.head.weak != SlotPtr::null() {
            let q = cell.head.weak;
            assert(a.slot_ok(q));
            assert(q != p);
            assert(b.slot(q).state == a.slot(q).state);
        }
    }
    assert forall|m: NodeId, i: int|
        b.tree.nodes.contains_key(m) && 0 <= i < b.objects(m).len() implies #[trigger] b.object_at(
        m,
        i,
    ) by {
        assert(a.object_at(m, i));
    }
    assert(b.tree.nodes.dom() =~= a.tree.nodes.dom());
    lemma_blocks_kept(a, b);
}

/// Slots and objects stay as they are when no scope changes in those that it has.
proof fn lemma_contents_kept<V, H: Copy>(a: RootView<V, H>, b: RootView<V, H>)
    requires
        a.live_wf(),
        a.cells_wf(),
        b.cells == a.cells,
        b.homes == a.homes,
        forall|q: SlotPtr| #[trigger] in_use(b.pools, q) == in_use(a.pools, q),
        forall|q: SlotPtr|
            in_use(a.pools, q) ==> #[trigger] slot_of(b.pools, q) == slot_of(a.pools, q),
        forall|n: NodeId| #[trigger]
            a.tree.nodes.contains_key(n) ==> b.tree.nodes.contains_key(n) && b.live(n) == a.live(n)
                && b.objects(n) == a.objects(n),
        forall|n: NodeId| #[trigger]
            b.tree.nodes.contains_key(n) && !a.tree.nodes.contains_key(n) ==> b.live(n).len() == 0
                && b.objects(n).len() == 0,
    ensures
        b.live_wf(),
        b.cells_wf(),
{
    assert forall|q: SlotPtr| #[trigger] b.homes.contains_key(q) implies {
        &&& b.slot_ok(q)
        &&& b.tree.nodes.contains_key(b.homes[q])
        &&& b.live(b.homes[q]).contains(q)
    } by {
        assert(a.homes.contains_key(q) && a.slot_ok(q));
        assert(b.slot(q) == a.slot(q));
    }
    assert forall|q: SlotPtr| #[trigger]
        in_use(b.pools, q) && !b.homes.contains_key(q) implies b.stray_ok(q) by {
        assert(in_use(a.pools, q) && !a.homes.contains_key(q));
        assert(a.stray_ok(q));
        assert(b.slot(q) == a.slot(q));
    }
    assert forall|n: NodeId, i: int|
        b.tree.nodes.contains_key(n) && 0 <= i < b.live(n).len() implies #[trigger] b.live_at(
        n,
        i,
    ) by {
        assert(a.tree.nodes.contains_key(n));
        assert(a.live_at(n, i));
        let q = a.live(n)[i];
        assert(a.slot_ok(q));
        assert(b.slot(q) == a.slot(q));
    }
    assert forall|n: NodeId| #[trigger] b.tree.nodes.contains_key(n) implies b.live(
        n,
    ).no_duplicates() && b.objects(n).no_duplicates() by {
        if a.tree.nodes.contains_key(n) {
            assert(b.live(n) == a.live(n));
        }
    }
    assert forall|j: usize| #[trigger] b.cells.contains_key(j) implies b.cell_ok(j) by {
        assert(a.cells.contains_key(j) && a.cell_ok(j));
        let cell = a.cells[j];
        if cell.data is Some && cell.head.weak != SlotPtr::null() {
            let q = cell.head.weak;
            assert(a.slot_ok(q));
            assert(b.slot(q) == a.slot(q));
        }
    }
    assert forall|n: NodeId, i: int|
        b.tree.nodes.contains_key(n) && 0 <= i < b.objects(n).len() implies #[trigger] b.object_at(
        n,
        i,
    ) by {
        assert(a.tree.nodes.contains_key(n));
        assert(a.object_at(n, i));
    }
}

/// There are not more pools of weak slots than there are addresses for, since no two of them
/// share a byte.
pub proof fn lemma_pools_are_few<V, H: Copy>(a: RootView<V, H>)
    requires
        a.wf(),
    ensures
        a.pools.len() < POOL_LIMIT - 1,
{
    let n = (a.pools.len() - 1) as nat;
    let most = usize::MAX as int / 16368 + 1;
    let pages = Seq::new(n, |i: int| a.pools[i + 1].addr as int / 16368);
    assert(pool_layout(DEFAULT_SLOT_COUNT).size == 16368);
    assert forall|i: int, j: int| 0 <= i < j < n implies pages[i] != pages[j] by {
        let x = a.pools[i + 1].addr;
        let y = a.pools[j + 1].addr;
        assert(a.uses_as(x, BlockUse::Weak(i + 1)) && a.use_ok(x));
        assert(a.uses_as(y, BlockUse::Weak(j + 1)) && a.use_ok(y));
        assert(a.apart_at(x, y));
    }
    assert forall|i: int| 0 <= i < n implies 0 <= #[trigger] pages[i] < most by {
        assert(a.pools[i + 1].addr <= usize::MAX);
    }
    lemma_distinct_within(pages, most);
    assert(usize::MAX <= u64::MAX);
}

/// There are no more numbers in a sequence without repetitions than there are below their bound.
proof fn lemma_distinct_within(numbers: Seq<int>, most: int)
    requires
        numbers.no_duplicates(),
        forall|i: int| 0 <= i < numbers.len() ==> 0 <= #[trigger] numbers[i] < most,
        most >= 0,
    ensures
        numbers.len() <= most,
{
    let all = vstd::set_lib::set_int_range(0, most);
    numbers.unique_seq_to_set();
    vstd::set_lib::lemma_int_range(0, most);
    assert forall|k: int| #[trigger] numbers.to_set().contains(k) implies all.contains(k) by {
        assert(numbers.contains(k));
        let i = numbers.index_of(k);
        assert(numbers[i] == k);
    }
    vstd::set_lib::lemma_len_subset(numbers.to_set(), all);
}

/// A pool of weak slots may be put behind the others.
pub proof fn lemma_chain_grown<V, H: Copy>(a: RootView<V, H>, addr: usize)
    requires
        a.wf(),
        PoolView::<H>::fresh(addr, DEFAULT_SLOT_COUNT).wf(),
        !a.blocks.contains_key(addr),
        clear_of(a.blocks, addr, pool_layout(DEFAULT_SLOT_COUNT)),
    ensures
        a.with_weak_pool(addr).wf(),
{
    let b = a.with_weak_pool(addr);
    lemma_pools_are_few(a);
    lemma_grown_chain(a.pools, addr, a.addr);
    lemma_contents_kept(a, b);
    let n = a.pools.len() as int;
    assert forall|x: usize| #[trigger] b.uses.contains_key(x) implies b.use_ok(x) by {
        if x != addr {
            assert(a.uses.contains_key(x) && a.use_ok(x));
        } else {
            assert(b.pools[n].addr == addr);
        }
    }
    assert forall|m: NodeId| #[trigger]
        b.tree.nodes.contains_key(m) && m != b.tree.root implies b.uses_as(
        b.tree.nodes[m].addr,
        BlockUse::Node(m),
    ) by {
        assert(a.tree.nodes.contains_key(m));
        assert(a.uses_as(a.tree.nodes[m].addr, BlockUse::Node(m)));
        assert(a.use_ok(a.tree.nodes[m].addr));
    }
    assert forall|m: NodeId, i: int|
        b.tree.nodes.contains_key(m) && 0 <= i < b.scope_pools(m).len() implies b.uses_as(
        (#[trigger] b.scope_pools(m)[i]).addr_,
        BlockUse::Strong(m, i),
    ) by {
        let x = a.scope_pools(m)[i].addr_;
        assert(a.uses_as(x, BlockUse::Strong(m, i)));
        assert(a.use_ok(x));
    }
    assert forall|i: int| 0 <= i < b.pools.len() implies b.uses_as(
        (#[trigger] b.pools[i]).addr,
        BlockUse::Weak(i),
    ) by {
        if i < n {
            assert(b.pools[i].addr == a.pools[i].addr);
            assert(a.uses_as(a.pools[i].addr, BlockUse::Weak(i)));
            assert(a.use_ok(a.pools[i].addr));
        }
    }
    assert forall|x: usize, y: usize| #[trigger] b.apart_at(x, y) by {
        assert(a.apart_at(x, y));
        if b.uses.contains_key(x) && b.uses.contains_key(y) && x != y {
            if x != addr {
                assert(a.use_ok(x));
            }
            if y != addr {
                assert(a.use_ok(y));
            }
        }
    }
    assert(a.use_ok(a.addr));
}

/// The pools of a scope may be filled further, and a pool may be put behind them.
pub proof fn lemma_scope_pools<V, H: Copy>(
    a: RootView<V, H>,
    n: NodeId,
    pools: Seq<ScopePool>,
    block: Option<(usize, Layout)>,
)
    requires
        a.wf(),
        a.tree.nodes.contains_key(n),
        forall|i: int|
            0 <= i < a.scope_pools(n).len() ==> (#[trigger] pools[i]).addr_ == a.scope_pools(
                n,
            )[i].addr_ && pools[i].cell_count_ == a.scope_pools(n)[i].cell_count_,
        match block {
            None => pools.len() == a.scope_pools(n).len(),
            Some((addr, layout)) => {
                &&& pools.len() == a.scope_pools(n).len() + 1
                &&& pools.last().addr_ == addr
                &&& layout == ScopePool::layout_spec(pools.last().cell_count_)
                &&& !a.blocks.contains_key(addr)
                &&& clear_of(a.blocks, addr, layout)
            },
        },
    ensures
        a.with_scope_pools(n, pools, block).wf(),
{
    let b = a.with_scope_pools(n, pools, block);
    let content = ContentView { pools, ..a.tree.nodes[n].content };
    lemma_content_tree(a.tree, n, content);
    assert(b.tree.nodes.dom() =~= a.tree.nodes.dom());
    lemma_contents_kept(a, b);
    let len = a.scope_pools(n).len() as int;
    assert forall|m: NodeId| #[trigger] a.tree.nodes.contains_key(m) implies b.tree.nodes[m].addr
        == a.tree.nodes[m].addr && (m != n ==> b.scope_pools(m) == a.scope_pools(m)) by {}
    match block {
        None => {
            lemma_blocks_kept(a, b);
        },
        Some((addr, layout)) => {
            assert forall|x: usize| #[trigger] b.uses.contains_key(x) implies b.use_ok(x) by {
                if x != addr {
                    assert(a.uses.contains_key(x) && a.use_ok(x));
                    match b.uses[x] {
                        BlockUse::Strong(m, i) => {
                            if m == n {
                                assert(pools[i].addr_ == a.scope_pools(n)[i].addr_);
                            }
                        },
                        _ => {},
                    }
                } else {
                    assert(b.scope_pools(n)[len].addr_ == addr);
                }
            }
            assert forall|m: NodeId| #[trigger]
                b.tree.nodes.contains_key(m) && m != b.tree.root implies b.uses_as(
                b.tree.nodes[m].addr,
                BlockUse::Node(m),
            ) by {
                assert(a.tree.nodes.contains_key(m));
                assert(a.uses_as(a.tree.nodes[m].addr, BlockUse::Node(m)));
                assert(a.use_ok(a.tree.nodes[m].addr));
            }
            assert forall|m: NodeId, i: int|
                b.tree.nodes.contains_key(m) && 0 <= i < b.scope_pools(m).len() implies b.uses_as(
                (#[trigger] b.scope_pools(m)[i]).addr_,
                BlockUse::Strong(m, i),
            ) by {
                if m != n || i < len {
                    let x = a.scope_pools(m)[i].addr_;
                    assert(a.tree.nodes.contains_key(m));
                    assert(a.uses_as(x, BlockUse::Strong(m, i)));
                    assert(a.use_ok(x));
                    if m == n {
                        assert(pools[i].addr_ == x);
                    }
                }
            }
            assert forall|i: int| 0 <= i < b.pools.len() implies b.uses_as(
                (#[trigger] b.pools[i]).addr,
                BlockUse::Weak(i),
            ) by {
                assert(a.uses_as(a.pools[i].addr, BlockUse::Weak(i)));
                assert(a.use_ok(a.pools[i].addr));
            }
            assert forall|x: usize, y: usize| #[trigger] b.apart_at(x, y) by {
                assert(a.apart_at(x, y));
                if b.uses.contains_key(x) && b.uses.contains_key(y) && x != y {
                    if x != addr {
                        assert(a.use_ok(x));
                    }
                    if y != addr {
                        assert(a.use_ok(y));
                    }
                }
            }
            assert(a.use_ok(a.addr));
        },
    }
}

/// A scope may be opened below another.
pub proof fn lemma_child_opened<V, H: Copy>(a: RootView<V, H>, p: NodeId, c: NodeId, addr: usize)
    requires
        a.wf(),
        a.tree.nodes.contains_key(p),
        !a.tree.nodes.contains_key(c),
        a.tree.with_child(p, c, addr).wf(),
        !a.blocks.contains_key(addr),
        clear_of(a.blocks, addr, node_layout()),
    ensures
        a.with_child(p, c, addr).wf(),
{
    let b = a.with_child(p, c, addr);
    assert forall|m: NodeId| #[trigger] a.tree.nodes.contains_key(m) implies
        b.tree.nodes.contains_key(m) && b.tree.nodes[m].addr == a.tree.nodes[m].addr
        && b.tree.nodes[m].content == a.tree.nodes[m].content by {}
    lemma_contents_kept(a, b);
    assert forall|x: usize| #[trigger] b.uses.contains_key(x) implies b.use_ok(x) by {
        if x != addr {
            assert(a.uses.contains_key(x) && a.use_ok(x));
        }
    }
    assert forall|m: NodeId| #[trigger]
        b.tree.nodes.contains_key(m) && m != b.tree.root implies b.uses_as(
        b.tree.nodes[m].addr,
        BlockUse::Node(m),
    ) by {
        if m != c {
            assert(a.tree.nodes.contains_key(m));
            assert(a.uses_as(a.tree.nodes[m].addr, BlockUse::Node(m)));
            assert(a.use_ok(a.tree.nodes[m].addr));
        }
    }
    assert forall|m: NodeId, i: int|
        b.tree.nodes.contains_key(m) && 0 <= i < b.scope_pools(m).len() implies b.uses_as(
        (#[trigger] b.scope_pools(m)[i]).addr_,
        BlockUse::Strong(m, i),
    ) by {
        if m != c {
            assert(a.tree.nodes.contains_key(m));
            let x = a.scope_pools(m)[i].addr_;
            assert(a.uses_as(x, BlockUse::Strong(m, i)));
            assert(a.use_ok(x));
        }
    }
    assert forall|i: int| 0 <= i < b.pools.len() implies b.uses_as(
        (#[trigger] b.pools[i]).addr,
        BlockUse::Weak(i),
    ) by {
        assert(a.uses_as(a.pools[i].addr, BlockUse::Weak(i)));
        assert(a.use_ok(a.pools[i].addr));
    }
    assert forall|x: usize, y: usize| #[trigger] b.apart_at(x, y) by {
        assert(a.apart_at(x, y));
        if b.uses.contains_key(x) && b.uses.contains_key(y) && x != y {
            if x != addr {
                assert(a.use_ok(x));
            }
            if y != addr {
                assert(a.use_ok(y));
            }
        }
    }
    assert(a.use_ok(a.addr));
}

/// A change of the tree of scopes that leaves every scope its block and what is in it.
pub proof fn lemma_tree_changed<V, H: Copy>(a: RootView<V, H>, t: TreeView)
    requires
        a.wf(),
        t.wf(),
        t.root == a.tree.root,
        t.nodes.dom() == a.tree.nodes.dom(),
        forall|n: NodeId| #[trigger]
            a.tree.nodes.contains_key(n) ==> t.nodes[n].addr == a.tree.nodes[n].addr
                && t.nodes[n].content == a.tree.nodes[n].content,
    ensures
        (RootView { tree: t, ..a }).wf(),
{
    let b = RootView { tree: t, ..a };
    lemma_contents_kept(a, b);
    lemma_blocks_kept(a, b);
}

/// The hooks of types may change.
pub proof fn lemma_hooks_changed<V, H: Copy>(
    a: RootView<V, H>,
    hooks: Map<ConstTypeId, PreDropRecord<H>>,
)
    requires
        a.wf(),
    ensures
        (RootView { hooks, ..a }).wf(),
{
    let b = RootView { hooks, ..a };
    lemma_contents_kept(a, b);
    lemma_blocks_kept(a, b);
}

/// The tree of scopes does not depend on what is in them.
pub proof fn lemma_content_tree(t: TreeView, n: NodeId, content: ContentView)
    requires
        t.wf(),
        t.nodes.contains_key(n),
    ensures
        t.with_content(n, content).wf(),
{
    lemma_tree_kept(t, n, NodeView { content, ..t.nodes[n] });
}

} // verus!
