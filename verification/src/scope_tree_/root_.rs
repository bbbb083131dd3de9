//! The root of a tree of scopes: what the whole tree shares, and how it comes to be.

use vstd::prelude::*;

use typeid::ConstTypeId;

use crate::mem_::{apart, AllocError, Layout, TrAllocator};
use crate::ptr_::{PoolIndex, SlotPtr};
use crate::slab_::Slab;
use crate::weak_::chain_::{chain_wf, WeakChain};
use crate::weak_::chunk_::DataState;
use crate::weak_::pool_::{
    budget_count, pool_layout, PoolView, WeakPool, DEFAULT_SLOT_COUNT,
};
use crate::weak_::pre_drop_::{PreDropRecord, PreDropRegistry};

use super::node_::{
    after_placing, asks_for_pool, node_layout, opened_layout, placed, NodeId, NodeView,
    NODE_ALIGN, NODE_SIZE,
};
use super::order_::TreeView;
use super::state_::{
    lemma_chain_grown, lemma_child_opened, lemma_pools_are_few, lemma_scope_pools, lemma_slot_taken, root_layout,
    slot_grant, BlockUse, CellView, ChunkCell, RootView, ROOT_SIZE,
};
use super::tree_::ScopeTree;

verus! {

/// A tree of scopes with all its objects, and all that they share: the pools of weak slots, the
/// hooks of types, and the memory.
#[verifier::reject_recursive_types(V)]
#[verifier::reject_recursive_types(H)]
pub struct RootScope<V, H, A> {
    pub tree_: ScopeTree,
    pub weak_: WeakChain<H>,
    pub store_: Slab<ChunkCell<V, H>>,
    pub registry_: PreDropRegistry<H>,
    pub allocator_: A,
    pub addr_: usize,
    pub strict_: bool,
    pub homes_: Ghost<Map<SlotPtr, NodeId>>,
    pub uses_: Ghost<Map<usize, BlockUse>>,
}

/// The hooks in a table, by the keys of their types.
pub open spec fn hooks_of<H: Copy>(registry: PreDropRegistry<H>) -> Map<
    ConstTypeId,
    PreDropRecord<H>,
> {
    Map::new(
        |key: ConstTypeId| registry.record_of(key) is Some,
        |key: ConstTypeId| registry.record_of(key)->0,
    )
}

/// Objects as they are spoken of in contracts.
pub open spec fn cells_of<V, H>(store: Slab<ChunkCell<V, H>>) -> Map<usize, CellView<V, H>> {
    store@.map_values(|cell: ChunkCell<V, H>| cell@)
}

impl<V, H: Copy, A: TrAllocator> View for RootScope<V, H, A> {
    type V = RootView<V, H>;

    open spec fn view(&self) -> RootView<V, H> {
        RootView {
            tree: self.tree_@,
            pools: self.weak_@,
            cells: cells_of(self.store_),
            homes: self.homes_@,
            hooks: hooks_of(self.registry_),
            blocks: self.allocator_.blocks(),
            uses: self.uses_@,
            addr: self.addr_,
            strict: self.strict_,
        }
    }
}

/// A tree that was just made: a root without children, and one pool of weak slots.
pub open spec fn fresh_root<V, H: Copy>(
    root: NodeId,
    addr: usize,
    pool: usize,
    count: PoolIndex,
    blocks: Map<usize, Layout>,
    strict: bool,
) -> RootView<V, H> {
    RootView {
        tree: TreeView {
            nodes: Map::<NodeId, NodeView>::empty().insert(root, NodeView::fresh(None, addr, 0)),
            root,
            pending: Seq::empty(),
            clock: 1,
        },
        pools: seq![PoolView { root: addr, ..PoolView::<H>::fresh(pool, count) }],
        cells: Map::empty(),
        homes: Map::empty(),
        hooks: Map::empty(),
        blocks: blocks.insert(addr, root_layout()).insert(pool, pool_layout(count)),
        uses: Map::<usize, BlockUse>::empty().insert(addr, BlockUse::Root).insert(
            pool,
            BlockUse::Weak(0),
        ),
        addr,
        strict,
    }
}

/// Whether a root can be made: at least one weak slot fits into a pool of this size, and the
/// allocator has the memory for the root and for the pool.
pub open spec fn makes_root<A: TrAllocator>(allocator: A, page_size: usize) -> bool {
    let count = budget_count(page_size as int);
    &&& count > 0
    &&& allocator.grants(root_layout()) is Some
    &&& allocator.asked(root_layout()).grants(pool_layout(count)) is Some
}

/// Why a root was not made.
#[derive(Clone, Copy, Debug, PartialEq, Eq, Structural)]
pub enum InitRefusal {
    /// There is one already.
    Existing,
    /// There is no memory for it.
    MallocFailed,
}

/// Where a root is made, once.
#[verifier::reject_recursive_types(V)]
#[verifier::reject_recursive_types(H)]
pub enum RootPlace<V, H, A> {
    /// There is no root yet.
    Empty,
    /// Somebody is making the root.
    Acquired,
    /// The root is there.
    Ready(RootScope<V, H, A>),
}

impl<V, H: Copy, A: TrAllocator> RootScope<V, H, A> {
    pub open spec fn wf(&self) -> bool {
        &&& self@.wf()
        &&& self.tree_.wf()
        &&& self.weak_.wf()
        &&& self.weak_.root() == self.addr_
        &&& self.store_.wf()
        &&& self.registry_.wf()
        &&& self.allocator_.wf()
    }

    /// Whether there is a weak slot to be handed out, in the last pool or in one that the
    /// allocator grants.
    pub open spec fn grants_slot(&self) -> bool {
        self@.finds_slot(self.allocator_)
    }

    /// Makes a tree: a root without children, and a pool of as many weak slots as fit into
    /// `page_size` bytes.
    pub fn try_new_(page_size: usize, allocator: A, strict: bool) -> (r: Result<Self, AllocError>)
        requires
            allocator.wf(),
        ensures
            match r {
                Ok(root) => {
                    let count = budget_count(page_size as int);
                    &&& root.wf()
                    &&& allocator.grants(root_layout()) == Some(root@.addr)
                    &&& allocator.asked(root_layout()).grants(pool_layout(count)) == Some(
                        root@.pools[0].addr,
                    )
                    &&& root.allocator_ == allocator.asked(root_layout()).asked(
                        pool_layout(count),
                    )
                    &&& root@ == fresh_root::<V, H>(
                        root@.tree.root,
                        root@.addr,
                        root@.pools[0].addr,
                        count,
                        allocator.blocks(),
                        strict,
                    )
                },
                Err(_) => true,
            },
            r is Ok <==> makes_root(allocator, page_size),
    {
        let mut allocator = allocator;
        let ghost blocks = allocator.blocks();
        let addr = match allocator.allocate(Layout { size: ROOT_SIZE, align: 8 }) {
            Err(e) => {
                return Err(e);
            },
            Ok(addr) => addr,
        };
        let ghost held = allocator.blocks();
        let pool = match WeakPool::try_new_with_max_size(page_size, &mut allocator) {
            Err(e) => {
                return Err(e);
            },
            Ok(pool) => pool,
        };
        let ghost at = pool@.addr;
        let ghost count = budget_count(page_size as int);
        let weak = WeakChain::new(pool, addr);
        let tree = ScopeTree::new(addr);
        let store: Slab<ChunkCell<V, H>> = Slab::new();
        let registry = PreDropRegistry::new();
        let root = RootScope {
            tree_: tree,
            weak_: weak,
            store_: store,
            registry_: registry,
            allocator_: allocator,
            addr_: addr,
            strict_: strict,
            homes_: Ghost(Map::empty()),
            uses_: Ghost(
                Map::<usize, BlockUse>::empty().insert(addr, BlockUse::Root).insert(
                    at,
                    BlockUse::Weak(0),
                ),
            ),
        };
        proof {
            broadcast use ScopeTree::lemma_view_wf, WeakChain::lemma_view_wf;

            let v = root@;
            assert(v.cells =~= Map::empty());
            assert(v.hooks =~= Map::empty());
            assert(v =~= fresh_root::<V, H>(v.tree.root, addr, at, count, blocks, strict));
            assert(held.contains_key(addr));
            lemma_fresh_root(v, at, count, blocks);
        }
        Ok(root)
    }

    /// Makes the root of a process, unless there is one already.
    ///
    /// The place is taken before anything is made, and given back where the memory does not
    /// suffice. While somebody else is making the root there is nothing to do but wait, so the
    /// place must not be in that state.
    pub fn try_init_default_root_scope_(
        place: &mut RootPlace<V, H, A>,
        page_size: usize,
        allocator: A,
        strict: bool,
    ) -> (r: Result<(), InitRefusal>)
        requires
            !(*old(place) is Acquired),
            allocator.wf(),
        ensures
            *old(place) is Ready ==> r == Err::<(), _>(InitRefusal::Existing) && *final(place)
                == *old(place),
            *old(place) is Empty ==> match r {
                Ok(_) => {
                    &&& *final(place) is Ready
                    &&& final(place)->Ready_0.wf()
                    &&& allocator.grants(root_layout()) == Some(final(place)->Ready_0@.addr)
                    &&& allocator.asked(root_layout()).grants(
                        pool_layout(budget_count(page_size as int)),
                    ) == Some(final(place)->Ready_0@.pools[0].addr)
                    &&& final(place)->Ready_0@ == fresh_root::<V, H>(
                        final(place)->Ready_0@.tree.root,
                        final(place)->Ready_0@.addr,
                        final(place)->Ready_0@.pools[0].addr,
                        budget_count(page_size as int),
                        allocator.blocks(),
                        strict,
                    )
                },
                Err(e) => e == InitRefusal::MallocFailed && *final(place) is Empty,
            },
            *old(place) is Empty ==> (r is Ok <==> makes_root(allocator, page_size)),
            *old(place) is Empty && r is Ok ==> final(place)->Ready_0.allocator_
                == allocator.asked(root_layout()).asked(
                pool_layout(budget_count(page_size as int)),
            ),
    {
        match place {
            RootPlace::Ready(_) => {
                return Err(InitRefusal::Existing);
            },
            _ => {},
        }
        *place = RootPlace::Acquired;
        match Self::try_new_(page_size, allocator, strict) {
            Ok(root) => {
                *place = RootPlace::Ready(root);
                Ok(())
            },
            Err(_) => {
                *place = RootPlace::Empty;
                Err(InitRefusal::MallocFailed)
            },
        }
    }

    /// The key of the root among the scopes.
    pub fn root_inner_(&self) -> (r: NodeId)
        ensures
            r == self@.tree.root,
    {
        self.tree_.root()
    }

    /// The address of the root's block.
    pub fn addr(&self) -> (r: usize)
        ensures
            r == self@.addr,
    {
        self.addr_
    }

    /// The table of the hooks that types were given.
    pub fn pre_drop_registry_(&self) -> (r: &PreDropRegistry<H>)
        ensures
            *r == self.registry_,
    {
        &self.registry_
    }

    /// The pools of weak slots.
    pub fn weak_pools_(&self) -> (r: &WeakChain<H>)
        ensures
            *r == self.weak_,
    {
        &self.weak_
    }

    /// The memory.
    pub fn allocator(&self) -> (r: &A)
        ensures
            *r == self.allocator_,
    {
        &self.allocator_
    }

    /// Where the scopes and their objects are kept: the address of the root that the weak slot
    /// at `p` belongs to.
    pub fn of_weak_(&self, p: SlotPtr) -> (r: Option<usize>)
        requires
            self.wf(),
            crate::weak_::chain_::in_use(self@.pools, p),
        ensures
            r == Some(self@.addr),
    {
        self.weak_.of_weak_(p)
    }

    /// Opens a scope below `parent`, as its youngest child.
    pub fn new_child_(&mut self, parent: NodeId) -> (r: Result<NodeId, AllocError>)
        requires
            old(self).wf(),
            old(self)@.tree.nodes.contains_key(parent),
        ensures
            final(self).wf(),
            match r {
                Ok(c) => {
                    let addr = old(self).allocator_.grants(node_layout());
                    &&& addr is Some
                    &&& !old(self)@.tree.nodes.contains_key(c)
                    &&& final(self)@ == old(self)@.with_child(parent, c, addr->0)
                },
                Err(_) => {
                    &&& old(self).allocator_.grants(node_layout()) is None
                    &&& final(self)@ == old(self)@
                },
            },
            final(self).allocator_ == old(self).allocator_.asked(node_layout()),
    {
        broadcast use ScopeTree::lemma_view_wf;

        let ghost before = self@;
        match self.allocator_.allocate(Layout { size: NODE_SIZE, align: NODE_ALIGN }) {
            Err(e) => {
                assert(self@ =~= before);
                Err(e)
            },
            Ok(addr) => {
                let c: NodeId = self.tree_.new_child_(parent, addr);
                self.uses_ = Ghost(self.uses_@.insert(addr, BlockUse::Node(c)));
                proof {
                    assert(self@ =~= before.with_child(parent, c, addr));
                    lemma_child_opened(before, parent, c, addr);
                }
                Ok(c)
            },
        }
    }

    /// Hands out a weak slot, which belongs to no object yet. Where the last pool has none
    /// left, a pool of the default size is put behind it first.
    pub fn allocate_weak_(&mut self) -> (r: Option<SlotPtr>)
        requires
            old(self).wf(),
        ensures
            final(self).wf(),
            match r {
                Some(p) => {
                    &&& final(self)@ == old(self)@.with_slot_taken(
                        slot_grant(old(self).allocator_)->0,
                    )
                    &&& p == old(self)@.slot_to_take()
                    &&& crate::weak_::chain_::in_use(final(self)@.pools, p)
                    &&& !final(self)@.homes.contains_key(p)
                    &&& final(self)@.slot(p).state == DataState::Reclaimed
                },
                None => final(self)@ == old(self)@,
            },
            final(self).allocator_ == old(self)@.after_slot(old(self).allocator_),
            r is Some <==> old(self).grants_slot(),
    {
        broadcast use WeakChain::lemma_view_wf;

        let ghost before = self@;
        proof {
            lemma_pools_are_few(before);
        }
        let r = self.weak_.allocate_weak_(&mut self.allocator_);
        match r {
            None => {
                assert(self@ =~= before);
                None
            },
            Some(p) => {
                proof {
                    if before.pools.last().free.len() > 0 {
                        assert(self@ =~= before.with_slot_taken(0));
                        lemma_slot_taken(before);
                        crate::weak_::chain_::lemma_taken_chain(before.pools, before.addr);
                    } else {
                        let addr = old(self).allocator_.grants(pool_layout(DEFAULT_SLOT_COUNT))->0;
                        self.uses_@ = self.uses_@.insert(
                            addr,
                            BlockUse::Weak(before.pools.len() as int),
                        );
                        let mid = before.with_weak_pool(addr);
                        assert(PoolView::<H>::fresh(addr, DEFAULT_SLOT_COUNT).wf()) by {
                            let last = self.weak_@[before.pools.len() as int];
                            assert(last.wf() && last.addr == addr);
                            crate::weak_::pool_::lemma_fresh_wf::<H>(addr, DEFAULT_SLOT_COUNT);
                        }
                        lemma_chain_grown(before, addr);
                        lemma_slot_taken(mid);
                        crate::weak_::chain_::lemma_taken_chain(mid.pools, mid.addr);
                        assert(self@ =~= before.with_slot_taken(addr));
                    }
                }
                Some(p)
            },
        }
    }

    /// Places a block of this layout in the scope `n`: in its last pool or, where it does not
    /// fit, in a new one.
    pub fn allocate(&mut self, n: NodeId, layout: Layout) -> (r: Result<usize, AllocError>)
        requires
            old(self).wf(),
            old(self)@.tree.nodes.contains_key(n),
            layout.wf(),
        ensures
            final(self).wf(),
            ({
                let grant = old(self).allocator_.grants(opened_layout(layout));
                let (addr, _) = placed(old(self)@.scope_pools(n), layout, grant);
                &&& r == (match addr {
                    Some(addr) => Ok(addr),
                    None => Err(AllocError),
                })
                &&& final(self)@ == old(self)@.with_block(n, layout, grant)
            }),
            final(self).allocator_ == after_placing(
                old(self).allocator_,
                old(self)@.scope_pools(n),
                layout,
            ),
    {
        broadcast use ScopeTree::lemma_view_wf;

        let ghost before = self@;
        let ghost pools = before.scope_pools(n);
        let ghost grant = self.allocator_.grants(opened_layout(layout));
        let content = self.tree_.content_mut(n);
        let ghost ready = *content;
        let r = content.allocate(layout, &mut self.allocator_);
        proof {
            let (addr, after) = placed(pools, layout, grant);
            if asks_for_pool(pools, layout) && grant is Some {
                self.uses_@ = self.uses_@.insert(
                    grant->0,
                    BlockUse::Strong(n, pools.len() as int),
                );
            }
            let block = before.block_for(n, layout, grant);
            assert(self@ =~= before.with_scope_pools(n, after, block));
            lemma_scope_pools(before, n, after, block);
        }
        r
    }
}

proof fn lemma_fresh_root<V, H: Copy>(
    v: RootView<V, H>,
    at: usize,
    count: PoolIndex,
    blocks: Map<usize, Layout>,
)
    requires
        v == fresh_root::<V, H>(v.tree.root, v.addr, at, count, blocks, v.strict),
        v.tree.wf(),
        chain_wf(v.pools, v.addr),
        at != v.addr,
        apart(at, pool_layout(count), v.addr, root_layout()),
        v.addr > 0,
    ensures
        v.wf(),
{
    assert forall|p: SlotPtr| !crate::weak_::chain_::in_use(v.pools, p) by {
        if p.pool() == 0 && p.index() < count {
            let free = PoolView::<H>::fresh(at, count).free;
            assert(free[p.index()] == p.index() as PoolIndex);
        }
    }
}

} // verus!
