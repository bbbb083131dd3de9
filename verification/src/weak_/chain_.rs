//! The chain of weak pools that a tree of scopes shares.

use vstd::prelude::*;

use crate::mem_::{clear_of, TrAllocator};
use crate::ptr_::{law_slot_positions, PoolIndex, SlotPtr, POOL_LIMIT};

use super::chunk_::{DataState, SlotView, WeakChunk};
use super::pool_::{
    budget_count, free_at, law_return_frees_one_slot, law_returned_slot_is_next,
    law_take_uses_one_slot, lemma_after_take_wf, lemma_pool_view_wf, lemma_with_slot, pool_layout,
    PoolView, WeakPool, DEFAULT_PAGE_SIZE, DEFAULT_SLOT_COUNT,
};

verus! {

/// The chain as it is spoken of in contracts: its pools, first to last.
pub type ChainView<H> = Seq<PoolView<H>>;

/// Whether there is a slot at `p` and it is in use.
pub open spec fn in_use<H>(pools: ChainView<H>, p: SlotPtr) -> bool {
    &&& p.pool() < pools.len()
    &&& pools[p.pool()].in_use(p.index() as PoolIndex)
}

/// The slot at `p`.
pub open spec fn slot_of<H>(pools: ChainView<H>, p: SlotPtr) -> SlotView<H> {
    pools[p.pool()].slots[p.index()]
}

/// The chain with the slot at `p` replaced.
pub open spec fn with_slot<H>(pools: ChainView<H>, p: SlotPtr, slot: SlotView<H>) -> ChainView<H> {
    pools.update(p.pool(), pools[p.pool()].with_slot(p.index(), slot))
}

/// The chain after the slot at `p` was given back.
pub open spec fn returned<H>(pools: ChainView<H>, p: SlotPtr) -> ChainView<H> {
    pools.update(p.pool(), pools[p.pool()].after_return(p.index() as PoolIndex))
}

/// The chain after the next free slot of its last pool was handed out.
pub open spec fn taken<H>(pools: ChainView<H>) -> ChainView<H> {
    pools.update(pools.len() - 1, pools.last().after_take())
}

/// The slot that is handed out next.
pub open spec fn next_slot<H>(pools: ChainView<H>) -> SlotPtr {
    SlotPtr::at(pools.len() - 1, pools.last().free[0] as int)
}

/// The chain after a pool at `addr` was put behind it.
pub open spec fn grown<H>(pools: ChainView<H>, addr: usize, count: PoolIndex, root: usize)
    -> ChainView<H> {
    pools.update(pools.len() - 1, PoolView { next: addr, ..pools.last() }).push(
        PoolView { prev: pools.last().addr, root, ..PoolView::<H>::fresh(addr, count) },
    )
}

/// The `i`-th pool knows its neighbours.
pub open spec fn linked_at<H>(pools: ChainView<H>, i: int) -> bool {
    &&& pools[i].prev == (if i == 0 {
        0
    } else {
        pools[i - 1].addr
    })
    &&& pools[i].next == (if i == pools.len() - 1 {
        0
    } else {
        pools[i + 1].addr
    })
}

/// Every pool is sound, belongs to the root at `root`, and knows its neighbours. All but the first
/// are of the default size.
pub open spec fn chain_wf<H>(pools: ChainView<H>, root: usize) -> bool {
    &&& 0 < pools.len() < POOL_LIMIT
    &&& forall|i: int| 0 < i < pools.len() ==> (#[trigger] pools[i]).slots.len() == DEFAULT_SLOT_COUNT
    &&& forall|i: int|
        0 <= i < pools.len() ==> (#[trigger] pools[i]).wf() && pools[i].root == root
    &&& forall|i: int| 0 <= i < pools.len() ==> #[trigger] linked_at(pools, i)
}

/// The pools of weak slots, one behind the other. Slots are handed out from the last.
pub struct WeakChain<H = ()> {
    pools_: Vec<WeakPool<H>>,
    root_: usize,
}

impl<H> View for WeakChain<H> {
    type V = ChainView<H>;

    closed spec fn view(&self) -> ChainView<H> {
        Seq::new(self.pools_@.len(), |i: int| self.pools_@[i]@)
    }
}

impl<H: Copy> WeakChain<H> {
    /// The address of the root that the pools belong to.
    pub closed spec fn root(&self) -> usize {
        self.root_
    }

    pub closed spec fn wf(&self) -> bool {
        &&& chain_wf(self@, self.root())
        &&& forall|i: int| 0 <= i < self.pools_@.len() ==> (#[trigger] self.pools_@[i]).wf()
    }

    /// What the chain's invariant says of its view.
    pub broadcast proof fn lemma_view_wf(&self)
        ensures
            #[trigger] self.wf() ==> chain_wf(self@, self.root()),
    {
    }

    /// The chain of one pool, which belongs to the root at `root`.
    pub fn new(pool: WeakPool<H>, root: usize) -> (r: Self)
        requires
            pool.wf(),
            pool@.prev == 0,
            pool@.next == 0,
        ensures
            r.wf(),
            r.root() == root,
            r@ == seq![PoolView { root, ..pool@ }],
    {
        broadcast use lemma_pool_view_wf;

        let mut pool = pool;
        pool.set_root(root);
        let mut pools: Vec<WeakPool<H>> = Vec::new();
        pools.push(pool);
        let r = WeakChain { pools_: pools, root_: root };
        assert(r@ =~= seq![pool@]);
        r
    }

    /// The pools.
    pub fn pools(&self) -> (r: &Vec<WeakPool<H>>)
        ensures
            r.len() == self@.len(),
            forall|i: int| 0 <= i < r.len() ==> (#[trigger] r@[i])@ == self@[i],
    {
        &self.pools_
    }

    /// Which pool the slot at `p` is in.
    fn pool_no_(&self, p: SlotPtr) -> (r: usize)
        requires
            in_use(self@, p),
        ensures
            r == p.pool(),
            r < self.pools_@.len(),
    {
        let len: usize = self.pools_.len();
        assert(p.pool() < len);
        p.pool_()
    }

    /// The slot at `p`.
    pub fn slot(&self, p: SlotPtr) -> (r: &WeakChunk<(), H>)
        requires
            in_use(self@, p),
        ensures
            r@ == slot_of(self@, p),
    {
        self.pools_[self.pool_no_(p)].slot_at_(p.index_())
    }

    /// The slot at `p`, to change.
    pub fn slot_mut(&mut self, p: SlotPtr) -> (r: &mut WeakChunk<(), H>)
        requires
            old(self).wf(),
            in_use(old(self)@, p),
        ensures
            r@ == slot_of(old(self)@, p),
            final(self)@ == with_slot(old(self)@, p, final(r)@),
            final(self).root() == old(self).root(),
            final(r)@.pool_order == slot_of(old(self)@, p).pool_order ==> final(self).wf(),
    {
        broadcast use lemma_pool_view_wf;

        let ghost before = self@;
        proof {
            assert forall|slot: SlotView<H>|
                slot.pool_order == slot_of(before, p).pool_order implies chain_wf(
                #[trigger] with_slot(before, p, slot),
                self.root(),
            ) by {
                let k = p.pool();
                lemma_with_slot(before[k], p.index() as PoolIndex, slot);
                lemma_replaced_wf(before, k, before[k].with_slot(p.index(), slot), self.root());
            }
        }
        let k: usize = self.pool_no_(p);
        let slot = self.pools_[k].slot_mut_at_(p.index_());
        assert(after_borrow(*self)@ =~= with_slot(before, p, (*final(slot))@));
        slot
    }

    /// Hands out the next free slot of the last pool; where it has none, first puts a new pool
    /// of the default size behind it. `None` only where there is no memory for that.
    pub fn allocate_weak_<A: TrAllocator>(&mut self, alloc: &mut A) -> (r: Option<SlotPtr>)
        requires
            old(self).wf(),
            old(alloc).wf(),
            old(self)@.len() < POOL_LIMIT - 1,
        ensures
            final(self).wf(),
            final(alloc).wf(),
            final(self).root() == old(self).root(),
            ({
                let layout = pool_layout(DEFAULT_SLOT_COUNT);
                let addr = old(alloc).grants(layout);
                let full = old(self)@.last().free.len() == 0;
                &&& r is None <==> full && addr is None
                &&& *final(alloc) == (if full {
                    old(alloc).asked(layout)
                } else {
                    *old(alloc)
                })
                &&& match r {
                    Some(p) => if full {
                        let pools = grown(old(self)@, addr->0, DEFAULT_SLOT_COUNT, old(self).root());
                        &&& p == next_slot(pools)
                        &&& final(self)@ == taken(pools)
                        &&& !old(alloc).blocks().contains_key(addr->0)
                        &&& clear_of(old(alloc).blocks(), addr->0, layout)
                        &&& final(alloc).blocks() == old(alloc).blocks().insert(addr->0, layout)
                    } else {
                        &&& p == next_slot(old(self)@)
                        &&& final(self)@ == taken(old(self)@)
                    },
                    None => {
                        &&& final(self)@ == old(self)@
                        &&& final(alloc).blocks() == old(alloc).blocks()
                    },
                }
            }),
    {
        broadcast use lemma_pool_view_wf;

        let ghost before = self@;
        let last: usize = self.pools_.len() - 1;
        if self.pools_[last].free_count() == 0 {
            assert(budget_count(DEFAULT_PAGE_SIZE as int) == DEFAULT_SLOT_COUNT);
            match WeakPool::try_new_with_max_size(DEFAULT_PAGE_SIZE, alloc) {
                Err(_) => {
                    return None;
                },
                Ok(new) => {
                    let mut new = new;
                    new.set_root(self.root_);
                    let tail = &mut self.pools_[last];
                    tail.link_siblings(&mut new);
                    self.pools_.push(new);
                    proof {
                        let count = DEFAULT_SLOT_COUNT;
                        assert(self@ =~= grown(before, new@.addr, count, self.root()));
                        lemma_grown_wf(before, new@.addr, self.root());
                    }
                },
            }
        }
        let ghost ready = self@;
        let tail: usize = self.pools_.len() - 1;
        assert(ready.last() == self.pools_@[tail as int]@);
        let index = self.pools_[tail].allocate();
        proof {
            assert(ready[tail as int].wf());
            assert(free_at(ready.last().slots, ready.last().free, 0));
            assert(self@ =~= taken(ready));
            lemma_taken_wf(ready, self.root());
        }
        match index {
            None => None,
            Some(index) => Some(SlotPtr::new(tail, index)),
        }
    }

    /// Takes the slot at `p` back.
    pub fn give_back(&mut self, p: SlotPtr) -> (r: bool)
        requires
            old(self).wf(),
            in_use(old(self)@, p),
            !slot_of(old(self)@, p).locked,
        ensures
            final(self).wf(),
            final(self).root() == old(self).root(),
            final(self)@ == returned(old(self)@, p),
            r,
    {
        broadcast use lemma_pool_view_wf;

        let ghost before = self@;
        let r = match self.weak_pool_of_(p) {
            None => false,
            Some((_, index)) => {
                let k: usize = self.pool_no_(p);
                let r = self.pools_[k].deallocate(index);
                proof {
                    let k = p.pool();
                    assert(self@ =~= returned(before, p));
                    lemma_replaced_wf(before, k, before[k].after_return(index), self.root());
                }
                r
            },
        };
        r
    }

    /// The address of the pool that the slot at `p` belongs to, and the slot's index in it,
    /// both found from the slot's own address.
    pub fn weak_pool_of_(&self, p: SlotPtr) -> (r: Option<(usize, PoolIndex)>)
        requires
            self.wf(),
            in_use(self@, p),
        ensures
            r == Some((self@[p.pool()].addr, p.index() as PoolIndex)),
    {
        broadcast use lemma_pool_view_wf;

        let pool = &self.pools_[self.pool_no_(p)];
        let addr: usize = pool.slot_addr_(p.index_());
        let order: PoolIndex = self.slot(p).pool_order();
        proof {
            assert(self@[p.pool()].wf());
            assert(self@[p.pool()].slots[p.index()].pool_order == p.index());
        }
        match WeakPool::<H>::of_slot_(addr, order) {
            None => None,
            Some(base) => match pool.index_of_(addr) {
                None => {
                    assert(addr == self@[p.pool()].slot_addr(p.index()));
                    None
                },
                Some(index) => Some((base, index)),
            },
        }
    }

    /// The address of the root of the tree that the slot at `p` belongs to.
    pub fn of_weak_(&self, p: SlotPtr) -> (r: Option<usize>)
        requires
            self.wf(),
            in_use(self@, p),
        ensures
            r == (if self.root() == 0 {
                None
            } else {
                Some(self.root())
            }),
    {
        self.pools_[self.pool_no_(p)].root()
    }
}

proof fn lemma_grown_wf<H>(pools: ChainView<H>, addr: usize, root: usize)
    requires
        chain_wf(pools, root),
        pools.len() < POOL_LIMIT - 1,
        PoolView::<H>::fresh(addr, DEFAULT_SLOT_COUNT).wf(),
    ensures
        chain_wf(grown(pools, addr, DEFAULT_SLOT_COUNT, root), root),
{
    let after = grown(pools, addr, DEFAULT_SLOT_COUNT, root);
    let n = pools.len() as int;
    assert forall|i: int| 0 <= i < after.len() implies (#[trigger] after[i]).wf() && after[i].root
        == root by {
        if i < n {
            assert(pools[i].wf());
        }
    }
    assert forall|i: int| 0 <= i < after.len() implies #[trigger] linked_at(after, i) by {
        if i < n {
            assert(linked_at(pools, i));
        }
    }
}

proof fn lemma_taken_wf<H>(pools: ChainView<H>, root: usize)
    requires
        chain_wf(pools, root),
        pools.last().free.len() > 0,
        pools.last().after_take().wf(),
    ensures
        chain_wf(taken(pools), root),
{
    let after = taken(pools);
    assert forall|i: int| 0 <= i < after.len() implies (#[trigger] after[i]).wf() && after[i].root
        == root by {
        assert(pools[i].wf());
    }
    assert forall|i: int| 0 <= i < after.len() implies #[trigger] linked_at(after, i) by {
        assert(linked_at(pools, i));
    }
}

/// The chain stays sound when one of its pools is replaced by a sound one that differs only in
/// its slots and its free list.
pub proof fn lemma_replaced_wf<H>(pools: ChainView<H>, k: int, pool: PoolView<H>, root: usize)
    requires
        chain_wf(pools, root),
        0 <= k < pools.len(),
        pool.wf(),
        pool.addr == pools[k].addr,
        pool.prev == pools[k].prev,
        pool.next == pools[k].next,
        pool.root == pools[k].root,
        pool.slots.len() == pools[k].slots.len(),
    ensures
        chain_wf(pools.update(k, pool), root),
{
    let after = pools.update(k, pool);
    assert forall|i: int| 0 <= i < after.len() implies (#[trigger] after[i]).wf() && after[i].root
        == root by {
        assert(pools[i].wf());
    }
    assert forall|i: int| 0 <= i < after.len() implies #[trigger] linked_at(after, i) by {
        assert(linked_at(pools, i));
    }
}

/// Of two replacements of the same slot the second counts.
pub proof fn lemma_with_slot_twice<H>(
    pools: ChainView<H>,
    p: SlotPtr,
    first: SlotView<H>,
    second: SlotView<H>,
)
    requires
        in_use(pools, p),
    ensures
        with_slot(with_slot(pools, p, first), p, second) == with_slot(pools, p, second),
        with_slot(pools, p, slot_of(pools, p)) == pools,
{
    let k = p.pool();
    let a = with_slot(with_slot(pools, p, first), p, second);
    assert(a[k].slots =~= with_slot(pools, p, second)[k].slots);
    assert(a =~= with_slot(pools, p, second));
    assert(with_slot(pools, p, slot_of(pools, p))[k].slots =~= pools[k].slots);
    assert(with_slot(pools, p, slot_of(pools, p)) =~= pools);
}

/// Giving a slot back leaves nothing of what was in it.
pub proof fn lemma_with_slot_returned<H>(pools: ChainView<H>, p: SlotPtr, slot: SlotView<H>)
    requires
        in_use(pools, p),
    ensures
        returned(with_slot(pools, p, slot), p) == returned(pools, p),
{
    let k = p.pool();
    let a = returned(with_slot(pools, p, slot), p);
    assert(a[k].slots =~= returned(pools, p)[k].slots);
    assert(a =~= returned(pools, p));
}

/// Replacing a slot in use changes no other slot, and what is in use.
pub proof fn lemma_with_slot_chain<H>(
    pools: ChainView<H>,
    root: usize,
    p: SlotPtr,
    slot: SlotView<H>,
)
    requires
        chain_wf(pools, root),
        in_use(pools, p),
        slot.pool_order == slot_of(pools, p).pool_order,
    ensures
        chain_wf(with_slot(pools, p, slot), root),
        slot_of(with_slot(pools, p, slot), p) == slot,
        forall|q: SlotPtr| #[trigger]
            in_use(with_slot(pools, p, slot), q) == in_use(pools, q),
        forall|q: SlotPtr|
            q != p && in_use(pools, q) ==> #[trigger] slot_of(with_slot(pools, p, slot), q)
                == slot_of(pools, q),
        with_slot(pools, p, slot).len() == pools.len(),
        forall|i: int|
            0 <= i < pools.len() ==> (#[trigger] with_slot(pools, p, slot)[i]).addr == pools[i].addr
                && with_slot(pools, p, slot)[i].slots.len() == pools[i].slots.len(),
{
    let k = p.pool();
    lemma_with_slot(pools[k], p.index() as PoolIndex, slot);
    lemma_replaced_wf(pools, k, pools[k].with_slot(p.index(), slot), root);
}

/// Giving back a slot frees it and changes no other.
pub proof fn lemma_returned_chain<H>(pools: ChainView<H>, root: usize, p: SlotPtr)
    requires
        chain_wf(pools, root),
        in_use(pools, p),
    ensures
        chain_wf(returned(pools, p), root),
        forall|q: SlotPtr| #[trigger]
            in_use(returned(pools, p), q) == (in_use(pools, q) && q != p),
        forall|q: SlotPtr|
            q != p && in_use(pools, q) ==> #[trigger] slot_of(returned(pools, p), q) == slot_of(
                pools,
                q,
            ),
        returned(pools, p).len() == pools.len(),
        forall|i: int|
            0 <= i < pools.len() ==> (#[trigger] returned(pools, p)[i]).addr == pools[i].addr
                && returned(pools, p)[i].slots.len() == pools[i].slots.len(),
{
    let k = p.pool();
    law_returned_slot_is_next(pools[k], p.index() as PoolIndex);
    lemma_replaced_wf(pools, k, pools[k].after_return(p.index() as PoolIndex), root);
    assert forall|q: SlotPtr| #[trigger] in_use(returned(pools, p), q) == (in_use(pools, q) && q
        != p) by {
        if q.pool() == p.pool() {
            law_return_frees_one_slot(pools[k], p.index() as PoolIndex, q.index() as PoolIndex);
        }
    }
}

/// Handing out a slot takes a free one into use, with nothing in it, and changes no other.
pub proof fn lemma_taken_chain<H>(pools: ChainView<H>, root: usize)
    requires
        chain_wf(pools, root),
        pools.last().free.len() > 0,
    ensures
        chain_wf(taken(pools), root),
        !in_use(pools, next_slot(pools)),
        in_use(taken(pools), next_slot(pools)),
        slot_of(taken(pools), next_slot(pools)).state == DataState::Reclaimed,
        slot_of(taken(pools), next_slot(pools)).count == 0,
        !slot_of(taken(pools), next_slot(pools)).locked,
        forall|q: SlotPtr| #[trigger]
            in_use(taken(pools), q) == (in_use(pools, q) || q == next_slot(pools)),
        forall|q: SlotPtr|
            q.pool() < pools.len() ==> #[trigger] slot_of(taken(pools), q) == slot_of(pools, q),
        taken(pools).len() == pools.len(),
        forall|i: int|
            0 <= i < pools.len() ==> (#[trigger] taken(pools)[i]).addr == pools[i].addr
                && taken(pools)[i].slots.len() == pools[i].slots.len(),
{
    let k = pools.len() - 1;
    let pool = pools[k];
    let p = next_slot(pools);
    assert(pool.wf());
    assert(free_at(pool.slots, pool.free, 0));
    law_take_uses_one_slot(pool, pool.free[0]);
    lemma_after_take_wf(pool);
    lemma_taken_wf(pools, root);
    assert forall|q: SlotPtr| #[trigger] in_use(taken(pools), q) == (in_use(pools, q) || q
        == p) by {
        if q.pool() == p.pool() {
            law_take_uses_one_slot(pool, q.index() as PoolIndex);
        }
    }
}

/// A new pool brings no slot into use and changes none.
pub proof fn lemma_grown_chain<H>(
    pools: ChainView<H>,
    addr: usize,
    root: usize,
)
    requires
        chain_wf(pools, root),
        pools.len() < POOL_LIMIT - 1,
        PoolView::<H>::fresh(addr, DEFAULT_SLOT_COUNT).wf(),
    ensures
        chain_wf(grown(pools, addr, DEFAULT_SLOT_COUNT, root), root),
        forall|q: SlotPtr| #[trigger]
            in_use(grown(pools, addr, DEFAULT_SLOT_COUNT, root), q) == in_use(pools, q),
        forall|q: SlotPtr|
            in_use(pools, q) ==> #[trigger] slot_of(grown(pools, addr, DEFAULT_SLOT_COUNT, root), q) == slot_of(
                pools,
                q,
            ),
        grown(pools, addr, DEFAULT_SLOT_COUNT, root).len() == pools.len() + 1,
        grown(pools, addr, DEFAULT_SLOT_COUNT, root).last().addr == addr,
        grown(pools, addr, DEFAULT_SLOT_COUNT, root).last().slots.len() == DEFAULT_SLOT_COUNT,
        grown(pools, addr, DEFAULT_SLOT_COUNT, root).last().free.len() == DEFAULT_SLOT_COUNT,
        forall|i: int|
            0 <= i < pools.len() ==> (#[trigger] grown(pools, addr, DEFAULT_SLOT_COUNT, root)[i]).addr
                == pools[i].addr && grown(pools, addr, DEFAULT_SLOT_COUNT, root)[i].slots.len()
                == pools[i].slots.len(),
{
    lemma_grown_wf(pools, addr, root);
    let after = grown(pools, addr, DEFAULT_SLOT_COUNT, root);
    assert forall|q: SlotPtr| #[trigger] in_use(after, q) == in_use(pools, q) by {
        if q.pool() == pools.len() && q.index() < DEFAULT_SLOT_COUNT {
            let free = PoolView::<H>::fresh(addr, DEFAULT_SLOT_COUNT).free;
            assert(free[q.index()] == q.index() as PoolIndex);
        }
    }
}

/// A slot that is handed out is the first free one of the last pool: it was not in use, it is then,
/// and no other slot changes.
pub proof fn law_chain_hands_out<H>(pools: ChainView<H>, root: usize, q: SlotPtr)
    requires
        chain_wf(pools, root),
        pools.last().free.len() > 0,
    ensures
        ({
            let p = next_slot(pools);
            let after = taken(pools);
            &&& p.pool() == pools.len() - 1 && p.index() == pools.last().free[0]
            &&& !in_use(pools, p) && in_use(after, p)
            &&& q != p ==> in_use(after, q) == in_use(pools, q)
            &&& in_use(pools, q) ==> slot_of(after, q) == slot_of(pools, q)
            &&& after.len() == pools.len()
        }),
{
    lemma_taken_chain(pools, root);
    let pool = pools[pools.len() - 1];
    assert(pool.wf());
    assert(free_at(pool.slots, pool.free, 0));
    law_slot_positions(pools.len() - 1, pool.free[0] as int);
}

/// A slot that is given back is free, and no other slot changes.
pub proof fn law_chain_takes_back<H>(pools: ChainView<H>, root: usize, p: SlotPtr, q: SlotPtr)
    requires
        chain_wf(pools, root),
        in_use(pools, p),
    ensures
        ({
            let after = returned(pools, p);
            &&& !in_use(after, p)
            &&& q != p ==> in_use(after, q) == in_use(pools, q)
            &&& q != p && in_use(pools, q) ==> slot_of(after, q) == slot_of(pools, q)
            &&& after[p.pool()].free.len() == pools[p.pool()].free.len() + 1
            &&& after[p.pool()].free[0] == p.index()
            &&& after.len() == pools.len()
        }),
{
    lemma_returned_chain(pools, root, p);
}

/// A chain that grows gets one pool of the default size behind the others, with all of its slots
/// free, and no slot changes.
pub proof fn law_chain_grows<H>(pools: ChainView<H>, addr: usize, root: usize, q: SlotPtr)
    requires
        chain_wf(pools, root),
        pools.len() < POOL_LIMIT - 1,
        PoolView::<H>::fresh(addr, DEFAULT_SLOT_COUNT).wf(),
    ensures
        ({
            let after = grown(pools, addr, DEFAULT_SLOT_COUNT, root);
            &&& after.len() == pools.len() + 1
            &&& after.last().addr == addr && after.last().root == root
            &&& after.last().slots.len() == 340 && after.last().free.len() == 340
            &&& after.last().prev == pools.last().addr
            &&& after[pools.len() - 1].next == addr
            &&& in_use(after, q) == in_use(pools, q)
            &&& in_use(pools, q) ==> slot_of(after, q) == slot_of(pools, q)
        }),
{
    lemma_grown_chain(pools, addr, root);
}

} // verus!
