//! Pools of weak slots.

use vstd::prelude::*;

use crate::mem_::{clear_of, AllocError, Layout, TrAllocator};
use crate::ptr_::{ChunkPtr, PoolIndex, SlotPtr};

use super::chunk_::{DataState, SlotView, WeakChunk};

verus! {

/// The size of the pools that are opened when nothing asks for a larger one.
pub const DEFAULT_PAGE_SIZE: usize = 16384;

/// How many weak slots a pool of the default size has.
pub const DEFAULT_SLOT_COUNT: u16 = 340;

/// The size of a slot.
pub const SLOT_SIZE: usize = 48;

/// What the address of a slot, and of a pool's head, must be a multiple of.
pub const SLOT_ALIGN: usize = 8;

/// How many slots' room the head of a pool takes.
pub const HEADER_SLOT_COUNT: usize = 1;

/// The room that the head of a pool takes: that of whole slots.
pub const HEADER_BYTES: usize = 48;

/// The head of a pool. Addresses are 0 where there is nothing.
pub struct WeakPoolHead {
    /// How many slots there are.
    pub capacity_: PoolIndex,
    /// How many of them are in use.
    pub used_length_: PoolIndex,
    /// How many slots' room the head takes.
    pub cell_offset_: PoolIndex,
    /// The slot that is handed out next; without meaning where all are in use.
    pub latest_free_: PoolIndex,
    /// The address of the pool before this one.
    pub prev_: usize,
    /// The address of the pool after this one.
    pub next_: usize,
    /// The address of the root that the pool belongs to.
    pub root_: usize,
}

/// A pool as it is spoken of in contracts.
#[verifier::ext_equal]
pub struct PoolView<H> {
    /// The address of the head.
    pub addr: usize,
    pub prev: usize,
    pub next: usize,
    pub root: usize,
    /// All slots, by index.
    pub slots: Seq<SlotView<H>>,
    /// The slots that are free, in the order in which they are handed out.
    pub free: Seq<PoolIndex>,
}

/// What the `i`-th slot of a free list is; behind the end, the number of all slots.
pub open spec fn free_link(free: Seq<PoolIndex>, i: int, capacity: int) -> PoolIndex {
    if i < free.len() {
        free[i]
    } else {
        capacity as PoolIndex
    }
}

/// The `i`-th free slot is one of the pool's, is linked to the one behind it, and has nothing
/// left of its last use.
pub open spec fn free_at<H>(slots: Seq<SlotView<H>>, free: Seq<PoolIndex>, i: int) -> bool {
    &&& free[i] < slots.len()
    &&& slots[free[i] as int] == SlotView::<H>::unused(
        free[i],
        free_link(free, i + 1, slots.len() as int),
    )
}

impl<H> PoolView<H> {
    /// Whether the slot is in use.
    pub open spec fn in_use(&self, index: PoolIndex) -> bool {
        index < self.slots.len() && !self.free.contains(index)
    }

    /// The free list holds every free slot once, each linked to the one behind it, and a free
    /// slot has nothing left of its last use.
    pub open spec fn wf(&self) -> bool {
        &&& 0 < self.slots.len() <= PoolIndex::MAX
        &&& self.free.no_duplicates()
        &&& self.free.len() <= self.slots.len()
        &&& forall|i: int| 0 <= i < self.free.len() ==> #[trigger] free_at(self.slots, self.free, i)
        &&& forall|i: int|
            0 <= i < self.slots.len() ==> (#[trigger] self.slots[i]).pool_order == i
        &&& self.addr + HEADER_BYTES + self.slots.len() * SLOT_SIZE <= usize::MAX
        &&& self.addr % SLOT_ALIGN == 0
        &&& self.addr > 0
    }

    /// The pool after its next free slot was handed out.
    pub open spec fn after_take(&self) -> Self {
        PoolView { free: self.free.drop_first(), ..*self }
    }

    /// The pool after the slot was given back: it will be handed out next.
    pub open spec fn after_return(&self, index: PoolIndex) -> Self {
        PoolView {
            slots: self.slots.update(
                index as int,
                SlotView::<H>::unused(index, free_link(self.free, 0, self.slots.len() as int)),
            ),
            free: seq![index] + self.free,
            ..*self
        }
    }

    /// The pool with the slot replaced.
    pub open spec fn with_slot(&self, index: int, slot: SlotView<H>) -> Self {
        PoolView { slots: self.slots.update(index, slot), ..*self }
    }

    /// The address of a slot.
    pub open spec fn slot_addr(&self, index: int) -> int {
        self.addr + HEADER_BYTES + index * SLOT_SIZE
    }

    /// A pool that was just made.
    pub open spec fn fresh(addr: usize, count: PoolIndex) -> Self {
        PoolView {
            addr,
            prev: 0,
            next: 0,
            root: 0,
            slots: Seq::new(
                count as nat,
                |i: int| SlotView::<H>::unused(i as PoolIndex, (i + 1) as PoolIndex),
            ),
            free: Seq::new(count as nat, |i: int| i as PoolIndex),
        }
    }
}

/// A row of weak slots behind a head. Slots that were given back are handed out before any
/// that was not in use since, the latest first.
pub struct WeakPool<H = ()> {
    addr_: usize,
    head_: WeakPoolHead,
    slots_: Vec<WeakChunk<(), H>>,
    in_use_: Vec<bool>,
    free_: Ghost<Seq<PoolIndex>>,
}

impl<H> View for WeakPool<H> {
    type V = PoolView<H>;

    closed spec fn view(&self) -> PoolView<H> {
        PoolView {
            addr: self.addr_,
            prev: self.head_.prev_,
            next: self.head_.next_,
            root: self.head_.root_,
            slots: Seq::new(self.slots_@.len(), |i: int| self.slots_@[i]@),
            free: self.free_@,
        }
    }
}

/// The size of a pool with this many slots.
pub open spec fn pool_size(count: int) -> int {
    HEADER_BYTES + count * SLOT_SIZE
}

/// The layout of a pool with this many slots.
pub open spec fn pool_layout(count: PoolIndex) -> Layout {
    Layout { size: pool_size(count as int) as usize, align: SLOT_ALIGN }
}

/// How many slots a pool of at most this size can have.
pub open spec fn pool_count(size: int) -> int {
    if size <= HEADER_BYTES {
        0
    } else {
        (size - HEADER_BYTES) / (SLOT_SIZE as int)
    }
}

/// How many slots a pool within a budget of this many bytes gets: as many as fit, but no more
/// than can be numbered.
pub open spec fn budget_count(size: int) -> PoolIndex {
    if pool_count(size) > PoolIndex::MAX {
        PoolIndex::MAX
    } else {
        pool_count(size) as PoolIndex
    }
}

impl<H: Copy> WeakPool<H> {
    pub closed spec fn wf(&self) -> bool {
        &&& self@.wf()
        &&& self.head_.capacity_ == self.slots_@.len()
        &&& self.head_.used_length_ + self.free_@.len() == self.head_.capacity_
        &&& self.head_.cell_offset_ == HEADER_SLOT_COUNT
        &&& self.head_.latest_free_ == free_link(self.free_@, 0, self.slots_@.len() as int)
        &&& self.in_use_@.len() == self.slots_@.len()
        &&& forall|i: PoolIndex|
            i < self.slots_@.len() ==> #[trigger] self.in_use_@[i as int] == !self.free_@.contains(
                i,
            )
    }

    /// The size of a pool with `count` slots.
    pub fn min_size_for_max_count(count: PoolIndex) -> (r: usize)
        ensures
            r == pool_size(count as int),
    {
        HEADER_SLOT_COUNT * SLOT_SIZE + (count as usize) * SLOT_SIZE
    }

    /// How many slots a pool of at most this size can have.
    pub fn max_count_within_max_size(size: usize) -> (r: usize)
        ensures
            r == pool_count(size as int),
    {
        let header: usize = HEADER_SLOT_COUNT * SLOT_SIZE;
        if size <= header {
            return 0usize;
        }
        (size - header) / SLOT_SIZE
    }

    /// Makes a pool of `cell_count` slots.
    pub fn try_new_with_cell_count<A: TrAllocator>(
        cell_count: PoolIndex,
        alloc: &mut A,
    ) -> (r: Result<Self, AllocError>)
        requires
            old(alloc).wf(),
        ensures
            final(alloc).wf(),
            match r {
                Ok(pool) => {
                    &&& cell_count > 0
                    &&& old(alloc).grants(pool_layout(cell_count)) == Some(pool@.addr)
                    &&& pool.wf()
                    &&& pool@ == PoolView::<H>::fresh(pool@.addr, cell_count)
                    &&& !old(alloc).blocks().contains_key(pool@.addr)
                    &&& clear_of(old(alloc).blocks(), pool@.addr, pool_layout(cell_count))
                    &&& final(alloc).blocks() == old(alloc).blocks().insert(
                        pool@.addr,
                        pool_layout(cell_count),
                    )
                },
                Err(_) => {
                    &&& cell_count == 0 || old(alloc).grants(pool_layout(cell_count)) is None
                    &&& final(alloc).blocks() == old(alloc).blocks()
                },
            },
            *final(alloc) == (if cell_count == 0 {
                *old(alloc)
            } else {
                old(alloc).asked(pool_layout(cell_count))
            }),
    {
        if cell_count == 0 {
            return Err(AllocError);
        }
        match alloc.allocate(Self::layout_of_(cell_count)) {
            Err(e) => Err(e),
            Ok(addr) => Ok(Self::init_in_place_(addr, cell_count)),
        }
    }

    /// Makes a pool of as many slots as fit into `max_size` bytes, but no more than can be
    /// numbered. Fails where not one fits, or where there is no memory.
    pub fn try_new_with_max_size<A: TrAllocator>(max_size: usize, alloc: &mut A) -> (r: Result<
        Self,
        AllocError,
    >)
        requires
            old(alloc).wf(),
        ensures
            final(alloc).wf(),
            ({
                let count = budget_count(max_size as int);
                &&& *final(alloc) == (if count == 0 {
                    *old(alloc)
                } else {
                    old(alloc).asked(pool_layout(count))
                })
                &&& match r {
                    Ok(pool) => {
                        &&& count > 0
                        &&& old(alloc).grants(pool_layout(count)) == Some(pool@.addr)
                        &&& pool.wf()
                        &&& pool@ == PoolView::<H>::fresh(pool@.addr, count)
                        &&& !old(alloc).blocks().contains_key(pool@.addr)
                        &&& clear_of(old(alloc).blocks(), pool@.addr, pool_layout(count))
                        &&& final(alloc).blocks() == old(alloc).blocks().insert(
                            pool@.addr,
                            pool_layout(count),
                        )
                    },
                    Err(_) => {
                        &&& count == 0 || old(alloc).grants(pool_layout(count)) is None
                        &&& final(alloc).blocks() == old(alloc).blocks()
                    },
                }
            }),
    {
        let count: usize = Self::max_count_within_max_size(max_size);
        if count > PoolIndex::MAX as usize {
            return Self::try_new_with_cell_count(PoolIndex::MAX, alloc);
        }
        Self::try_new_with_cell_count(count as PoolIndex, alloc)
    }

    /// The layout of a pool of `cell_count` slots.
    pub fn layout_of_(cell_count: PoolIndex) -> (r: Layout)
        ensures
            r == pool_layout(cell_count),
            r.wf(),
            r.size == pool_size(cell_count as int),
    {
        Layout {
            size: HEADER_SLOT_COUNT * SLOT_SIZE + (cell_count as usize) * SLOT_SIZE,
            align: SLOT_ALIGN,
        }
    }

    /// Makes the head and the slots of a pool at the address `addr`, all slots free.
    pub fn init_in_place_(addr: usize, cell_count: PoolIndex) -> (r: Self)
        requires
            cell_count > 0,
            addr > 0,
            addr % SLOT_ALIGN == 0,
            addr + pool_size(cell_count as int) <= usize::MAX,
        ensures
            r.wf(),
            r@ == PoolView::<H>::fresh(addr, cell_count),
    {
        let mut slots: Vec<WeakChunk<(), H>> = Vec::new();
        let mut in_use: Vec<bool> = Vec::new();
        while slots.len() < cell_count as usize
            invariant
                slots.len() <= cell_count,
                in_use.len() == slots.len(),
                forall|i: int| 0 <= i < in_use.len() ==> !#[trigger] in_use@[i],
            decreases cell_count - slots.len(),
        {
            slots.push(WeakChunk::stack_empty_());
            in_use.push(false);
        }
        WeakChunk::init_slots(&mut slots, cell_count);
        let ghost free = Seq::new(cell_count as nat, |i: int| i as PoolIndex);
        let pool = WeakPool {
            addr_: addr,
            head_: WeakPoolHead {
                capacity_: cell_count,
                used_length_: 0,
                cell_offset_: HEADER_SLOT_COUNT as PoolIndex,
                latest_free_: 0,
                prev_: 0,
                next_: 0,
                root_: 0,
            },
            slots_: slots,
            in_use_: in_use,
            free_: Ghost(free),
        };
        proof {
            assert(pool@.slots =~= PoolView::<H>::fresh(addr, cell_count).slots);
            assert forall|i: int| 0 <= i < pool@.free.len() implies #[trigger] free_at(pool@.slots, pool@.free, i) by {}
            assert forall|i: PoolIndex| i < cell_count implies free.contains(i) by {
                assert(free[i as int] == i);
            }
        }
        pool
    }

    /// How many slots there are.
    pub fn capacity(&self) -> (r: PoolIndex)
        requires
            self.wf(),
        ensures
            r == self@.slots.len(),
    {
        self.head_.capacity_
    }

    /// How many slots are in use.
    pub fn used_count(&self) -> (r: PoolIndex)
        requires
            self.wf(),
        ensures
            r == self@.slots.len() - self@.free.len(),
    {
        self.head_.used_length_
    }

    /// How many slots are free.
    pub fn free_count(&self) -> (r: PoolIndex)
        requires
            self.wf(),
        ensures
            r == self@.free.len(),
    {
        self.head_.capacity_ - self.head_.used_length_
    }

    /// The slot that is handed out next; the number of slots where all are in use.
    pub fn latest_free(&self) -> (r: PoolIndex)
        requires
            self.wf(),
        ensures
            r == free_link(self@.free, 0, self@.slots.len() as int),
    {
        self.head_.latest_free_
    }

    /// The address of the head.
    pub fn addr_(&self) -> (r: usize)
        ensures
            r == self@.addr,
    {
        self.addr_
    }

    /// The link of a slot to the next free one.
    pub fn next_freed_of(&self, index: PoolIndex) -> (r: PoolIndex)
        requires
            index < self@.slots.len(),
        ensures
            r == self@.slots[index as int].next_freed,
    {
        self.slot_at_(index).next_freed()
    }

    /// Overwrites the link of a slot to the next free one. While the slot is free this can
    /// break the free list.
    pub fn set_next_freed_of(&mut self, index: PoolIndex, next: PoolIndex)
        requires
            index < old(self)@.slots.len(),
        ensures
            final(self)@ == old(self)@.with_slot(
                index as int,
                SlotView { next_freed: next, ..old(self)@.slots[index as int] },
            ),
            old(self).wf() && old(self)@.in_use(index) ==> final(self).wf(),
    {
        let ghost before = self@;
        let slot = &mut self.slots_[index as usize];
        slot.chunk_state_.set_next_freed(next);
        proof {
            let slot = SlotView { next_freed: next, ..before.slots[index as int] };
            assert(self@.slots =~= before.slots.update(index as int, slot));
            if old(self).wf() && before.in_use(index) {
                lemma_with_slot(before, index, slot);
            }
        }
    }

    /// The address of the pool after this one.
    pub fn next(&self) -> (r: Option<usize>)
        ensures
            r == (if self@.next == 0 {
                None
            } else {
                Some(self@.next)
            }),
    {
        if self.head_.next_ == 0 {
            None
        } else {
            Some(self.head_.next_)
        }
    }

    /// The address of the pool before this one.
    pub fn prev(&self) -> (r: Option<usize>)
        ensures
            r == (if self@.prev == 0 {
                None
            } else {
                Some(self@.prev)
            }),
    {
        if self.head_.prev_ == 0 {
            None
        } else {
            Some(self.head_.prev_)
        }
    }

    /// The address of the root that the pool belongs to.
    pub fn root(&self) -> (r: Option<usize>)
        ensures
            r == (if self@.root == 0 {
                None
            } else {
                Some(self@.root)
            }),
    {
        if self.head_.root_ == 0 {
            None
        } else {
            Some(self.head_.root_)
        }
    }

    pub fn set_root(&mut self, root: usize)
        ensures
            final(self)@ == (PoolView { root, ..old(self)@ }),
            old(self).wf() ==> final(self).wf(),
    {
        self.head_.root_ = root;
        proof {
            assert(self@.slots =~= old(self)@.slots);
        }
    }

    /// Chains `next` behind this pool.
    pub fn link_siblings(&mut self, next: &mut WeakPool<H>)
        ensures
            final(self)@ == (PoolView { next: old(next)@.addr, ..old(self)@ }),
            final(next)@ == (PoolView { prev: old(self)@.addr, ..old(next)@ }),
            old(self).wf() ==> final(self).wf(),
            old(next).wf() ==> final(next).wf(),
    {
        self.head_.next_ = next.addr_;
        next.head_.prev_ = self.addr_;
        proof {
            assert(self@.slots =~= old(self)@.slots);
            assert(next@.slots =~= old(next)@.slots);
        }
    }

    /// Hands out the next free slot; `None` where all are in use.
    pub fn allocate(&mut self) -> (r: Option<PoolIndex>)
        requires
            old(self).wf(),
        ensures
            final(self).wf(),
            match r {
                None => old(self)@.free.len() == 0 && final(self)@ == old(self)@,
                Some(index) => {
                    &&& old(self)@.free.len() > 0
                    &&& index == old(self)@.free[0]
                    &&& final(self)@ == old(self)@.after_take()
                },
            },
    {
        if self.head_.used_length_ == self.head_.capacity_ {
            return None;
        }
        let index: PoolIndex = self.head_.latest_free_;
        assert(free_at(self@.slots, self@.free, 0));
        self.head_.latest_free_ = self.slots_[index as usize].next_freed();
        self.head_.used_length_ = self.head_.used_length_ + 1;
        self.in_use_.set(index as usize, true);
        proof {
            let free = self.free_@;
            self.free_@ = free.drop_first();
            assert(self@.slots =~= old(self)@.slots);
            assert forall|i: PoolIndex| i < self.slots_@.len() implies (#[trigger] self.in_use_@[i as int])
                == !self.free_@.contains(i) by {
                if free.contains(i) && i != index {
                    let k = choose|k: int| 0 <= k < free.len() && free[k] == i;
                    assert(free.drop_first()[k - 1] == i);
                }
                if free.drop_first().contains(i) {
                    let k = choose|k: int|
                        0 <= k < free.drop_first().len() && free.drop_first()[k] == i;
                    assert(free[k + 1] == i);
                    assert(free[0] == index);
                }
            }
            assert forall|i: int| 0 <= i < self@.free.len() implies #[trigger] free_at(self@.slots, self@.free, i) by {
                assert(free_at(old(self)@.slots, old(self)@.free, i + 1));
            }
        }
        Some(index)
    }

    /// Takes a slot back, if it is in use, and says whether it was.
    pub fn deallocate(&mut self, index: PoolIndex) -> (r: bool)
        requires
            old(self).wf(),
            old(self)@.in_use(index) ==> !old(self)@.slots[index as int].locked,
        ensures
            final(self).wf(),
            r == old(self)@.in_use(index),
            final(self)@ == (if r {
                old(self)@.after_return(index)
            } else {
                old(self)@
            }),
    {
        if index >= self.head_.capacity_ || !self.in_use_[index as usize] {
            return false;
        }
        let ghost before = self@;
        let head: PoolIndex = self.head_.latest_free_;
        let slot = &mut self.slots_[index as usize];
        slot.link_as_freed(head);
        self.head_.latest_free_ = index;
        proof {
            lemma_free_room(before, index);
        }
        self.head_.used_length_ = self.head_.used_length_ - 1;
        self.in_use_.set(index as usize, false);
        proof {
            let free = before.free;
            self.free_@ = seq![index] + free;
            assert(self@.slots =~= before.after_return(index).slots);
            assert forall|i: PoolIndex| i < self.slots_@.len() implies (#[trigger] self.in_use_@[i as int])
                == !self.free_@.contains(i) by {
                if free.contains(i) {
                    let k = choose|k: int| 0 <= k < free.len() && free[k] == i;
                    assert(self.free_@[k + 1] == i);
                }
                if i == index {
                    assert(self.free_@[0] == i);
                }
                if self.free_@.contains(i) && i != index {
                    let k = choose|k: int| 0 <= k < self.free_@.len() && self.free_@[k] == i;
                    assert(free[k - 1] == i);
                }
            }
            assert forall|i: int| 0 <= i < self@.free.len() implies #[trigger] free_at(self@.slots, self@.free, i) by {
                if i > 0 {
                    assert(free_at(before.slots, before.free, i - 1));
                    assert(free[i - 1] != index);
                }
            }
        }
        true
    }

    /// The index that a slot knows itself by.
    pub fn pool_order_of(&self, index: PoolIndex) -> (r: PoolIndex)
        requires
            index < self@.slots.len(),
        ensures
            r == self@.slots[index as int].pool_order,
    {
        self.slot_at_(index).pool_order()
    }

    /// All slots.
    pub fn slots(&self) -> (r: &Vec<WeakChunk<(), H>>)
        ensures
            r.len() == self@.slots.len(),
            forall|i: int| 0 <= i < r.len() ==> (#[trigger] r@[i])@ == self@.slots[i],
    {
        &self.slots_
    }

    /// The slot at `index`.
    pub fn slot_at_(&self, index: PoolIndex) -> (r: &WeakChunk<(), H>)
        requires
            index < self@.slots.len(),
        ensures
            r@ == self@.slots[index as int],
    {
        &self.slots_[index as usize]
    }

    /// The slot at `index`, to change.
    pub fn slot_mut_at_(&mut self, index: PoolIndex) -> (r: &mut WeakChunk<(), H>)
        requires
            old(self).wf(),
            old(self)@.in_use(index),
        ensures
            r@ == old(self)@.slots[index as int],
            final(self)@ == old(self)@.with_slot(index as int, final(r)@),
            final(r)@.pool_order == index ==> final(self).wf(),
    {
        let ghost before = self@;
        proof {
            assert forall|slot: SlotView<H>| slot.pool_order == index implies (
            #[trigger] before.with_slot(index as int, slot)).wf() by {
                lemma_with_slot(before, index, slot);
            }
        }
        let slot = &mut self.slots_[index as usize];
        assert(after_borrow(*self)@ =~= before.with_slot(index as int, (*final(slot))@));
        slot
    }

    /// The address of the slot at `index`.
    pub fn slot_addr_(&self, index: PoolIndex) -> (r: usize)
        requires
            self.wf(),
            index < self@.slots.len(),
        ensures
            r == self@.slot_addr(index as int),
    {
        self.addr_ + self.head_.cell_offset_ as usize * SLOT_SIZE + (index as usize) * SLOT_SIZE
    }

    /// The address of the pool whose slot number `order` is at `addr`; `None` where there can
    /// be no such pool.
    pub fn of_slot_(addr: usize, order: PoolIndex) -> (r: Option<usize>)
        ensures
            r == (if addr % SLOT_ALIGN == 0 && addr >= pool_size(order as int) {
                Some((addr - pool_size(order as int)) as usize)
            } else {
                None
            }),
    {
        if addr % SLOT_ALIGN != 0 {
            return None;
        }
        let offset: usize = HEADER_BYTES + (order as usize) * SLOT_SIZE;
        if addr < offset {
            return None;
        }
        let base: usize = addr - offset;
        if base % SLOT_ALIGN != 0 {
            return None;
        }
        Some(base)
    }

    /// The index of the slot at `addr`; `None` where no slot of this pool starts there.
    pub fn index_of_(&self, addr: usize) -> (r: Option<PoolIndex>)
        requires
            self.wf(),
        ensures
            match r {
                Some(index) => index < self@.slots.len() && addr == self@.slot_addr(index as int),
                None => forall|i: int|
                    0 <= i < self@.slots.len() ==> addr != #[trigger] self@.slot_addr(i),
            },
    {
        let slot_start: usize = self.addr_ + self.head_.cell_offset_ as usize * SLOT_SIZE;
        let slot_end: usize = slot_start + self.head_.capacity_ as usize * SLOT_SIZE;
        proof {
            lemma_slot_addr(self@, addr as int, slot_start as int, slot_end as int);
        }
        if addr < slot_start || addr >= slot_end {
            return None;
        }
        let offset: usize = addr - slot_start;
        if offset % SLOT_SIZE != 0 {
            return None;
        }
        Some((offset / SLOT_SIZE) as PoolIndex)
    }
}

/// What a pool's invariant says of its view.
pub broadcast proof fn lemma_pool_view_wf<H: Copy>(pool: WeakPool<H>)
    ensures
        #[trigger] pool.wf() ==> pool@.wf(),
{
}

/// A slot that was given back is the next that is handed out, and when it is, the other free
/// slots stand in line as before.
pub proof fn law_returned_slot_is_next<H>(pool: PoolView<H>, index: PoolIndex)
    requires
        pool.wf(),
        pool.in_use(index),
    ensures
        pool.after_return(index).free[0] == index,
        pool.after_return(index).after_take().free == pool.free,
        pool.after_return(index).wf(),
        pool.after_return(index).after_take().wf(),
        pool.after_return(index).after_take().in_use(index),
{
    let back = pool.after_return(index);
    lemma_free_room(pool, index);
    assert(back.free.drop_first() =~= pool.free);
    assert forall|i: int| 0 <= i < back.free.len() implies #[trigger] free_at(back.slots, back.free, i) by {
        if i > 0 {
            assert(free_at(pool.slots, pool.free, i - 1));
            assert(back.free[i] == pool.free[i - 1]);
            assert(pool.free[i - 1] != index);
        }
    }
    let again = back.after_take();
    assert forall|i: int| 0 <= i < again.free.len() implies #[trigger] free_at(again.slots, again.free, i) by {
        assert(free_at(pool.slots, pool.free, i));
        assert(again.free[i] == pool.free[i]);
        assert(pool.free[i] != index);
    }
}

/// A pool that was just made is sound, if its block is.
pub proof fn lemma_fresh_wf<H>(addr: usize, count: PoolIndex)
    requires
        count > 0,
        addr > 0,
        addr % SLOT_ALIGN == 0,
        addr + pool_size(count as int) <= usize::MAX,
    ensures
        PoolView::<H>::fresh(addr, count).wf(),
{
    let pool = PoolView::<H>::fresh(addr, count);
    assert forall|i: int| 0 <= i < pool.free.len() implies #[trigger] free_at(
        pool.slots,
        pool.free,
        i,
    ) by {}
}

/// Handing out a slot keeps the pool sound.
pub proof fn lemma_after_take_wf<H>(pool: PoolView<H>)
    requires
        pool.wf(),
        pool.free.len() > 0,
    ensures
        pool.after_take().wf(),
{
    let after = pool.after_take();
    assert forall|i: int| 0 <= i < after.free.len() implies #[trigger] free_at(
        after.slots,
        after.free,
        i,
    ) by {
        assert(free_at(pool.slots, pool.free, i + 1));
    }
}

/// Handing out a slot takes it off the free list and leaves every other slot as it was: in use
/// if it was in use, free if it was free.
pub proof fn law_take_uses_one_slot<H>(pool: PoolView<H>, other: PoolIndex)
    requires
        pool.wf(),
        pool.free.len() > 0,
    ensures
        !pool.in_use(pool.free[0]),
        pool.after_take().in_use(pool.free[0]),
        pool.after_take().slots == pool.slots,
        pool.after_take().free.len() == pool.free.len() - 1,
        other != pool.free[0] ==> pool.after_take().in_use(other) == pool.in_use(other),
{
    let index = pool.free[0];
    let rest = pool.free.drop_first();
    assert(free_at(pool.slots, pool.free, 0));
    assert(pool.free.contains(index));
    if rest.contains(index) {
        let k = choose|k: int| 0 <= k < rest.len() && rest[k] == index;
        assert(pool.free[k + 1] == index);
    }
    if rest.contains(other) {
        let k = choose|k: int| 0 <= k < rest.len() && rest[k] == other;
        assert(pool.free[k + 1] == other);
    }
    if pool.free.contains(other) && other != index {
        let k = choose|k: int| 0 <= k < pool.free.len() && pool.free[k] == other;
        assert(rest[k - 1] == other);
    }
}

/// Giving back a slot frees it and leaves every other slot as it was.
pub proof fn law_return_frees_one_slot<H>(pool: PoolView<H>, index: PoolIndex, other: PoolIndex)
    requires
        pool.wf(),
        pool.in_use(index),
    ensures
        !pool.after_return(index).in_use(index),
        other != index ==> pool.after_return(index).in_use(other) == pool.in_use(other),
        other != index && other < pool.slots.len() ==> pool.after_return(index).slots[other as int]
            == pool.slots[other as int],
{
    let back = pool.after_return(index);
    assert(back.free[0] == index);
    if pool.free.contains(other) {
        let k = choose|k: int| 0 <= k < pool.free.len() && pool.free[k] == other;
        assert(back.free[k + 1] == other);
    }
    if back.free.contains(other) && other != index {
        let k = choose|k: int| 0 <= k < back.free.len() && back.free[k] == other;
        assert(pool.free[k - 1] == other);
    }
}

/// A pool made for a number of slots holds that number, and one byte less would not do.
pub proof fn law_pool_size_is_tight(count: int)
    requires
        count >= 0,
    ensures
        pool_count(pool_size(count)) == count,
        count > 0 ==> pool_count(pool_size(count) - 1) == count - 1,
{
}

/// From the address of a slot and its index the address of its pool is found again, slots lie
/// behind the head and inside the pool, and no two overlap.
pub proof fn law_slot_addresses<H>(pool: PoolView<H>, i: int, j: int)
    requires
        pool.wf(),
        0 <= i < j < pool.slots.len(),
    ensures
        pool.slot_addr(i) - pool_size(i) == pool.addr,
        pool.slot_addr(i) % (SLOT_ALIGN as int) == 0,
        pool.addr + HEADER_BYTES <= pool.slot_addr(i),
        pool.slot_addr(i) + SLOT_SIZE <= pool.slot_addr(j),
        pool.slot_addr(j) + SLOT_SIZE <= pool.addr + pool_size(pool.slots.len() as int),
{
}

/// Whatever happens to a slot in use, the free list stays as it is.
pub proof fn lemma_with_slot<H>(pool: PoolView<H>, index: PoolIndex, slot: SlotView<H>)
    requires
        pool.wf(),
        pool.in_use(index),
        slot.pool_order == index,
    ensures
        pool.with_slot(index as int, slot).wf(),
{
    let after = pool.with_slot(index as int, slot);
    assert forall|i: int| 0 <= i < after.free.len() implies #[trigger] free_at(after.slots, after.free, i) by {
        assert(free_at(pool.slots, pool.free, i));
        assert(pool.free[i] != index);
    }
}

/// Which addresses are those of slots.
proof fn lemma_slot_addr<H>(pool: PoolView<H>, addr: int, start: int, end: int)
    requires
        start == pool.slot_addr(0),
        end == start + pool.slots.len() * SLOT_SIZE,
    ensures
        start <= addr < end && (addr - start) % (SLOT_SIZE as int) == 0 ==> {
            &&& 0 <= (addr - start) / (SLOT_SIZE as int) < pool.slots.len()
            &&& addr == pool.slot_addr((addr - start) / (SLOT_SIZE as int))
        },
        !(start <= addr < end && (addr - start) % (SLOT_SIZE as int) == 0) ==> forall|i: int|
            0 <= i < pool.slots.len() ==> addr != #[trigger] pool.slot_addr(i),
{
    assert forall|i: int| 0 <= i < pool.slots.len() && addr == #[trigger] pool.slot_addr(
        i,
    ) implies start <= addr < end && (addr - start) % (SLOT_SIZE as int) == 0 by {
        assert(addr - start == i * 48);
    }
}

/// A pool with a slot in use has fewer free slots than slots.
proof fn lemma_free_room<H>(pool: PoolView<H>, index: PoolIndex)
    requires
        pool.wf(),
        pool.in_use(index),
    ensures
        pool.free.len() < pool.slots.len(),
{
    let n = pool.slots.len() as int;
    let bigger = pool.free.push(index);
    assert(bigger.no_duplicates());
    assert forall|i: int| 0 <= i < bigger.len() implies (#[trigger] bigger[i]) < n by {
        if i < pool.free.len() {
            assert(free_at(pool.slots, pool.free, i));
        }
    }
    lemma_distinct_below(bigger, n);
}

/// Different numbers below `n` are at most `n` many.
proof fn lemma_distinct_below(s: Seq<PoolIndex>, n: int)
    requires
        s.no_duplicates(),
        forall|i: int| 0 <= i < s.len() ==> (#[trigger] s[i]) < n,
        n >= 0,
    ensures
        s.len() <= n,
    decreases n,
{
    if n == 0 {
        if s.len() > 0 {
            assert(s[0] < 0);
        }
    } else {
        let last = (n - 1) as PoolIndex;
        if n > PoolIndex::MAX {
            assert forall|i: int| 0 <= i < s.len() implies (#[trigger] s[i]) < n - 1 || n - 1
                == PoolIndex::MAX by {}
            if n - 1 > PoolIndex::MAX {
                lemma_distinct_below(s, n - 1);
                return;
            }
        }
        if s.contains(last) {
            let k = choose|k: int| 0 <= k < s.len() && s[k] == last;
            let rest = s.remove(k);
            assert forall|i: int| 0 <= i < rest.len() implies (#[trigger] rest[i]) < n - 1 by {
                let j = if i < k { i } else { i + 1 };
                assert(rest[i] == s[j]);
                assert(s[j] != s[k]);
            }
            assert(rest.no_duplicates());
            lemma_distinct_below(rest, n - 1);
        } else {
            assert forall|i: int| 0 <= i < s.len() implies (#[trigger] s[i]) < n - 1 by {
                assert(s.contains(s[i]));
            }
            lemma_distinct_below(s, n - 1);
        }
    }
}

/// A pool within a budget has as many slots as fit behind its head, at most as many as can be
/// numbered.
pub proof fn law_budget(size: int, count: int)
    requires
        size >= 0,
        0 <= count,
    ensures
        48 + 48 * count <= size && count <= 65_535 ==> count <= budget_count(size),
        budget_count(size) > 0 ==> 48 + 48 * budget_count(size) <= size,
        pool_size(count) == 48 + 48 * count,
        count <= 65_535 ==> pool_layout(count as PoolIndex).size == 48 + 48 * count,
{
}

/// A pool that was just made has all of its slots free, in order, and nothing in them; it has no
/// neighbours and belongs to no root.
pub proof fn law_fresh_pool<H>(addr: usize, count: PoolIndex)
    ensures
        ({
            let pool = PoolView::<H>::fresh(addr, count);
            &&& pool.addr == addr && pool.prev == 0 && pool.next == 0 && pool.root == 0
            &&& pool.slots.len() == count && pool.free.len() == count
            &&& forall|i: int| 0 <= i < count ==> #[trigger] pool.free[i] == i
            &&& forall|i: int|
                0 <= i < count ==> {
                    let s = #[trigger] pool.slots[i];
                    &&& s.pool_order == i && s.next_freed == i + 1 && !s.locked
                    &&& s.state == DataState::Reclaimed && s.count == 0
                    &&& s.strong == ChunkPtr::null() && s.record is None && s.meta == 0
                    &&& s.prev_live == SlotPtr::null() && s.next_live == SlotPtr::null()
                }
            &&& forall|i: PoolIndex| !#[trigger] pool.in_use(i)
        }),
{
    let pool = PoolView::<H>::fresh(addr, count);
    assert forall|i: PoolIndex| !#[trigger] pool.in_use(i) by {
        if i < count {
            assert(pool.free[i as int] == i);
        }
    }
}

/// Slots are handed out in the order of the free list, and one that is given back goes to its
/// front with nothing left in it.
pub proof fn law_free_list_order<H>(pool: PoolView<H>, index: PoolIndex, i: int)
    requires
        pool.wf(),
        index < pool.slots.len(),
    ensures
        pool.free.len() > 0 && 0 <= i < pool.free.len() - 1 ==> pool.after_take().free[i]
            == pool.free[i + 1],
        ({
            let back = pool.after_return(index);
            let s = back.slots[index as int];
            &&& back.free.len() == pool.free.len() + 1 && back.free[0] == index
            &&& 0 <= i < pool.free.len() ==> back.free[i + 1] == pool.free[i]
            &&& s.pool_order == index && !s.locked && s.state == DataState::Reclaimed
            &&& s.count == 0 && s.strong == ChunkPtr::null() && s.record is None && s.meta == 0
            &&& s.prev_live == SlotPtr::null() && s.next_live == SlotPtr::null()
            &&& s.next_freed == (if pool.free.len() > 0 {
                pool.free[0]
            } else {
                pool.slots.len() as PoolIndex
            })
            &&& back.slots.len() == pool.slots.len()
            &&& back.addr == pool.addr && back.prev == pool.prev && back.next == pool.next
            &&& back.root == pool.root
        }),
        pool.after_take().addr == pool.addr && pool.after_take().prev == pool.prev,
        pool.after_take().next == pool.next && pool.after_take().root == pool.root,
{
}

} // verus!
