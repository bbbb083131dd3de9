//! Pools that strong chunks are placed in, one behind the other.

use vstd::prelude::*;

use crate::mem_::{
    align_up, ceil_div, checked_align_up, clear_of, div_ceil, law_align_up, law_align_up_is_least,
    law_ceil_div, AllocError, Layout, TrAllocator,
};
use crate::ptr_::PoolIndex;

verus! {

/// The size of a pool's head, which stands before its cells.
pub const STRONG_POOL_HEAD: usize = 16;

/// What the address of a pool's head must be a multiple of.
pub const STRONG_POOL_ALIGN: usize = 8;

/// A row of cells of `CELL_SIZE` bytes behind a head, handed out from the front to the back.
///
/// What was handed out stays where it is, and is not handed out again: the number of used
/// cells only grows, and the pool goes back as a whole.
pub struct StrongPool<const CELL_SIZE: usize> {
    /// The address of the head.
    pub addr_: usize,
    /// The address of the pool before this one.
    pub prev_pool_: Option<usize>,
    /// How many cells there are.
    pub cell_count_: PoolIndex,
    /// How many of them are used, from the front.
    pub used_count_: PoolIndex,
}

impl<const CELL_SIZE: usize> StrongPool<CELL_SIZE> {
    /// The address of the first cell.
    pub open spec fn cells(&self) -> int {
        self.addr_ + STRONG_POOL_HEAD
    }

    /// The address of the first cell that is not used.
    pub open spec fn free_start(&self) -> int {
        self.cells() + self.used_count_ * CELL_SIZE
    }

    /// The first address behind the cells.
    pub open spec fn end(&self) -> int {
        self.cells() + self.cell_count_ * CELL_SIZE
    }

    pub open spec fn wf(&self) -> bool {
        &&& CELL_SIZE > 0
        &&& self.used_count_ <= self.cell_count_
        &&& self.cell_count_ > 0
        &&& self.end() <= usize::MAX
    }

    /// Where a block of this layout would start.
    pub open spec fn place(&self, layout: Layout) -> int {
        align_up(self.free_start(), layout.align as int)
    }

    /// Whether a block of this layout still fits.
    pub open spec fn fits(&self, layout: Layout) -> bool {
        self.place(layout) + layout.size <= self.end()
    }

    /// The pool after a block of this layout was placed: the cells that it touches are used,
    /// and those that were skipped to align it.
    pub open spec fn after(&self, layout: Layout) -> Self {
        StrongPool {
            used_count_: ceil_div(
                self.place(layout) + layout.size - self.cells(),
                CELL_SIZE as int,
            ) as PoolIndex,
            ..*self
        }
    }

    /// The layout of a pool with this many cells.
    pub open spec fn layout_spec(cell_count: PoolIndex) -> Layout {
        Layout {
            size: (STRONG_POOL_HEAD + cell_count * CELL_SIZE) as usize,
            align: if STRONG_POOL_ALIGN < CELL_SIZE {
                CELL_SIZE
            } else {
                STRONG_POOL_ALIGN
            },
        }
    }

    /// A pool that was just made.
    pub open spec fn fresh(addr: usize, prev: Option<usize>, cell_count: PoolIndex) -> Self {
        StrongPool { addr_: addr, prev_pool_: prev, cell_count_: cell_count, used_count_: 0 }
    }

    /// The layout of a pool with this many cells: its head and its cells.
    pub fn layout_for_(cell_count: PoolIndex) -> (r: Layout)
        requires
            STRONG_POOL_HEAD + cell_count * CELL_SIZE <= usize::MAX,
        ensures
            r == Self::layout_spec(cell_count),
            r.wf(),
            r.size == STRONG_POOL_HEAD + cell_count * CELL_SIZE,
    {
        let size: usize = STRONG_POOL_HEAD + (cell_count as usize) * CELL_SIZE;
        let align: usize = if STRONG_POOL_ALIGN < CELL_SIZE {
            CELL_SIZE
        } else {
            STRONG_POOL_ALIGN
        };
        Layout { size, align }
    }

    /// Makes a pool that comes after the one at `prev`.
    pub fn try_new_<A: TrAllocator>(
        cell_count: PoolIndex,
        alloc: &mut A,
        prev: Option<usize>,
    ) -> (r: Result<Self, AllocError>)
        requires
            old(alloc).wf(),
            CELL_SIZE > 0,
            STRONG_POOL_HEAD + cell_count * CELL_SIZE <= usize::MAX,
        ensures
            final(alloc).wf(),
            match r {
                Ok(pool) => {
                    &&& cell_count > 0
                    &&& old(alloc).grants(Self::layout_spec(cell_count)) == Some(pool.addr_)
                    &&& pool == Self::fresh(pool.addr_, prev, cell_count)
                    &&& pool.wf()
                    &&& pool.addr_ % Self::layout_spec(cell_count).align == 0
                    &&& !old(alloc).blocks().contains_key(pool.addr_)
                    &&& clear_of(
                        old(alloc).blocks(),
                        pool.addr_,
                        Self::layout_spec(cell_count),
                    )
                    &&& final(alloc).blocks() == old(alloc).blocks().insert(
                        pool.addr_,
                        Self::layout_spec(cell_count),
                    )
                },
                Err(_) => {
                    &&& cell_count == 0 || old(alloc).grants(Self::layout_spec(cell_count)) is None
                    &&& final(alloc).blocks() == old(alloc).blocks()
                },
            },
            *final(alloc) == (if cell_count == 0 {
                *old(alloc)
            } else {
                old(alloc).asked(Self::layout_spec(cell_count))
            }),
    {
        if cell_count == 0 {
            return Err(AllocError);
        }
        match alloc.allocate(Self::layout_for_(cell_count)) {
            Err(e) => Err(e),
            Ok(addr) => {
                let pool = StrongPool {
                    addr_: addr,
                    prev_pool_: prev,
                    cell_count_: cell_count,
                    used_count_: 0,
                };
                proof {
                    assert(0 * CELL_SIZE == 0) by (nonlinear_arith);
                }
                Ok(pool)
            },
        }
    }

    pub fn cell_count_(&self) -> (r: PoolIndex)
        ensures
            r == self.cell_count_,
    {
        self.cell_count_
    }

    /// The address of the pool before this one.
    pub fn prev_(&self) -> (r: Option<usize>)
        ensures
            r == self.prev_pool_,
    {
        self.prev_pool_
    }

    pub fn used_count_(&self) -> (r: PoolIndex)
        ensures
            r == self.used_count_,
    {
        self.used_count_
    }

    /// The address and the length of all cells.
    pub fn memory_(&self) -> (r: (usize, usize))
        requires
            self.wf(),
        ensures
            r.0 == self.cells(),
            r.0 + r.1 == self.end(),
    {
        proof {
            assert(0 <= self.cell_count_ * CELL_SIZE) by (nonlinear_arith);
        }
        (self.addr_ + STRONG_POOL_HEAD, (self.cell_count_ as usize) * CELL_SIZE)
    }

    /// The address and the length of the cells that are not used.
    pub fn free_addr_(&self) -> (r: (usize, usize))
        requires
            self.wf(),
        ensures
            r.0 == self.free_start(),
            r.0 + r.1 == self.end(),
    {
        proof {
            assert(0 <= self.used_count_ * CELL_SIZE <= self.cell_count_ * CELL_SIZE)
                by (nonlinear_arith)
                requires
                    self.used_count_ <= self.cell_count_,
            ;
        }
        let used: usize = (self.used_count_ as usize) * CELL_SIZE;
        let total: usize = (self.cell_count_ as usize) * CELL_SIZE;
        (self.addr_ + STRONG_POOL_HEAD + used, total - used)
    }

    /// Places a block of this layout behind what is used, and returns its address; where it
    /// does not fit, returns how many bytes are left.
    pub fn allocate_(&mut self, layout: Layout) -> (r: Result<usize, usize>)
        requires
            old(self).wf(),
            layout.wf(),
        ensures
            final(self).wf(),
            match r {
                Ok(addr) => {
                    &&& old(self).fits(layout)
                    &&& addr == old(self).place(layout)
                    &&& *final(self) == old(self).after(layout)
                },
                Err(left) => {
                    &&& !old(self).fits(layout)
                    &&& left == old(self).end() - old(self).free_start()
                    &&& *final(self) == *old(self)
                },
            },
    {
        let (free_start, left) = self.free_addr_();
        let pool_end: usize = free_start + left;
        proof {
            law_align_up(free_start as int, layout.align as int);
        }
        let start = match checked_align_up(free_start, layout.align) {
            None => {
                return Err(left);
            },
            Some(start) => start,
        };
        if start > pool_end || layout.size > pool_end - start {
            return Err(left);
        }
        let end: usize = start + layout.size;
        let taken: usize = end - (self.addr_ + STRONG_POOL_HEAD);
        let cells: usize = div_ceil(taken, CELL_SIZE);
        proof {
            law_ceil_div(taken as int, CELL_SIZE as int);
            assert(cells <= self.cell_count_) by (nonlinear_arith)
                requires
                    (cells - 1) * CELL_SIZE < taken,
                    taken <= self.cell_count_ * CELL_SIZE,
            ;
        }
        self.used_count_ = cells as PoolIndex;
        Ok(start)
    }
}

/// A block that was placed lies inside the pool, is aligned, and touches neither what was used
/// before nor what any later block will be given.
pub proof fn law_blocks_never_overlap<const CELL_SIZE: usize>(
    pool: StrongPool<CELL_SIZE>,
    layout: Layout,
)
    requires
        pool.wf(),
        layout.wf(),
        pool.fits(layout),
    ensures
        pool.place(layout) % (layout.align as int) == 0,
        pool.free_start() <= pool.place(layout),
        pool.place(layout) + layout.size <= pool.after(layout).free_start(),
        pool.after(layout).free_start() <= pool.end(),
        pool.after(layout).wf(),
        pool.after(layout).used_count_ >= pool.used_count_,
        pool.after(layout).addr_ == pool.addr_,
        pool.after(layout).end() == pool.end(),
{
    law_align_up(pool.free_start(), layout.align as int);
    let taken = pool.place(layout) + layout.size - pool.cells();
    assert(pool.used_count_ * CELL_SIZE >= 0) by (nonlinear_arith);
    law_ceil_div(taken, CELL_SIZE as int);
    let cells = ceil_div(taken, CELL_SIZE as int);
    assert(cells <= pool.cell_count_) by (nonlinear_arith)
        requires
            (cells - 1) * CELL_SIZE < taken,
            taken <= pool.cell_count_ * CELL_SIZE,
            CELL_SIZE > 0,
    ;
    assert(cells * CELL_SIZE <= pool.cell_count_ * CELL_SIZE) by (nonlinear_arith)
        requires
            cells <= pool.cell_count_,
            CELL_SIZE > 0,
    ;
    assert(cells >= pool.used_count_) by (nonlinear_arith)
        requires
            cells * CELL_SIZE >= taken,
            taken >= pool.used_count_ * CELL_SIZE,
            CELL_SIZE > 0,
    ;
}

/// A block is placed at the first suitable address behind what is used, and fits exactly where
/// some suitable address leaves room for it. It uses up the cells that it touches, and not one
/// more.
pub proof fn law_blocks_are_placed_tightly<const CELL_SIZE: usize>(
    pool: StrongPool<CELL_SIZE>,
    layout: Layout,
    x: int,
)
    requires
        pool.wf(),
        layout.wf(),
        pool.free_start() <= x,
        x % (layout.align as int) == 0,
    ensures
        pool.place(layout) <= x,
        pool.place(layout) < pool.free_start() + layout.align,
        x + layout.size <= pool.end() ==> pool.fits(layout),
        pool.fits(layout) ==> pool.place(layout) + layout.size <= pool.end(),
        pool.fits(layout) ==> pool.after(layout).free_start() < pool.place(layout) + layout.size
            + CELL_SIZE,
        pool.after(layout).cell_count_ == pool.cell_count_,
        pool.after(layout).prev_pool_ == pool.prev_pool_,
        pool.cells() == pool.addr_ + 16,
        pool.end() == pool.addr_ + 16 + pool.cell_count_ * CELL_SIZE,
        pool.free_start() == pool.addr_ + 16 + pool.used_count_ * CELL_SIZE,
{
    law_align_up(pool.free_start(), layout.align as int);
    law_align_up_is_least(pool.free_start(), layout.align as int, x);
    if pool.fits(layout) {
        law_blocks_never_overlap(pool, layout);
        let taken = pool.place(layout) + layout.size - pool.cells();
        assert(pool.used_count_ * CELL_SIZE >= 0) by (nonlinear_arith);
        law_ceil_div(taken, CELL_SIZE as int);
        let cells = ceil_div(taken, CELL_SIZE as int);
        assert(cells <= pool.cell_count_) by (nonlinear_arith)
            requires
                (cells - 1) * CELL_SIZE < taken,
                taken <= pool.cell_count_ * CELL_SIZE,
                CELL_SIZE > 0,
        ;
        assert((cells - 1) * CELL_SIZE == cells * CELL_SIZE - CELL_SIZE) by (nonlinear_arith);
    }
}

/// A pool that was just made has all of its cells free, in a block that holds its head and them.
pub proof fn law_fresh_strong_pool<const CELL_SIZE: usize>(
    addr: usize,
    prev: Option<usize>,
    count: PoolIndex,
)
    requires
        addr + 16 + count * CELL_SIZE <= usize::MAX,
    ensures
        ({
            let pool = StrongPool::<CELL_SIZE>::fresh(addr, prev, count);
            let layout = StrongPool::<CELL_SIZE>::layout_spec(count);
            &&& pool.addr_ == addr && pool.prev_pool_ == prev && pool.cell_count_ == count
            &&& pool.free_start() == addr + 16
            &&& pool.end() == addr + layout.size
            &&& layout.size == 16 + count * CELL_SIZE
            &&& layout.align >= 8 && layout.align >= CELL_SIZE
            &&& layout.align == 8 || layout.align == CELL_SIZE
        }),
{
    assert(0 * CELL_SIZE == 0) by (nonlinear_arith);
    assert(count * CELL_SIZE >= 0) by (nonlinear_arith);
}

} // verus!
