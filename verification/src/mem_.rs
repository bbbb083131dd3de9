//! Blocks of memory: their layout, where they come from, and the rounding of addresses.

use vstd::arithmetic::div_mod::{lemma_fundamental_div_mod, lemma_mod_multiples_vanish};
use vstd::prelude::*;

verus! {

/// The smallest multiple of `align` that is not below `x`.
pub open spec fn align_up(x: int, align: int) -> int {
    if x % align == 0 {
        x
    } else {
        x + (align - x % align)
    }
}

/// How many pieces of the size `unit` it takes to hold `x`.
pub open spec fn ceil_div(x: int, unit: int) -> int {
    if x % unit == 0 {
        x / unit
    } else {
        x / unit + 1
    }
}

/// An address that is rounded up is aligned, and less than one alignment further on.
pub proof fn law_align_up(x: int, align: int)
    requires
        align > 0,
    ensures
        align_up(x, align) % align == 0,
        x <= align_up(x, align) < x + align,
{
    lemma_fundamental_div_mod(x, align);
    assert(0 <= x % align < align) by (nonlinear_arith)
        requires
            align > 0,
    ;
    if x % align != 0 {
        let q = x / align;
        assert(x + (align - x % align) == align * (q + 1) + 0) by (nonlinear_arith)
            requires
                x == align * q + x % align,
        ;
        lemma_mod_multiples_vanish(q + 1, 0, align);
        assert(0int % align == 0) by (nonlinear_arith)
            requires
                align > 0,
        ;
    }
}

/// The pieces hold `x`, and one less would not.
pub proof fn law_ceil_div(x: int, unit: int)
    requires
        x >= 0,
        unit > 0,
    ensures
        ceil_div(x, unit) >= 0,
        ceil_div(x, unit) * unit >= x,
        (ceil_div(x, unit) - 1) * unit < x,
{
    lemma_fundamental_div_mod(x, unit);
    let q = x / unit;
    let m = x % unit;
    assert(0 <= m < unit && q >= 0 && q * unit == x - m && (q + 1) * unit == x - m + unit && (q
        - 1) * unit == x - m - unit) by (nonlinear_arith)
        requires
            x >= 0,
            unit > 0,
            x == unit * q + m,
            q == x / unit,
            m == x % unit,
    ;
}

/// The smallest multiple of `align` that is not below `x`, where it fits.
pub fn checked_align_up(x: usize, align: usize) -> (r: Option<usize>)
    requires
        align > 0,
    ensures
        match r {
            Some(a) => a == align_up(x as int, align as int),
            None => align_up(x as int, align as int) > usize::MAX,
        },
{
    let rem: usize = x % align;
    if rem == 0 {
        Some(x)
    } else {
        x.checked_add(align - rem)
    }
}

/// How many pieces of the size `unit` it takes to hold `x`.
pub fn div_ceil(x: usize, unit: usize) -> (r: usize)
    requires
        unit > 0,
    ensures
        r == ceil_div(x as int, unit as int),
{
    proof {
        law_ceil_div(x as int, unit as int);
        assert(x / unit < x || x % unit == 0) by (nonlinear_arith)
            requires
                unit > 0,
        ;
    }
    if x % unit == 0 {
        x / unit
    } else {
        x / unit + 1
    }
}

/// The size of a block and what its address must be a multiple of.
#[derive(Clone, Copy, Debug, PartialEq, Eq, Structural)]
pub struct Layout {
    pub size: usize,
    pub align: usize,
}

impl Layout {
    pub open spec fn wf(self) -> bool {
        self.align > 0
    }

    /// `self` followed by `next`, which starts at the first place that suits it.
    pub open spec fn extended(self, next: Layout) -> (int, int, int) {
        let offset = align_up(self.size as int, next.align as int);
        (
            offset,
            offset + next.size,
            if self.align < next.align {
                next.align as int
            } else {
                self.align as int
            },
        )
    }

    pub fn new(size: usize, align: usize) -> (r: Layout)
        ensures
            r == (Layout { size, align }),
    {
        Layout { size, align }
    }

    /// The layout of one `T`.
    pub open spec fn for_type<T>() -> Layout {
        Layout {
            size: vstd::layout::size_of::<T>() as usize,
            align: vstd::layout::align_of::<T>() as usize,
        }
    }

    /// The layout of one `T`.
    pub fn of<T>() -> (r: Layout)
        ensures
            r == Self::for_type::<T>(),
            r.size == vstd::layout::size_of::<T>(),
            r.align == vstd::layout::align_of::<T>(),
            r.wf(),
    {
        vstd::layout::layout_for_type_is_valid::<T>();
        Layout { size: core::mem::size_of::<T>(), align: core::mem::align_of::<T>() }
    }

    /// The layout of `self` followed by `next`, and where `next` starts in it; `None` where the
    /// size does not fit.
    pub fn extend(self, next: Layout) -> (r: Option<(Layout, usize)>)
        requires
            self.wf(),
            next.wf(),
        ensures
            match r {
                Some((layout, offset)) => self.extended(next) == (
                    offset as int,
                    layout.size as int,
                    layout.align as int,
                ) && layout.wf(),
                None => self.extended(next).1 > usize::MAX,
            },
    {
        proof {
            law_align_up(self.size as int, next.align as int);
        }
        let align = if self.align < next.align {
            next.align
        } else {
            self.align
        };
        match checked_align_up(self.size, next.align) {
            None => None,
            Some(offset) => match offset.checked_add(next.size) {
                None => None,
                Some(size) => Some((Layout { size, align }, offset)),
            },
        }
    }
}

/// There is no memory for a block.
#[derive(Clone, Copy, Debug, PartialEq, Eq, Structural)]
pub struct AllocError;

/// Whether two blocks share no byte.
pub open spec fn apart(a: usize, la: Layout, b: usize, lb: Layout) -> bool {
    a + la.size <= b || b + lb.size <= a
}

/// Whether a block shares no byte with any of those that are handed out.
pub open spec fn clear_of(blocks: Map<usize, Layout>, addr: usize, layout: Layout) -> bool {
    forall|other: usize| #[trigger]
        blocks.contains_key(other) ==> apart(addr, layout, other, blocks[other])
}

/// A source of memory blocks.
pub trait TrAllocator: Sized {
    open spec fn wf(&self) -> bool {
        true
    }

    /// The blocks that are handed out, by their addresses.
    open spec fn blocks(&self) -> Map<usize, Layout> {
        arbitrary()
    }

    /// Where the next block of this layout will be; `None` where there is none to be had.
    open spec fn grants(&self, layout: Layout) -> Option<usize> {
        arbitrary()
    }

    /// The source after it was asked for a block of this layout, whether there was one or not.
    open spec fn asked(&self, layout: Layout) -> Self {
        arbitrary()
    }

    /// The source after the block of this layout at `addr` was given back.
    open spec fn freed(&self, addr: usize, layout: Layout) -> Self {
        arbitrary()
    }

    fn allocate(&mut self, layout: Layout) -> (r: Result<usize, AllocError>)
        requires
            old(self).wf(),
            layout.wf(),
            layout.size > 0,
        ensures
            final(self).wf(),
            *final(self) == old(self).asked(layout),
            match r {
                Ok(addr) => {
                    &&& old(self).grants(layout) == Some(addr)
                    &&& addr > 0
                    &&& addr % layout.align == 0
                    &&& addr + layout.size <= usize::MAX
                    &&& !old(self).blocks().contains_key(addr)
                    &&& clear_of(old(self).blocks(), addr, layout)
                    &&& final(self).blocks() == old(self).blocks().insert(addr, layout)
                },
                Err(_) => {
                    &&& old(self).grants(layout) is None
                    &&& final(self).blocks() == old(self).blocks()
                },
            },
    ;

    fn deallocate(&mut self, addr: usize, layout: Layout)
        requires
            old(self).wf(),
            old(self).blocks().contains_key(addr),
            old(self).blocks()[addr] == layout,
        ensures
            final(self).wf(),
            *final(self) == old(self).freed(addr, layout),
            final(self).blocks() == old(self).blocks().remove(addr),
    ;
}

/// Hands out the addresses below a limit, each at most once.
pub struct AddressSpace {
    next_: usize,
    limit_: usize,
    blocks_: Ghost<Map<usize, Layout>>,
}

impl AddressSpace {
    /// Where the next block is looked for.
    pub closed spec fn next(&self) -> usize {
        self.next_
    }

    /// The first address that is not handed out.
    pub closed spec fn limit(&self) -> usize {
        self.limit_
    }

    /// The addresses from `base` on and below `limit`.
    pub fn new(base: usize, limit: usize) -> (r: Self)
        ensures
            r.wf(),
            r.next() == (if base == 0 {
                1
            } else {
                base
            }),
            r.limit() == limit,
            r.blocks() == Map::<usize, Layout>::empty(),
    {
        AddressSpace {
            next_: if base == 0 {
                1
            } else {
                base
            },
            limit_: limit,
            blocks_: Ghost(Map::empty()),
        }
    }
}

impl TrAllocator for AddressSpace {
    closed spec fn wf(&self) -> bool {
        &&& self.next_ > 0
        &&& forall|addr: usize| #[trigger]
            self.blocks_@.contains_key(addr) ==> addr + self.blocks_@[addr].size <= self.next_
                && self.blocks_@[addr].size > 0
    }

    closed spec fn blocks(&self) -> Map<usize, Layout> {
        self.blocks_@
    }

    open spec fn grants(&self, layout: Layout) -> Option<usize> {
        let addr = align_up(self.next() as int, layout.align as int);
        if addr + layout.size <= self.limit() {
            Some(addr as usize)
        } else {
            None
        }
    }

    closed spec fn asked(&self, layout: Layout) -> Self {
        match self.grants(layout) {
            Some(addr) => AddressSpace {
                next_: (addr + layout.size) as usize,
                limit_: self.limit_,
                blocks_: Ghost(self.blocks_@.insert(addr, layout)),
            },
            None => *self,
        }
    }

    closed spec fn freed(&self, addr: usize, layout: Layout) -> Self {
        AddressSpace {
            next_: self.next_,
            limit_: self.limit_,
            blocks_: Ghost(self.blocks_@.remove(addr)),
        }
    }

    fn allocate(&mut self, layout: Layout) -> (r: Result<usize, AllocError>) {
        proof {
            law_align_up(self.next_ as int, layout.align as int);
        }
        match checked_align_up(self.next_, layout.align) {
            None => Err(AllocError),
            Some(addr) => {
                if addr > self.limit_ || layout.size > self.limit_ - addr {
                    return Err(AllocError);
                }
                self.next_ = addr + layout.size;
                self.blocks_ = Ghost(self.blocks_@.insert(addr, layout));
                Ok(addr)
            },
        }
    }

    fn deallocate(&mut self, addr: usize, layout: Layout) {
        self.blocks_ = Ghost(self.blocks_@.remove(addr));
    }
}

/// A block is handed out where there is room for it and for what is skipped to align it. The
/// next one is then looked for right behind it. Nothing else moves that place on: neither a
/// request that is refused, nor a block that is given back.
pub proof fn law_address_space_moves_on(space: AddressSpace, layout: Layout, addr: usize)
    requires
        layout.wf(),
    ensures
        match space.grants(layout) {
            Some(at) => {
                &&& space.next() <= at < space.next() + layout.align
                &&& at as int % layout.align as int == 0
                &&& at + layout.size <= space.limit()
                &&& space.asked(layout).next() == at + layout.size
            },
            None => space.asked(layout) == space,
        },
        space.next() + layout.size + layout.align <= space.limit() ==> space.grants(layout) is Some,
        space.asked(layout).limit() == space.limit(),
        space.freed(addr, layout).next() == space.next(),
        space.freed(addr, layout).limit() == space.limit(),
{
    law_align_up(space.next() as int, layout.align as int);
}

/// Of two layouts one behind the other, the second starts at the first place behind the first
/// that suits it, and the whole suits both.
pub proof fn law_layouts_follow(first: Layout, second: Layout)
    requires
        second.wf(),
    ensures
        ({
            let (offset, size, align) = first.extended(second);
            &&& first.size <= offset < first.size + second.align
            &&& offset % (second.align as int) == 0
            &&& size == offset + second.size
            &&& first.align <= align && second.align <= align
            &&& align == first.align || align == second.align
        }),
{
    law_align_up(first.size as int, second.align as int);
}

/// There is no place before the one that an address is rounded up to.
pub proof fn law_align_up_is_least(x: int, align: int, y: int)
    requires
        align > 0,
        x <= y,
        y % align == 0,
    ensures
        align_up(x, align) <= y,
{
    law_align_up(x, align);
    let z = align_up(x, align);
    if y < z {
        lemma_fundamental_div_mod(y, align);
        lemma_fundamental_div_mod(z, align);
        let p = y / align;
        let q = z / align;
        assert(p < q) by (nonlinear_arith)
            requires
                align * p < align * q,
                align > 0,
        ;
        assert(align * q >= align * p + align) by (nonlinear_arith)
            requires
                p < q,
                align > 0,
        ;
    }
}

/// A block is refused only where it fits at no suitable address below the limit.
pub proof fn law_address_space_refuses_only_when_full(space: AddressSpace, layout: Layout, y: int)
    requires
        layout.wf(),
        space.grants(layout) is None,
        space.next() <= y,
        y % (layout.align as int) == 0,
    ensures
        y + layout.size > space.limit(),
{
    law_align_up_is_least(space.next() as int, layout.align as int, y);
}

} // verus!
