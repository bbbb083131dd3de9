//! Where things are: the positions of weak slots and strong chunks, and the nodes of the tree.

use vstd::prelude::*;

verus! {

/// A slot's index inside its pool.
pub type PoolIndex = u16;

/// How many positions the first pool of weak slots has: as many as its slots can be numbered.
pub const FIRST_POOL_ROOM: u64 = 0x1_0000;

/// How many positions each later pool has. They are all of the default size, and have fewer slots.
pub const LATER_POOL_ROOM: u64 = 512;

/// More pools of the default size than there are addresses for.
pub const POOL_LIMIT: u64 = 0x40_0000_0000_0000;

/// The position of a weak slot: which pool, and which slot of it. It can be null.
///
/// Positions are numbered through: first those of the first pool, then those of each later one.
#[derive(Clone, Copy, Debug, PartialEq, Eq, Structural)]
pub struct SlotPtr {
    pub raw: u64,
}

impl SlotPtr {
    /// Which pool the slot is in.
    pub open spec fn pool(self) -> int {
        if self.raw < FIRST_POOL_ROOM {
            0
        } else {
            (self.raw - FIRST_POOL_ROOM) / (LATER_POOL_ROOM as int) + 1
        }
    }

    /// Which slot of its pool it is.
    pub open spec fn index(self) -> int {
        if self.raw < FIRST_POOL_ROOM {
            self.raw as int
        } else {
            (self.raw - FIRST_POOL_ROOM) % (LATER_POOL_ROOM as int)
        }
    }

    /// The position of the slot `index` of the pool `pool`.
    pub open spec fn at(pool: int, index: int) -> SlotPtr {
        SlotPtr {
            raw: (if pool == 0 {
                index
            } else {
                FIRST_POOL_ROOM + (pool - 1) * LATER_POOL_ROOM + index
            }) as u64,
        }
    }

    /// The position of no slot.
    pub open spec fn null_spec() -> SlotPtr {
        SlotPtr { raw: u64::MAX }
    }

    #[verifier::when_used_as_spec(null_spec)]
    pub fn null() -> (r: SlotPtr)
        ensures
            r == SlotPtr::null_spec(),
    {
        SlotPtr { raw: u64::MAX }
    }

    pub fn is_null(self) -> (r: bool)
        ensures
            r == (self == SlotPtr::null_spec()),
    {
        self.raw == u64::MAX
    }

    /// The position of the slot `index` of the pool `pool`.
    pub fn new(pool: usize, index: PoolIndex) -> (r: SlotPtr)
        requires
            pool < POOL_LIMIT,
            pool > 0 ==> index < LATER_POOL_ROOM,
        ensures
            r == SlotPtr::at(pool as int, index as int),
            r.pool() == pool,
            r.index() == index,
            r != SlotPtr::null_spec(),
    {
        proof {
            law_slot_positions(pool as int, index as int);
        }
        if pool == 0 {
            SlotPtr { raw: index as u64 }
        } else {
            SlotPtr { raw: FIRST_POOL_ROOM + (pool as u64 - 1) * LATER_POOL_ROOM + index as u64 }
        }
    }

    /// Which pool the slot is in.
    pub fn pool_(self) -> (r: usize)
        requires
            self.pool() <= usize::MAX,
        ensures
            r == self.pool(),
    {
        if self.raw < FIRST_POOL_ROOM {
            0
        } else {
            ((self.raw - FIRST_POOL_ROOM) / LATER_POOL_ROOM + 1) as usize
        }
    }

    /// Which slot of its pool it is.
    pub fn index_(self) -> (r: PoolIndex)
        ensures
            r == self.index(),
    {
        if self.raw < FIRST_POOL_ROOM {
            self.raw as PoolIndex
        } else {
            ((self.raw - FIRST_POOL_ROOM) % LATER_POOL_ROOM) as PoolIndex
        }
    }
}

/// A position tells which pool and which slot it stands for, and two slots have two positions.
/// None of them is null.
pub proof fn law_slot_positions(pool: int, index: int)
    requires
        0 <= pool < POOL_LIMIT,
        0 <= index,
        pool == 0 ==> index < FIRST_POOL_ROOM,
        pool > 0 ==> index < LATER_POOL_ROOM,
    ensures
        SlotPtr::at(pool, index).pool() == pool,
        SlotPtr::at(pool, index).index() == index,
        SlotPtr::at(pool, index) != SlotPtr::null_spec(),
        forall|p: SlotPtr| #[trigger]
            p.pool() == pool && p.index() == index ==> p == SlotPtr::at(pool, index),
{
}

/// The position of a strong chunk, counted from 1; 0 is null.
#[derive(Clone, Copy, Debug, PartialEq, Eq, Structural)]
pub struct ChunkPtr {
    pub raw: usize,
}

impl ChunkPtr {
    /// The position of no chunk.
    pub open spec fn null_spec() -> ChunkPtr {
        ChunkPtr { raw: 0 }
    }

    #[verifier::when_used_as_spec(null_spec)]
    pub fn null() -> (r: ChunkPtr)
        ensures
            r == ChunkPtr::null_spec(),
    {
        ChunkPtr { raw: 0 }
    }

    pub fn is_null(self) -> (r: bool)
        ensures
            r == (self == ChunkPtr::null_spec()),
    {
        self.raw == 0
    }
}

} // verus!
