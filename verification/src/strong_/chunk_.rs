//! The strong chunk: an object's data behind a small head.

use vstd::prelude::*;

use crate::ptr_::{ChunkPtr, PoolIndex, SlotPtr};
use crate::weak_::chunk_::{SlotView, WeakChunk};
use crate::weak_::pre_drop_::PreDropRecord;

verus! {

/// The size of a chunk's head, which stands before the data.
pub const STRONG_HEAD_SIZE: usize = 16;

/// What the address of a chunk's head must be a multiple of.
pub const STRONG_HEAD_ALIGN: usize = 8;

/// The largest strong count.
pub const K_REFC_MASK: u32 = 0x0FFF_FFFF;

/// Where the bits of the chunk's state begin.
pub const K_REFC_SHIFT: u32 = 28;

/// How a chunk is used.
#[derive(Clone, Copy, Debug, PartialEq, Eq, Structural)]
pub enum StrongChunkState {
    /// It holds no data yet.
    Unused,
    /// It holds data that is not shared.
    Owning,
    /// It holds data that is shared: the strong count is not 0.
    Sharing,
    /// Its data is gone.
    Desert,
}

impl StrongChunkState {
    /// The number that stands for the state.
    pub open spec fn code(self) -> u8 {
        match self {
            StrongChunkState::Unused => 0,
            StrongChunkState::Owning => 1,
            StrongChunkState::Sharing => 2,
            StrongChunkState::Desert => 3,
        }
    }

    /// The state that the two low bits of a number stand for.
    pub open spec fn of_code(v: u8) -> StrongChunkState {
        let v = v & 3;
        if v == 0 {
            StrongChunkState::Unused
        } else if v == 1 {
            StrongChunkState::Owning
        } else if v == 2 {
            StrongChunkState::Sharing
        } else {
            StrongChunkState::Desert
        }
    }

    pub open spec fn alive(self) -> bool {
        self == StrongChunkState::Owning || self == StrongChunkState::Sharing
    }

    /// The state that the two low bits of `v` stand for.
    pub fn new(v: u8) -> (r: Self)
        ensures
            r == StrongChunkState::of_code(v),
    {
        let v: u8 = v & 3;
        match v {
            0 => StrongChunkState::Unused,
            1 => StrongChunkState::Owning,
            2 => StrongChunkState::Sharing,
            _ => StrongChunkState::Desert,
        }
    }

    /// The number that stands for the state.
    pub fn to_code(self) -> (r: u8)
        ensures
            r == self.code(),
    {
        match self {
            StrongChunkState::Unused => 0,
            StrongChunkState::Owning => 1,
            StrongChunkState::Sharing => 2,
            StrongChunkState::Desert => 3,
        }
    }

    /// Whether there is data in the chunk.
    pub fn is_data_alive(&self) -> (r: bool)
        ensures
            r == self.alive(),
    {
        match self {
            StrongChunkState::Owning | StrongChunkState::Sharing => true,
            _ => false,
        }
    }
}

/// The word of a state and a strong count.
pub open spec fn flag_of(state: StrongChunkState, count: u32) -> u32 {
    ((state.code() as u32) << K_REFC_SHIFT) | (count & K_REFC_MASK)
}

/// Putting a state and a strong count into one word loses neither.
pub proof fn law_flag_parts(state: StrongChunkState, count: u32)
    requires
        count <= K_REFC_MASK,
    ensures
        StrongChunkState::of_code((flag_of(state, count) >> K_REFC_SHIFT) as u8) == state,
        flag_of(state, count) & K_REFC_MASK == count,
{
    let c = state.code();
    let f = ((c as u32) << 28) | (count & 0x0FFF_FFFF);
    assert(((f >> 28) as u8) & 3 == c && f & 0x0FFF_FFFF == count) by (bit_vector)
        requires
            c < 4,
            count <= 0x0FFF_FFFF,
            f == ((c as u32) << 28) | (count & 0x0FFF_FFFF),
    ;
}

/// A chunk's distances in cells, its state and its strong count.
pub struct StrongChunkHeadInfo {
    /// The distance to the pool.
    pub head_offset_: PoolIndex,
    /// The distance to the next chunk.
    pub next_offset_: PoolIndex,
    /// The state and, below it, the strong count.
    pub flag_: u32,
}

impl StrongChunkHeadInfo {
    pub open spec fn state(&self) -> StrongChunkState {
        StrongChunkState::of_code((self.flag_ >> K_REFC_SHIFT) as u8)
    }

    pub open spec fn count(&self) -> u32 {
        self.flag_ & K_REFC_MASK
    }

    pub fn new(head_offset: PoolIndex, next_offset: PoolIndex) -> (r: Self)
        ensures
            r.head_offset_ == head_offset,
            r.next_offset_ == next_offset,
            r.state() == StrongChunkState::Unused,
            r.count() == 0,
    {
        proof {
            assert(((0u32 >> 28) as u8) & 3 == 0 && 0u32 & 0x0FFF_FFFF == 0) by (bit_vector);
        }
        StrongChunkHeadInfo { head_offset_: head_offset, next_offset_: next_offset, flag_: 0 }
    }

    pub fn head_offset(&self) -> (r: PoolIndex)
        ensures
            r == self.head_offset_,
    {
        self.head_offset_
    }

    pub fn next_offset(&self) -> (r: PoolIndex)
        ensures
            r == self.next_offset_,
    {
        self.next_offset_
    }

    pub fn chunk_state(&self) -> (r: StrongChunkState)
        ensures
            r == self.state(),
    {
        proof {
            let f = self.flag_;
            assert((f >> 28) < 256) by (bit_vector);
        }
        StrongChunkState::new((self.flag_ >> K_REFC_SHIFT) as u8)
    }

    pub fn strong_count(&self) -> (r: u32)
        ensures
            r == self.count(),
    {
        self.flag_ & K_REFC_MASK
    }

    /// Writes a state and a strong count.
    pub fn set_flag_(&mut self, state: StrongChunkState, count: u32)
        requires
            count <= K_REFC_MASK,
        ensures
            final(self).head_offset_ == old(self).head_offset_,
            final(self).next_offset_ == old(self).next_offset_,
            final(self).state() == state,
            final(self).count() == count,
    {
        proof {
            law_flag_parts(state, count);
        }
        self.flag_ = ((state.to_code() as u32) << K_REFC_SHIFT) | (count & K_REFC_MASK);
    }

    /// Counts one more sharing handle and returns how many there were. The state stays.
    pub fn incr_strong_count(&mut self) -> (r: u32)
        requires
            old(self).count() < K_REFC_MASK,
        ensures
            r == old(self).count(),
            final(self).count() == old(self).count() + 1,
            final(self).state() == old(self).state(),
            final(self).head_offset_ == old(self).head_offset_,
            final(self).next_offset_ == old(self).next_offset_,
    {
        let count: u32 = self.strong_count();
        self.set_flag_(self.chunk_state(), count + 1);
        count
    }

    /// Counts one sharing handle less and returns how many there were. The state stays.
    pub fn decr_strong_count(&mut self) -> (r: u32)
        requires
            old(self).count() > 0,
        ensures
            r == old(self).count(),
            final(self).count() == old(self).count() - 1,
            final(self).state() == old(self).state(),
            final(self).head_offset_ == old(self).head_offset_,
            final(self).next_offset_ == old(self).next_offset_,
    {
        let count: u32 = self.strong_count();
        proof {
            let f = self.flag_;
            assert(f & 0x0FFF_FFFF <= 0x0FFF_FFFF) by (bit_vector);
        }
        self.set_flag_(self.chunk_state(), count - 1);
        count
    }
}

/// What a chunk's head says, its weak slot among it.
pub struct StrongChunkHead {
    pub chunk_info_: StrongChunkHeadInfo,
    /// The object's weak slot; null until there is one.
    pub weak_chunk_: SlotPtr,
}

/// A head as it is spoken of in contracts.
pub struct HeadView {
    /// The distance to the pool.
    pub head_offset: PoolIndex,
    /// The distance to the next chunk.
    pub next_offset: PoolIndex,
    pub state: StrongChunkState,
    pub count: u32,
    pub weak: SlotPtr,
}

impl View for StrongChunkHead {
    type V = HeadView;

    open spec fn view(&self) -> HeadView {
        HeadView {
            head_offset: self.chunk_info_.head_offset_,
            next_offset: self.chunk_info_.next_offset_,
            state: self.chunk_info_.state(),
            count: self.chunk_info_.count(),
            weak: self.weak_chunk_,
        }
    }
}

impl StrongChunkHead {
    /// The head of a chunk that holds nothing.
    pub fn empty_(head: PoolIndex, next: PoolIndex) -> (r: Self)
        ensures
            r@ == (HeadView {
                head_offset: head,
                next_offset: next,
                state: StrongChunkState::Unused,
                count: 0,
                weak: SlotPtr::null(),
            }),
    {
        StrongChunkHead {
            chunk_info_: StrongChunkHeadInfo::new(head, next),
            weak_chunk_: SlotPtr::null(),
        }
    }

    /// The object's weak slot, if it has one.
    pub fn weak_chunk(&self) -> (r: Option<SlotPtr>)
        ensures
            r == (if self@.weak == SlotPtr::null() {
                None
            } else {
                Some(self@.weak)
            }),
    {
        if self.weak_chunk_.is_null() {
            None
        } else {
            Some(self.weak_chunk_)
        }
    }

    /// The size of the head.
    pub fn base_size_() -> (r: usize)
        ensures
            r == STRONG_HEAD_SIZE,
    {
        STRONG_HEAD_SIZE
    }

    pub fn chunk_state(&self) -> (r: StrongChunkState)
        ensures
            r == self@.state,
    {
        self.chunk_info_.chunk_state()
    }

    pub fn strong_count(&self) -> (r: u32)
        ensures
            r == self@.count,
    {
        self.chunk_info_.strong_count()
    }

    /// Counts one more sharing handle and returns how many there were. The state stays.
    pub fn incr_strong_count(&mut self) -> (r: u32)
        requires
            old(self)@.count < K_REFC_MASK,
        ensures
            r == old(self)@.count,
            final(self)@ == (HeadView {
                count: (old(self)@.count + 1) as u32,
                ..old(self)@
            }),
    {
        self.chunk_info_.incr_strong_count()
    }

    /// Counts one sharing handle less and returns how many there were. The state stays.
    pub fn decr_strong_count(&mut self) -> (r: u32)
        requires
            old(self)@.count > 0,
        ensures
            r == old(self)@.count,
            final(self)@ == (HeadView {
                count: (old(self)@.count - 1) as u32,
                ..old(self)@
            }),
    {
        self.chunk_info_.decr_strong_count()
    }

    /// Notes how the chunk is used. The count stays.
    pub fn mark_state_(&mut self, state: StrongChunkState)
        ensures
            final(self)@ == (HeadView { state, ..old(self)@ }),
    {
        proof {
            let f = self.chunk_info_.flag_;
            assert(f & 0x0FFF_FFFF <= 0x0FFF_FFFF) by (bit_vector);
        }
        let count: u32 = self.chunk_info_.strong_count();
        self.chunk_info_.set_flag_(state, count);
    }

    /// Notes the object's weak slot.
    pub fn set_weak_chunk(&mut self, weak: SlotPtr)
        ensures
            final(self)@ == (HeadView { weak, ..old(self)@ }),
    {
        self.weak_chunk_ = weak;
    }
}

/// An object's data behind its head.
pub struct StrongChunk<T> {
    pub chunk_head_: StrongChunkHead,
    pub data_: T,
}

impl<T> StrongChunk<T> {
    /// A chunk with data in it and no weak slot.
    pub fn new_(data: T) -> (r: Self)
        ensures
            r.chunk_head_@ == (HeadView {
                head_offset: 0,
                next_offset: 0,
                state: StrongChunkState::Owning,
                count: 0,
                weak: SlotPtr::null(),
            }),
            r.data_ == data,
    {
        let mut head = StrongChunkHead::empty_(0, 0);
        head.chunk_info_.set_flag_(StrongChunkState::Owning, 0);
        StrongChunk { chunk_head_: head, data_: data }
    }

    pub fn strong_count(&self) -> (r: u32)
        ensures
            r == self.chunk_head_@.count,
    {
        self.chunk_head_.strong_count()
    }

    /// Counts one more sharing handle and returns how many there were. The state stays.
    pub fn incr_strong_count(&mut self) -> (r: u32)
        requires
            old(self).chunk_head_@.count < K_REFC_MASK,
        ensures
            r == old(self).chunk_head_@.count,
            final(self).data_ == old(self).data_,
            final(self).chunk_head_@ == (HeadView {
                count: (old(self).chunk_head_@.count + 1) as u32,
                ..old(self).chunk_head_@
            }),
    {
        self.chunk_head_.incr_strong_count()
    }

    /// Counts one sharing handle less and returns how many there are now. The state stays.
    pub fn decr_strong_count(&mut self) -> (r: u32)
        requires
            old(self).chunk_head_@.count > 0,
        ensures
            r == old(self).chunk_head_@.count - 1,
            final(self).data_ == old(self).data_,
            final(self).chunk_head_@ == (HeadView { count: r, ..old(self).chunk_head_@ }),
    {
        self.chunk_head_.decr_strong_count() - 1
    }

    /// The data, while there is any.
    pub fn try_get_data(&self) -> (r: Option<&T>)
        ensures
            match r {
                Some(data) => self.chunk_head_@.state.alive() && *data == self.data_,
                None => !self.chunk_head_@.state.alive(),
            },
    {
        if !self.is_data_alive() {
            None
        } else {
            Some(&self.data_)
        }
    }

    /// The data to change, while there is any.
    pub fn try_get_data_mut(&mut self) -> (r: Option<&mut T>)
        ensures
            final(self).chunk_head_ == old(self).chunk_head_,
            match r {
                Some(data) => old(self).chunk_head_@.state.alive() && *data == old(self).data_
                    && final(self).data_ == *final(data),
                None => !old(self).chunk_head_@.state.alive() && *final(self) == *old(self),
            },
    {
        if !self.is_data_alive() {
            None
        } else {
            Some(&mut self.data_)
        }
    }

    pub fn is_data_alive(&self) -> (r: bool)
        ensures
            r == self.chunk_head_@.state.alive(),
    {
        self.chunk_head_.chunk_state().is_data_alive()
    }

    /// The object's weak slot, if it has one.
    pub fn weak_chunk(&self) -> (r: Option<SlotPtr>)
        ensures
            r == (if self.chunk_head_@.weak == SlotPtr::null() {
                None
            } else {
                Some(self.chunk_head_@.weak)
            }),
    {
        self.chunk_head_.weak_chunk()
    }

    /// Ties the chunk at `this` and the weak slot at `slot` to each other, and notes in the
    /// slot what to do before the data goes. A record that does nothing is not noted.
    pub fn bind_fresh_<H: Copy>(
        &mut self,
        this: ChunkPtr,
        slot: SlotPtr,
        weak: &mut WeakChunk<(), H>,
        meta: usize,
        record: PreDropRecord<H>,
    )
        ensures
            final(self).data_ == old(self).data_,
            final(self).chunk_head_@ == (HeadView { weak: slot, ..old(self).chunk_head_@ }),
            final(weak)@ == bound_slot(old(weak)@, this, meta, record),
            final(weak).id() == old(weak).id(),
    {
        self.chunk_head_.set_weak_chunk(slot);
        weak.set_strong_chunk(this);
        let noted = if record.is_noop_() {
            None
        } else {
            Some(record)
        };
        weak.set_record_erased_(noted, meta);
    }

    /// A chunk with data in it, tied to the weak slot at `slot`.
    pub fn init_with_record_<H: Copy>(
        this: ChunkPtr,
        slot: SlotPtr,
        weak: &mut WeakChunk<(), H>,
        value: T,
        record: PreDropRecord<H>,
    ) -> (r: Self)
        ensures
            r.data_ == value,
            r.chunk_head_@ == (HeadView {
                head_offset: 0,
                next_offset: 0,
                state: StrongChunkState::Owning,
                count: 0,
                weak: slot,
            }),
            final(weak)@ == bound_slot(old(weak)@, this, 0, record),
            final(weak).id() == old(weak).id(),
    {
        let mut chunk = StrongChunk::new_(value);
        chunk.bind_fresh_(this, slot, weak, 0, record);
        chunk
    }

    /// As [`init_with_record_`](StrongChunk::init_with_record_), without a hook.
    pub fn init_with_<H: Copy>(
        this: ChunkPtr,
        slot: SlotPtr,
        weak: &mut WeakChunk<(), H>,
        value: T,
    ) -> (r: Self)
        ensures
            r.data_ == value,
            r.chunk_head_@ == (HeadView {
                head_offset: 0,
                next_offset: 0,
                state: StrongChunkState::Owning,
                count: 0,
                weak: slot,
            }),
            final(weak)@ == bound_slot(old(weak)@, this, 0, PreDropRecord::<H>::plain::<T>()),
            final(weak).id() == old(weak).id(),
    {
        let record = PreDropRecord::of::<T>();
        Self::init_with_record_(this, slot, weak, value, record)
    }
}

/// What a slot keeps of a record: nothing where the record does nothing.
pub open spec fn noted_record<H: Copy>(record: PreDropRecord<H>) -> Option<PreDropRecord<H>> {
    if record.is_noop() {
        None
    } else {
        Some(record)
    }
}

/// A slot that was tied to the chunk at `this`.
pub open spec fn bound_slot<H: Copy>(
    slot: SlotView<H>,
    this: ChunkPtr,
    meta: usize,
    record: PreDropRecord<H>,
) -> SlotView<H> {
    SlotView { strong: this, record: noted_record(record), meta, ..slot }
}

/// The numbers of the states, and which of them have their data.
pub proof fn law_strong_states_in_numbers(state: StrongChunkState, v: u8)
    ensures
        StrongChunkState::Unused.code() == 0 && StrongChunkState::Owning.code() == 1,
        StrongChunkState::Sharing.code() == 2 && StrongChunkState::Desert.code() == 3,
        state.alive() <==> state == StrongChunkState::Owning || state == StrongChunkState::Sharing,
        StrongChunkState::of_code(v).code() == v % 4,
{
    assert(v & 3 == v % 4) by (bit_vector);
}

/// A slot that is tied to a chunk knows the chunk and what to do before its data goes, unless that
/// is nothing; all else of it stays.
pub proof fn law_binding<H: Copy>(
    slot: SlotView<H>,
    this: ChunkPtr,
    meta: usize,
    record: PreDropRecord<H>,
)
    ensures
        ({
            let b = bound_slot(slot, this, meta, record);
            &&& b.strong == this && b.meta == meta
            &&& b.record == (if record.drops_ || record.hook_ is Some {
                Some(record)
            } else {
                None
            })
            &&& b.state == slot.state && b.count == slot.count && b.locked == slot.locked
            &&& b.pool_order == slot.pool_order && b.next_freed == slot.next_freed
            &&& b.prev_live == slot.prev_live && b.next_live == slot.next_live
        }),
{
}

} // verus!
