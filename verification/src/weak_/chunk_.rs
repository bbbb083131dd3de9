//! The weak slot, and the word in it that says how far its object's life has got.

use core::marker::PhantomData;

use vstd::prelude::*;

use crate::atomic_::spin_::{updated, with_lock_of};
use crate::atomic_::{LocalCell, MsbAsMutexSignal, SpinFlag, StrictOrderings, TrMutexSignal};
use crate::ptr_::{ChunkPtr, PoolIndex, SlotPtr};

use crate::abs_::TrPreDrop;
use crate::strong_::chunk_::{HeadView, StrongChunkHead, StrongChunkState, K_REFC_MASK};

use super::pre_drop_::PreDropRecord;

verus! {

/// How far the life of an object has got. This alone decides whether its data is still to be
/// destroyed.
#[derive(Clone, Copy, Debug, PartialEq, Eq, PartialOrd, Ord, Structural)]
pub enum DataState {
    /// The slot belongs to no object.
    Reclaimed,
    /// The data is there and nobody holds it strongly: only weak handles point at it.
    Created,
    /// One owner has the data to itself.
    Owning,
    /// The data is shared.
    Sharing,
    /// Somebody has claimed the destruction of the data and is at it.
    Destroying,
    /// The data is destroyed; the slot is still in use.
    Destroyed,
    /// Nothing points at the slot any more: it can go back to its pool.
    Finalized,
    /// The data and its scope are gone, but weak handles still point at the slot.
    Zombie,
}

impl DataState {
    /// The number that stands for the state in the word.
    pub open spec fn code(self) -> u8 {
        match self {
            DataState::Reclaimed => 0,
            DataState::Created => 1,
            DataState::Owning => 2,
            DataState::Sharing => 3,
            DataState::Destroying => 4,
            DataState::Destroyed => 5,
            DataState::Finalized => 6,
            DataState::Zombie => 7,
        }
    }

    /// The state that a number stands for.
    pub open spec fn of_code(v: u8) -> DataState {
        if v == 0 {
            DataState::Reclaimed
        } else if v == 1 {
            DataState::Created
        } else if v == 2 {
            DataState::Owning
        } else if v == 3 {
            DataState::Sharing
        } else if v == 4 {
            DataState::Destroying
        } else if v == 5 {
            DataState::Destroyed
        } else if v == 6 {
            DataState::Finalized
        } else {
            DataState::Zombie
        }
    }

    /// Whether the data is still to be destroyed.
    pub open spec fn alive(self) -> bool {
        self == DataState::Created || self == DataState::Owning || self == DataState::Sharing
    }

    /// Whether the data is still to be destroyed. This does not ask for a strong holder: data
    /// at which only weak handles point is alive.
    pub fn is_data_alive(self) -> (r: bool)
        ensures
            r == self.alive(),
    {
        match self {
            DataState::Created | DataState::Owning | DataState::Sharing => true,
            _ => false,
        }
    }

    /// Whether the destruction of the data can still be claimed.
    pub fn is_claimable(self) -> (r: bool)
        ensures
            r == self.alive(),
    {
        self.is_data_alive()
    }

    pub fn new(v: u8) -> (r: Self)
        requires
            v < 8,
        ensures
            r == DataState::of_code(v),
            r.code() == v,
    {
        match v {
            0 => DataState::Reclaimed,
            1 => DataState::Created,
            2 => DataState::Owning,
            3 => DataState::Sharing,
            4 => DataState::Destroying,
            5 => DataState::Destroyed,
            6 => DataState::Finalized,
            _ => DataState::Zombie,
        }
    }

    /// The number that stands for the state in the word.
    pub fn to_code(self) -> (r: u8)
        ensures
            r == self.code(),
            r < 8,
    {
        match self {
            DataState::Reclaimed => 0,
            DataState::Created => 1,
            DataState::Owning => 2,
            DataState::Sharing => 3,
            DataState::Destroying => 4,
            DataState::Destroyed => 5,
            DataState::Finalized => 6,
            DataState::Zombie => 7,
        }
    }
}

/// A state and the number that stands for it determine each other.
pub proof fn law_state_code(state: DataState, v: u8)
    requires
        v < 8,
    ensures
        state.code() < 8,
        DataState::of_code(state.code()) == state,
        DataState::of_code(v).code() == v,
{
}

/// The lock bit of the state word: the highest.
pub type LockSignal = MsbAsMutexSignal<u32>;

/// The state word: a lock bit, three bits of state, and the number of weak handles.
pub type StateWord = SpinFlag<u32, LocalCell<u32>, LockSignal, StrictOrderings>;

/// The bits of the state.
pub const DATA_ST_MASK: u32 = 0x7000_0000;

/// The bits of the weak count, and with it the largest count.
pub const WEAK_RC_MASK: u32 = 0x0FFF_FFFF;

/// Where the bits of the state begin.
pub const DATA_SHIFT: u32 = 28;

/// Whether a word's lock bit is set.
pub open spec fn word_locked(w: u32) -> bool {
    w & 0x8000_0000 == 0x8000_0000
}

/// The state in a word.
pub open spec fn word_state(w: u32) -> DataState {
    DataState::of_code(((w & DATA_ST_MASK) >> DATA_SHIFT) as u8)
}

/// The weak count in a word.
pub open spec fn word_count(w: u32) -> u32 {
    w & WEAK_RC_MASK
}

/// A word with its state replaced.
pub open spec fn word_with_state(w: u32, to: DataState) -> u32 {
    (w & !DATA_ST_MASK) | ((to.code() as u32) << DATA_SHIFT)
}

/// The word of a state and a count, not locked.
pub open spec fn packed(state: DataState, count: u32) -> u32 {
    ((state.code() as u32) << DATA_SHIFT) | (count & WEAK_RC_MASK)
}

proof fn lemma_word_bounds(w: u32)
    ensures
        ((w & DATA_ST_MASK) >> DATA_SHIFT) < 8,
        word_count(w) <= WEAK_RC_MASK,
{
    assert(((w & 0x7000_0000) >> 28) < 8 && w & 0x0FFF_FFFF <= 0x0FFF_FFFF) by (bit_vector);
}

proof fn lemma_visible_word(w: u32)
    ensures
        word_state(LockSignal::visible(w)) == word_state(w),
        word_count(LockSignal::visible(w)) == word_count(w),
        !word_locked(LockSignal::visible(w)),
        LockSignal::acquired(w) == word_locked(w),
        word_locked(LockSignal::locked(w)),
        word_state(LockSignal::locked(w)) == word_state(w),
        word_count(LockSignal::locked(w)) == word_count(w),
{
    assert((w & !0x8000_0000u32) & 0x7000_0000 == w & 0x7000_0000 && (w & !0x8000_0000u32)
        & 0x0FFF_FFFF == w & 0x0FFF_FFFF && (w & !0x8000_0000u32) & 0x8000_0000 != 0x8000_0000
        && (w | 0x8000_0000u32) & 0x7000_0000 == w & 0x7000_0000 && (w | 0x8000_0000u32)
        & 0x0FFF_FFFF == w & 0x0FFF_FFFF && (w | 0x8000_0000u32) & 0x8000_0000 == 0x8000_0000)
        by (bit_vector);
}

proof fn lemma_word_with_state(w: u32, to: DataState)
    ensures
        word_state(word_with_state(w, to)) == to,
        word_count(word_with_state(w, to)) == word_count(w),
        word_locked(word_with_state(w, to)) == word_locked(w),
{
    let c = to.code();
    let x = (w & !0x7000_0000u32) | ((c as u32) << 28);
    assert(((x & 0x7000_0000) >> 28) as u8 == c && x & 0x0FFF_FFFF == w & 0x0FFF_FFFF && (x
        & 0x8000_0000) == (w & 0x8000_0000)) by (bit_vector)
        requires
            c < 8,
            x == (w & !0x7000_0000u32) | ((c as u32) << 28),
    ;
}

proof fn lemma_word_count_step(w: u32)
    ensures
        word_count(w) < WEAK_RC_MASK ==> w < u32::MAX && word_count((w + 1) as u32) == word_count(w)
            + 1 && word_state((w + 1) as u32) == word_state(w) && word_locked((w + 1) as u32)
            == word_locked(w),
        word_count(w) > 0 ==> w > 0 && word_count((w - 1) as u32) == word_count(w) - 1
            && word_state((w - 1) as u32) == word_state(w) && word_locked((w - 1) as u32)
            == word_locked(w),
{
    assert(w & 0x0FFF_FFFF < 0x0FFF_FFFF ==> w < 0xFFFF_FFFF && ((w + 1) as u32) & 0x0FFF_FFFF
        == (w & 0x0FFF_FFFF) + 1 && ((w + 1) as u32) & 0x7000_0000 == w & 0x7000_0000 && ((w
        + 1) as u32) & 0x8000_0000 == w & 0x8000_0000) by (bit_vector);
    assert(w & 0x0FFF_FFFF > 0 ==> w > 0 && ((w - 1) as u32) & 0x0FFF_FFFF == (w & 0x0FFF_FFFF) - 1
        && ((w - 1) as u32) & 0x7000_0000 == w & 0x7000_0000 && ((w - 1) as u32) & 0x8000_0000 == w
        & 0x8000_0000) by (bit_vector);
}

/// A word is its lock bit, its state and its count, and nothing else.
pub proof fn law_word_parts(a: u32, b: u32)
    requires
        word_locked(a) == word_locked(b),
        word_state(a) == word_state(b),
        word_count(a) == word_count(b),
    ensures
        a == b,
{
    let x = ((a & 0x7000_0000) >> 28) as u8;
    let y = ((b & 0x7000_0000) >> 28) as u8;
    assert(x < 8 && y < 8) by (bit_vector)
        requires
            x == ((a & 0x7000_0000) >> 28) as u8,
            y == ((b & 0x7000_0000) >> 28) as u8,
    ;
    assert(x == y);
    let la = a & 0x8000_0000 == 0x8000_0000;
    let lb = b & 0x8000_0000 == 0x8000_0000;
    assert(a == b) by (bit_vector)
        requires
            ((a & 0x7000_0000) >> 28) as u8 == ((b & 0x7000_0000) >> 28) as u8,
            a & 0x0FFF_FFFF == b & 0x0FFF_FFFF,
            (a & 0x8000_0000 == 0x8000_0000) == (b & 0x8000_0000 == 0x8000_0000),
    ;
}

/// Packing a state and a count loses neither, as long as the count fits its bits.
pub proof fn law_pack(state: DataState, count: u32)
    requires
        count <= WEAK_RC_MASK,
    ensures
        word_state(packed(state, count)) == state,
        word_count(packed(state, count)) == count,
        !word_locked(packed(state, count)),
{
    let c = state.code();
    let x = ((c as u32) << 28) | (count & 0x0FFF_FFFF);
    assert(((x & 0x7000_0000) >> 28) as u8 == c && x & 0x0FFF_FFFF == count && x & 0x8000_0000
        != 0x8000_0000) by (bit_vector)
        requires
            c < 8,
            count <= 0x0FFF_FFFF,
            x == ((c as u32) << 28) | (count & 0x0FFF_FFFF),
    ;
}

/// Puts a state and a count into one word.
pub fn pack_(state: DataState, count: u32) -> (r: u32)
    ensures
        r == packed(state, count),
{
    ((state.to_code() as u32) << DATA_SHIFT) | (count & WEAK_RC_MASK)
}

/// A slot's place in its pool, its link to the next free slot, and its state word.
pub struct WeakChunkState {
    /// The slot's index in its pool, fixed when the pool is made.
    pub pool_order_: PoolIndex,
    /// The next free slot, while this one is free.
    pub next_freed_: PoolIndex,
    pub weak_state_: StateWord,
    /// Which slot this is.
    pub id_: Ghost<int>,
}

/// Whether `desire`, asked in the state `from`, can give `to`.
pub open spec fn wants<F: Fn(DataState) -> Option<DataState>>(
    desire: &F,
    from: DataState,
    to: Option<DataState>,
) -> bool {
    call_ensures(*desire, (from,), to)
}

impl WeakChunkState {
    pub open spec fn locked(&self) -> bool {
        word_locked(self.weak_state_.word())
    }

    pub open spec fn state(&self) -> DataState {
        word_state(self.weak_state_.word())
    }

    pub open spec fn count(&self) -> u32 {
        word_count(self.weak_state_.word())
    }

    /// Whether `self` is `other` but for its state, which is `to`.
    pub open spec fn is_moved_to(&self, other: &WeakChunkState, to: DataState) -> bool {
        &&& self.pool_order_ == other.pool_order_
        &&& self.next_freed_ == other.next_freed_
        &&& self.locked() == other.locked()
        &&& self.count() == other.count()
        &&& self.state() == to
    }

    /// The state word of a slot that belongs to no object.
    pub fn empty_() -> (r: Self)
        ensures
            r.pool_order_ == 0,
            r.next_freed_ == 0,
            !r.locked(),
            r.state() == DataState::Reclaimed,
            r.count() == 0,
    {
        proof {
            assert(0u32 & !0x8000_0000u32 == 0 && 0u32 & 0x7000_0000 == 0 && 0u32 & 0x0FFF_FFFF
                == 0 && 0u32 & 0x8000_0000 == 0 && 0u32 >> 28 == 0) by (bit_vector);
        }
        WeakChunkState {
            pool_order_: 0,
            next_freed_: 0,
            weak_state_: SpinFlag::new(0),
            id_: Ghost(arbitrary()),
        }
    }

    /// Tries to set the lock bit, at most `max_try` times; 0 stands for any number.
    pub fn acquire_(&mut self, max_try: usize) -> (r: bool)
        requires
            max_try == 0 ==> !old(self).locked(),
        ensures
            final(self).id_ == old(self).id_,
            r == !old(self).locked(),
            final(self).locked(),
            final(self).pool_order_ == old(self).pool_order_,
            final(self).next_freed_ == old(self).next_freed_,
            final(self).state() == old(self).state(),
            final(self).count() == old(self).count(),
    {
        proof {
            lemma_visible_word(self.weak_state_.word());
        }
        self.weak_state_.try_acquire(max_try)
    }

    /// Clears the lock bit.
    pub fn release_lock_(&mut self)
        ensures
            final(self).id_ == old(self).id_,
            !final(self).locked(),
            final(self).pool_order_ == old(self).pool_order_,
            final(self).next_freed_ == old(self).next_freed_,
            final(self).state() == old(self).state(),
            final(self).count() == old(self).count(),
    {
        proof {
            lemma_visible_word(self.weak_state_.word());
        }
        let _ = self.weak_state_.release();
    }

    /// Takes the lock for the one who gets the guard. `None` at once where it is taken: nobody
    /// waits here, whatever `max_try` is.
    pub fn try_acq_state_guard<T: ?Sized>(&mut self, max_try: usize) -> (r: Option<
        WeakChunkStateGuard<T>,
    >)
        ensures
            final(self).id_ == old(self).id_,
            r is Some == !old(self).locked(),
            r matches Some(guard) ==> guard.order() == old(self).pool_order_ && guard.of()
                == old(self).id_@,
            final(self).locked(),
            final(self).pool_order_ == old(self).pool_order_,
            final(self).next_freed_ == old(self).next_freed_,
            final(self).state() == old(self).state(),
            final(self).count() == old(self).count(),
            r is None ==> *final(self) == *old(self),
    {
        if self.is_locked() {
            return None;
        }
        if self.acquire_(max_try) {
            Some(
                WeakChunkStateGuard {
                    order_: self.pool_order_,
                    of_: Ghost(self.id_@),
                    _unused_t_: PhantomData,
                },
            )
        } else {
            None
        }
    }

    /// The state in a word.
    pub fn state_of_(raw: u32) -> (r: DataState)
        ensures
            r == word_state(raw),
    {
        proof {
            lemma_word_bounds(raw);
        }
        DataState::new(((raw & DATA_ST_MASK) >> DATA_SHIFT) as u8)
    }

    pub fn data_state(&self) -> (r: DataState)
        ensures
            r == self.state(),
    {
        proof {
            lemma_visible_word(self.weak_state_.word());
        }
        Self::state_of_(self.weak_state_.read())
    }

    /// The number of weak handles.
    pub fn weak_count(&self) -> (r: usize)
        ensures
            r == self.count(),
    {
        proof {
            lemma_visible_word(self.weak_state_.word());
        }
        (self.weak_state_.read() & WEAK_RC_MASK) as usize
    }

    /// Counts one more weak handle and returns how many there are now.
    pub fn incr_weak_count(&mut self) -> (r: usize)
        requires
            old(self).count() < WEAK_RC_MASK,
        ensures
            final(self).id_ == old(self).id_,
            r == old(self).count() + 1,
            final(self).count() == old(self).count() + 1,
            final(self).pool_order_ == old(self).pool_order_,
            final(self).next_freed_ == old(self).next_freed_,
            final(self).locked() == old(self).locked(),
            final(self).state() == old(self).state(),
    {
        self.incr_use_count() + 1
    }

    /// Counts one weak handle less and returns how many there are now.
    pub fn decr_weak_count(&mut self) -> (r: usize)
        requires
            old(self).count() > 0,
        ensures
            final(self).id_ == old(self).id_,
            r == old(self).count() - 1,
            final(self).count() == old(self).count() - 1,
            final(self).pool_order_ == old(self).pool_order_,
            final(self).next_freed_ == old(self).next_freed_,
            final(self).locked() == old(self).locked(),
            final(self).state() == old(self).state(),
    {
        self.decr_use_count() - 1
    }

    /// Counts one more weak handle and returns how many there were.
    pub fn incr_use_count(&mut self) -> (r: usize)
        requires
            old(self).count() < WEAK_RC_MASK,
        ensures
            final(self).id_ == old(self).id_,
            r == old(self).count(),
            final(self).count() == old(self).count() + 1,
            final(self).pool_order_ == old(self).pool_order_,
            final(self).next_freed_ == old(self).next_freed_,
            final(self).locked() == old(self).locked(),
            final(self).state() == old(self).state(),
    {
        proof {
            lemma_word_count_step(self.weak_state_.word());
        }
        let s = self.weak_state_.fetch_add(1);
        (s & WEAK_RC_MASK) as usize
    }

    /// Counts one weak handle less and returns how many there were.
    pub fn decr_use_count(&mut self) -> (r: usize)
        requires
            old(self).count() > 0,
        ensures
            final(self).id_ == old(self).id_,
            r == old(self).count(),
            final(self).count() == old(self).count() - 1,
            final(self).pool_order_ == old(self).pool_order_,
            final(self).next_freed_ == old(self).next_freed_,
            final(self).locked() == old(self).locked(),
            final(self).state() == old(self).state(),
    {
        proof {
            lemma_word_count_step(self.weak_state_.word());
        }
        let s = self.weak_state_.fetch_sub(1);
        (s & WEAK_RC_MASK) as usize
    }

    pub fn is_locked(&self) -> (r: bool)
        ensures
            r == self.locked(),
    {
        self.weak_state_.is_locked()
    }

    /// A word with its state replaced; lock bit and count stay.
    pub fn with_state_(raw: u32, to: DataState) -> (r: u32)
        ensures
            r == word_with_state(raw, to),
    {
        (raw & !DATA_ST_MASK) | ((to.to_code() as u32) << DATA_SHIFT)
    }

    /// Moves the state on by `desire`, which may decline; returns the state that it left.
    ///
    /// Lock bit and count stay.
    pub fn transition_<F: Fn(DataState) -> Option<DataState>>(&mut self, desire: F) -> (r: Option<
        DataState,
    >)
        requires
            forall|from: DataState| #[trigger] call_requires(desire, (from,)),
        ensures
            final(self).id_ == old(self).id_,
            exists|to: Option<DataState>| #[trigger]
                wants(&desire, old(self).state(), to) && (match to {
                    None => r is None && final(self).is_moved_to(old(self), old(self).state()),
                    Some(to) => r == Some(old(self).state()) && final(self).is_moved_to(
                        old(self),
                        to,
                    ),
                }),
    {
        let ghost w = self.weak_state_.word();
        let op = |raw: u32| -> (out: Option<(u32, DataState)>)
            ensures
                exists|to: Option<DataState>| #[trigger]
                    wants(&desire, word_state(raw), to) && (match to {
                        None => out is None,
                        Some(to) => out == Some(
                            (
                                if to == word_state(raw) {
                                    raw
                                } else {
                                    word_with_state(raw, to)
                                },
                                word_state(raw),
                            ),
                        ),
                    }),
        {
            let from = Self::state_of_(raw);
            let wanted = desire(from);
            assert(wants(&desire, word_state(raw), wanted));
            match wanted {
                None => None,
                Some(to) => {
                    if to == from {
                        Some((raw, from))
                    } else {
                        Some((Self::with_state_(raw, to), from))
                    }
                },
            }
        };
        let r = self.weak_state_.try_update(op);
        proof {
            lemma_visible_word(w);
            let seen = LockSignal::visible(w);
            assert(updated::<u32, LockSignal, _, DataState>(op, w, self.weak_state_.word(), r));
            let given = choose|given: Option<(u32, DataState)>| #[trigger]
                call_ensures(op, (seen,), given) && (match given {
                    None => r is None && self.weak_state_.word() == w,
                    Some(pair) => r == Some(pair.1) && self.weak_state_.word() == with_lock_of::<
                        u32,
                        LockSignal,
                    >(w, pair.0),
                });
            assert(call_ensures(op, (seen,), given));
            if let Some(pair) = given {
                lemma_visible_word(pair.0);
                lemma_visible_word(LockSignal::visible(pair.0));
                lemma_word_with_state(seen, pair.1);
                let to = choose|to: Option<DataState>| #[trigger]
                    wants(&desire, word_state(seen), to) && (match to {
                        None => given is None,
                        Some(to) => given == Some(
                            (
                                if to == word_state(seen) {
                                    seen
                                } else {
                                    word_with_state(seen, to)
                                },
                                word_state(seen),
                            ),
                        ),
                    });
                assert(wants(&desire, word_state(seen), to));
                lemma_word_with_state(seen, to->0);
            }
        }
        r
    }

    /// Moves the state from `from` to `to`; `None` where it is not `from`. Only a call that
    /// really moved the state succeeds: where it is `to` already, that is none.
    pub fn try_transition_state(&mut self, from: DataState, to: DataState) -> (r: Option<DataState>)
        ensures
            final(self).id_ == old(self).id_,
            r == (if old(self).state() == from && from != to {
                Some(from)
            } else {
                None
            }),
            final(self).is_moved_to(
                old(self),
                if old(self).state() == from {
                    to
                } else {
                    old(self).state()
                },
            ),
    {
        let desire = |current: DataState| -> (out: Option<DataState>)
            ensures
                out == (if current == from && from != to {
                    Some(to)
                } else {
                    None
                }),
            {
                if current == from && from != to {
                    Some(to)
                } else {
                    None
                }
            };
        self.transition_(desire)
    }

    /// Claims the destruction of the data: an alive state becomes `Destroying`, and the caller
    /// gets the state that it left. `None` where there is nothing left to destroy.
    pub fn try_claim_destroy(&mut self) -> (r: Option<DataState>)
        ensures
            final(self).id_ == old(self).id_,
            r == (if old(self).state().alive() {
                Some(old(self).state())
            } else {
                None
            }),
            final(self).is_moved_to(
                old(self),
                if old(self).state().alive() {
                    DataState::Destroying
                } else {
                    old(self).state()
                },
            ),
    {
        let desire = |from: DataState| -> (out: Option<DataState>)
            ensures
                out == (if from.alive() {
                    Some(DataState::Destroying)
                } else {
                    None
                }),
            {
                if from.is_claimable() {
                    Some(DataState::Destroying)
                } else {
                    None
                }
            };
        self.transition_(desire)
    }

    /// Notes that the data is destroyed, after its destruction was claimed.
    pub fn mark_destroyed(&mut self)
        ensures
            final(self).id_ == old(self).id_,
            final(self).is_moved_to(
                old(self),
                if old(self).state() == DataState::Destroying {
                    DataState::Destroyed
                } else {
                    old(self).state()
                },
            ),
    {
        let _ = self.try_transition_state(DataState::Destroying, DataState::Destroyed);
    }

    /// Notes that nothing points at the slot any more.
    pub fn mark_finalized(&mut self)
        ensures
            final(self).id_ == old(self).id_,
            final(self).is_moved_to(old(self), DataState::Finalized),
    {
        self.mark_state(DataState::Finalized);
    }

    /// Notes that nothing points at the slot any more, if its state is `from`; says whether this
    /// call did so.
    pub fn try_finalize_from(&mut self, from: DataState) -> (r: bool)
        ensures
            final(self).id_ == old(self).id_,
            r == (old(self).state() == from && from != DataState::Finalized),
            final(self).is_moved_to(
                old(self),
                if r {
                    DataState::Finalized
                } else {
                    old(self).state()
                },
            ),
    {
        self.try_transition_state(from, DataState::Finalized).is_some()
    }

    /// Notes that the slot has outlived its scope, after its data was destroyed; says whether
    /// it had been.
    pub fn mark_zombie(&mut self) -> (r: bool)
        ensures
            final(self).id_ == old(self).id_,
            r == (old(self).state() == DataState::Destroyed),
            final(self).is_moved_to(
                old(self),
                if r {
                    DataState::Zombie
                } else {
                    old(self).state()
                },
            ),
    {
        self.try_transition_state(DataState::Destroyed, DataState::Zombie).is_some()
    }

    /// Notes that the data is there.
    pub fn init_created(&mut self)
        ensures
            final(self).id_ == old(self).id_,
            final(self).is_moved_to(old(self), DataState::Created),
    {
        self.mark_state(DataState::Created);
    }

    /// Moves the state from `Created` to `to` and returns `Created`; `None` from any other.
    pub fn try_set_state(&mut self, to: DataState) -> (r: Option<DataState>)
        ensures
            final(self).id_ == old(self).id_,
            r == (if old(self).state() == DataState::Created {
                Some(DataState::Created)
            } else {
                None
            }),
            final(self).is_moved_to(
                old(self),
                if old(self).state() == DataState::Created {
                    to
                } else {
                    old(self).state()
                },
            ),
    {
        let desire = |from: DataState| -> (out: Option<DataState>)
            ensures
                out == (if from == DataState::Created {
                    Some(to)
                } else {
                    None
                }),
            {
                if from == DataState::Created {
                    Some(to)
                } else {
                    None
                }
            };
        self.transition_(desire)
    }

    /// Moves the state to `to`, whatever it was.
    pub fn mark_state(&mut self, to: DataState)
        ensures
            final(self).id_ == old(self).id_,
            final(self).is_moved_to(old(self), to),
    {
        let desire = |from: DataState| -> (out: Option<DataState>)
            ensures
                out == Some(to),
            { Some(to) };
        let _ = self.transition_(desire);
    }

    pub fn pool_order(&self) -> (r: PoolIndex)
        ensures
            r == self.pool_order_,
    {
        self.pool_order_
    }

    pub fn next_freed(&self) -> (r: PoolIndex)
        ensures
            r == self.next_freed_,
    {
        self.next_freed_
    }

    pub fn set_next_freed(&mut self, v: PoolIndex)
        ensures
            *final(self) == (WeakChunkState { next_freed_: v, ..*old(self) }),
    {
        self.next_freed_ = v
    }

    /// Makes the word that of a slot that belongs to no object. The lock must be free.
    pub fn reset_all(&mut self)
        requires
            !old(self).locked(),
        ensures
            final(self).id_ == old(self).id_,
            final(self).pool_order_ == old(self).pool_order_,
            final(self).next_freed_ == old(self).next_freed_,
            !final(self).locked(),
            final(self).state() == DataState::Reclaimed,
            final(self).count() == 0,
    {
        self.init_unallocated();
    }

    /// Gives a slot that was never in use its first word.
    pub fn init_unallocated(&mut self)
        ensures
            final(self).id_ == old(self).id_,
            final(self).pool_order_ == old(self).pool_order_,
            final(self).next_freed_ == old(self).next_freed_,
            !final(self).locked(),
            final(self).state() == DataState::Reclaimed,
            final(self).count() == 0,
    {
        let fresh = WeakChunkState::empty_();
        self.weak_state_ = fresh.weak_state_;
    }
}

/// Says that its holder has a slot locked. [`WeakChunkStateGuard::release`] gives the lock
/// back, to the slot that it came from.
pub struct WeakChunkStateGuard<T: ?Sized> {
    order_: PoolIndex,
    of_: Ghost<int>,
    _unused_t_: PhantomData<T>,
}

impl<T: ?Sized> WeakChunkStateGuard<T> {
    /// Which slot is locked.
    pub closed spec fn of(&self) -> int {
        self.of_@
    }

    /// The index of the slot that is locked.
    pub closed spec fn order(&self) -> PoolIndex {
        self.order_
    }

    /// The index of the slot that is locked.
    pub fn pool_order(&self) -> (r: PoolIndex)
        ensures
            r == self.order(),
    {
        self.order_
    }

    /// Unlocks the slot.
    pub fn release<H: Copy>(self, chunk: &mut WeakChunk<T, H>)
        requires
            self.of() == old(chunk).id(),
        ensures
            final(chunk).id() == old(chunk).id(),
            final(chunk)@ == (SlotView { locked: false, ..old(chunk)@ }),
    {
        chunk.chunk_state_.release_lock_();
    }
}

/// A slot as it is spoken of in contracts.
pub struct SlotView<H> {
    pub pool_order: PoolIndex,
    pub next_freed: PoolIndex,
    pub locked: bool,
    pub state: DataState,
    pub count: u32,
    pub prev_live: SlotPtr,
    pub next_live: SlotPtr,
    pub strong: ChunkPtr,
    pub record: Option<PreDropRecord<H>>,
    pub meta: usize,
}

impl<H> SlotView<H> {
    /// A slot that belongs to no object.
    pub open spec fn unused(pool_order: PoolIndex, next_freed: PoolIndex) -> Self {
        SlotView {
            pool_order,
            next_freed,
            locked: false,
            state: DataState::Reclaimed,
            count: 0,
            prev_live: SlotPtr::null(),
            next_live: SlotPtr::null(),
            strong: ChunkPtr::null(),
            record: None,
            meta: 0,
        }
    }
}

/// The identity of an object: what its weak handles point at.
///
/// Its state decides over the object's life, and its links chain it to the other objects of
/// its scope. It outlives the object's data, and goes back to its pool only when no weak
/// handle points at it any more. Its size does not depend on `T`.
pub struct WeakChunk<T: ?Sized, H = ()> {
    pub chunk_state_: WeakChunkState,
    /// The object before this one in its scope.
    pub prev_live_: SlotPtr,
    /// The object after this one in its scope.
    pub next_live_: SlotPtr,
    /// The object's data.
    pub strong_chunk_: ChunkPtr,
    /// What to do before the data goes, unless that is nothing.
    pub record_: Option<PreDropRecord<H>>,
    /// The length of the data, where its type does not say it.
    pub meta_: usize,
    pub _unused_t_: PhantomData<T>,
}

impl<T: ?Sized, H> View for WeakChunk<T, H> {
    type V = SlotView<H>;

    open spec fn view(&self) -> SlotView<H> {
        SlotView {
            pool_order: self.chunk_state_.pool_order_,
            next_freed: self.chunk_state_.next_freed_,
            locked: self.chunk_state_.locked(),
            state: self.chunk_state_.state(),
            count: self.chunk_state_.count(),
            prev_live: self.prev_live_,
            next_live: self.next_live_,
            strong: self.strong_chunk_,
            record: self.record_,
            meta: self.meta_,
        }
    }
}

impl<T: ?Sized, H: Copy> WeakChunk<T, H> {
    /// Which slot this is. Nothing is known of it but that it stays the same.
    pub open spec fn id(&self) -> int {
        self.chunk_state_.id_@
    }

    pub fn data_state(&self) -> (r: DataState)
        ensures
            r == self@.state,
    {
        self.chunk_state_.data_state()
    }

    /// The number of weak handles.
    pub fn weak_count(&self) -> (r: usize)
        ensures
            r == self@.count,
    {
        self.chunk_state_.weak_count()
    }

    /// Counts one more weak handle and returns how many there are now.
    pub fn incr_weak_count(&mut self) -> (r: usize)
        requires
            old(self)@.count < WEAK_RC_MASK,
        ensures
            final(self).id() == old(self).id(),
            r == old(self)@.count + 1,
            final(self)@ == (SlotView { count: (old(self)@.count + 1) as u32, ..old(self)@ }),
    {
        self.chunk_state_.incr_weak_count()
    }

    /// Counts one weak handle less and returns how many there are now.
    pub fn decr_weak_count(&mut self) -> (r: usize)
        requires
            old(self)@.count > 0,
        ensures
            final(self).id() == old(self).id(),
            r == old(self)@.count - 1,
            final(self)@ == (SlotView { count: (old(self)@.count - 1) as u32, ..old(self)@ }),
    {
        self.chunk_state_.decr_weak_count()
    }

    /// Counts one more weak handle and returns how many there are now.
    pub fn incr_use_count(&mut self) -> (r: usize)
        requires
            old(self)@.count < WEAK_RC_MASK,
        ensures
            final(self).id() == old(self).id(),
            r == old(self)@.count + 1,
            final(self)@ == (SlotView { count: (old(self)@.count + 1) as u32, ..old(self)@ }),
    {
        self.incr_weak_count()
    }

    /// Counts one weak handle less and returns how many there were.
    pub fn decr_use_count(&mut self) -> (r: usize)
        requires
            old(self)@.count > 0,
        ensures
            final(self).id() == old(self).id(),
            r == old(self)@.count,
            final(self)@ == (SlotView { count: (old(self)@.count - 1) as u32, ..old(self)@ }),
    {
        self.chunk_state_.decr_use_count()
    }

    pub fn pool_order(&self) -> (r: PoolIndex)
        ensures
            r == self@.pool_order,
    {
        self.chunk_state_.pool_order()
    }

    pub fn next_freed(&self) -> (r: PoolIndex)
        ensures
            r == self@.next_freed,
    {
        self.chunk_state_.next_freed()
    }

    /// Locks the slot in at most `max_try` attempts; 0 stands for any number. `None` at once
    /// where it is locked: nobody waits here.
    pub fn try_lock(&mut self, max_try: usize) -> (r: Option<WeakChunkStateGuard<T>>)
        ensures
            final(self).id() == old(self).id(),
            r is Some == !old(self)@.locked,
            r matches Some(guard) ==> guard.order() == old(self)@.pool_order && guard.of()
                == old(self).id(),
            final(self)@ == (SlotView { locked: true, ..old(self)@ }),
    {
        self.chunk_state_.try_acq_state_guard(max_try)
    }

    /// As [`try_lock`](WeakChunk::try_lock).
    pub fn try_acq_state_guard(&mut self, max_try: usize) -> (r: Option<WeakChunkStateGuard<T>>)
        ensures
            final(self).id() == old(self).id(),
            r is Some == !old(self)@.locked,
            r matches Some(guard) ==> guard.order() == old(self)@.pool_order && guard.of()
                == old(self).id(),
            final(self)@ == (SlotView { locked: true, ..old(self)@ }),
    {
        self.try_lock(max_try)
    }

    /// Locks the slot, however long that takes.
    pub fn lock_busy(&mut self) -> (r: WeakChunkStateGuard<T>)
        requires
            !old(self)@.locked,
        ensures
            final(self).id() == old(self).id(),
            r.order() == old(self)@.pool_order,
            r.of() == old(self).id(),
            final(self)@ == (SlotView { locked: true, ..old(self)@ }),
    {
        let _taken = self.chunk_state_.acquire_(0);
        WeakChunkStateGuard {
            order_: self.chunk_state_.pool_order_,
            of_: Ghost(self.chunk_state_.id_@),
            _unused_t_: PhantomData,
        }
    }

    /// Where the object's data is, once it has been placed.
    pub fn strong_chunk(&self) -> (r: Option<ChunkPtr>)
        ensures
            r == (if self@.strong == ChunkPtr::null() {
                None
            } else {
                Some(self@.strong)
            }),
    {
        if self.strong_chunk_.is_null() {
            None
        } else {
            Some(self.strong_chunk_)
        }
    }

    pub fn set_strong_chunk(&mut self, chunk: ChunkPtr)
        ensures
            final(self).id() == old(self).id(),
            final(self)@ == (SlotView { strong: chunk, ..old(self)@ }),
    {
        self.strong_chunk_ = chunk;
    }

    /// Takes the data for one owner, if nobody holds it strongly.
    pub fn try_owning(&mut self) -> (r: Result<ChunkPtr, DataState>)
        ensures
            final(self).id() == old(self).id(),
            r == owning_result(old(self)@),
            r is Ok <==> old(self)@.strong != ChunkPtr::null() && old(self)@.state
                == DataState::Created,
            final(self)@ == (SlotView {
                state: if r is Ok {
                    DataState::Owning
                } else {
                    old(self)@.state
                },
                ..old(self)@
            }),
    {
        match self.strong_chunk() {
            None => Err(self.data_state()),
            Some(chunk) => match self.chunk_state_.try_transition_state(
                DataState::Created,
                DataState::Owning,
            ) {
                Some(_) => Ok(chunk),
                None => Err(self.data_state()),
            },
        }
    }

    /// Takes the data for one more sharer, if it has no single owner. `head` is the head of
    /// the object's data, which counts the sharers.
    pub fn try_sharing(&mut self, head: &mut StrongChunkHead) -> (r: Result<ChunkPtr, DataState>)
        requires
            old(head)@.count < K_REFC_MASK,
        ensures
            final(self).id() == old(self).id(),
            r == sharing_result(old(self)@),
            r is Ok <==> old(self)@.strong != ChunkPtr::null() && (old(self)@.state
                == DataState::Created || old(self)@.state == DataState::Sharing),
            final(self)@ == (SlotView {
                state: if r is Ok {
                    DataState::Sharing
                } else {
                    old(self)@.state
                },
                ..old(self)@
            }),
            final(head)@ == (if r is Ok {
                HeadView {
                    state: StrongChunkState::Sharing,
                    count: (old(head)@.count + 1) as u32,
                    ..old(head)@
                }
            } else {
                old(head)@
            }),
    {
        match self.strong_chunk() {
            None => Err(self.data_state()),
            Some(chunk) => {
                if self.chunk_state_.try_transition_state(
                    DataState::Created,
                    DataState::Sharing,
                ).is_some() {
                    let _ = head.incr_strong_count();
                    head.mark_state_(StrongChunkState::Sharing);
                    return Ok(chunk);
                }
                if self.data_state() == DataState::Sharing {
                    let _ = head.incr_strong_count();
                    head.mark_state_(StrongChunkState::Sharing);
                    return Ok(chunk);
                }
                Err(self.data_state())
            },
        }
    }

    /// Makes a row of slots that belong to no object: each knows its index, and links to the
    /// one behind it, the last to `capacity`.
    pub fn init_slots(slots: &mut Vec<Self>, capacity: PoolIndex)
        requires
            old(slots).len() == capacity,
            capacity > 0,
        ensures
            final(slots).len() == capacity,
            forall|i: int|
                0 <= i < capacity ==> (#[trigger] final(slots)@[i])@ == SlotView::<H>::unused(
                    i as PoolIndex,
                    (i + 1) as PoolIndex,
                ),
    {
        let last: usize = slots.len() - 1;
        let mut i: usize = 0;
        while i < slots.len()
            invariant
                slots.len() == capacity,
                capacity > 0,
                last == capacity - 1,
                i <= capacity,
                forall|j: int|
                    0 <= j < i ==> (#[trigger] slots@[j])@ == SlotView::<H>::unused(
                        j as PoolIndex,
                        (j + 1) as PoolIndex,
                    ),
            decreases slots.len() - i,
        {
            let next: PoolIndex = if i == last {
                capacity
            } else {
                (i + 1) as PoolIndex
            };
            let slot = &mut slots[i];
            slot.chunk_state_.pool_order_ = i as PoolIndex;
            slot.chunk_state_.set_next_freed(next);
            slot.chunk_state_.init_unallocated();
            slot.set_strong_chunk(ChunkPtr::null());
            slot.set_prev_live(SlotPtr::null());
            slot.set_next_live(SlotPtr::null());
            slot.record_ = None;
            slot.meta_ = 0;
            i = i + 1;
        }
    }

    /// The slot's state word and its links inside the pool.
    pub fn chunk_state(&self) -> (r: &WeakChunkState)
        ensures
            *r == self.chunk_state_,
    {
        &self.chunk_state_
    }

    /// What to do before the data goes, unless that is nothing.
    pub fn record(&self) -> (r: Option<PreDropRecord<H>>)
        ensures
            r == self@.record,
    {
        self.record_
    }

    /// The length of the data, where its type does not say it; else 0.
    pub fn meta(&self) -> (r: usize)
        ensures
            r == self@.meta,
    {
        self.meta_
    }

    /// A slot of no pool.
    pub fn stack_empty_() -> (r: Self)
        ensures
            r@ == SlotView::<H>::unused(0, 0),
    {
        WeakChunk {
            chunk_state_: WeakChunkState::empty_(),
            prev_live_: SlotPtr::null(),
            next_live_: SlotPtr::null(),
            strong_chunk_: ChunkPtr::null(),
            record_: None,
            meta_: 0,
            _unused_t_: PhantomData,
        }
    }

    /// Notes what to do before the data goes, and the data's length.
    pub fn set_record_erased_(&mut self, record: Option<PreDropRecord<H>>, meta: usize)
        ensures
            final(self).id() == old(self).id(),
            final(self)@ == (SlotView { record, meta, ..old(self)@ }),
    {
        self.record_ = record;
        self.meta_ = meta;
    }

    /// Runs what the slot's record asks for on the data, which is then ready to be dropped.
    pub fn drop_data<V>(&self, data: &mut V) where H: TrPreDrop<V>
        ensures
            match self@.record {
                Some(record) => record.outcome(*old(data), *final(data)),
                None => *final(data) == *old(data),
            },
    {
        match self.record_ {
            None => {},
            Some(record) => record.run_(data),
        }
    }

    pub fn next_live(&self) -> (r: SlotPtr)
        ensures
            r == self@.next_live,
    {
        self.next_live_
    }

    pub fn prev_live(&self) -> (r: SlotPtr)
        ensures
            r == self@.prev_live,
    {
        self.prev_live_
    }

    pub fn set_next_live(&mut self, next: SlotPtr)
        ensures
            final(self).id() == old(self).id(),
            final(self)@ == (SlotView { next_live: next, ..old(self)@ }),
    {
        self.next_live_ = next;
    }

    pub fn set_prev_live(&mut self, prev: SlotPtr)
        ensures
            final(self).id() == old(self).id(),
            final(self)@ == (SlotView { prev_live: prev, ..old(self)@ }),
    {
        self.prev_live_ = prev;
    }

    /// Makes the slot a link of the free list, with nothing left of its last use.
    pub fn link_as_freed(&mut self, next: PoolIndex)
        requires
            !old(self)@.locked,
        ensures
            final(self).id() == old(self).id(),
            final(self)@ == SlotView::<H>::unused(old(self)@.pool_order, next),
    {
        self.chunk_state_.set_next_freed(next);
        self.chunk_state_.reset_all();
        self.set_strong_chunk(ChunkPtr::null());
        self.set_prev_live(SlotPtr::null());
        self.set_next_live(SlotPtr::null());
        self.record_ = None;
        self.meta_ = 0;
    }
}

/// What asking for the data as its single owner gives: the data where only weak handles point
/// at it, else the state that it is in.
pub open spec fn owning_result<H>(slot: SlotView<H>) -> Result<ChunkPtr, DataState> {
    if slot.strong != ChunkPtr::null() && slot.state == DataState::Created {
        Ok(slot.strong)
    } else {
        Err(slot.state)
    }
}

/// What asking for the data as one of its sharers gives: the data where it has no single owner
/// and is alive, else the state that it is in.
pub open spec fn sharing_result<H>(slot: SlotView<H>) -> Result<ChunkPtr, DataState> {
    if slot.strong != ChunkPtr::null() && (slot.state == DataState::Created || slot.state
        == DataState::Sharing) {
        Ok(slot.strong)
    } else {
        Err(slot.state)
    }
}

/// The numbers of the states, and which of them have their data.
pub proof fn law_states_in_numbers(state: DataState)
    ensures
        DataState::Reclaimed.code() == 0 && DataState::Created.code() == 1,
        DataState::Owning.code() == 2 && DataState::Sharing.code() == 3,
        DataState::Destroying.code() == 4 && DataState::Destroyed.code() == 5,
        DataState::Finalized.code() == 6 && DataState::Zombie.code() == 7,
        state.alive() <==> state == DataState::Created || state == DataState::Owning || state
            == DataState::Sharing,
{
}

/// A word is the lock bit, the number of the state and the count, one behind the other.
pub proof fn law_word_in_numbers(w: u32)
    ensures
        w == (if word_locked(w) {
            0x8000_0000int
        } else {
            0
        }) + word_state(w).code() * 0x1000_0000 + word_count(w),
        word_count(w) < 0x1000_0000,
{
    let code = ((w & 0x7000_0000) >> 28) as u8;
    assert(code < 8 && w & 0x0FFF_FFFF < 0x1000_0000 && w == (w & 0x8000_0000) + (code as u32)
        * 0x1000_0000 + (w & 0x0FFF_FFFF) && (w & 0x8000_0000 == 0 || w & 0x8000_0000
        == 0x8000_0000)) by (bit_vector)
        requires
            code == ((w & 0x7000_0000) >> 28) as u8,
    ;
    law_state_code(DataState::Created, code);
}

/// A slot that was moved to a state has that state; all else of it stays.
pub proof fn law_moving_keeps_the_rest(a: WeakChunkState, b: WeakChunkState, to: DataState)
    ensures
        b.is_moved_to(&a, to) <==> word_state(b.weak_state_.word()) == to && word_count(
            b.weak_state_.word(),
        ) == word_count(a.weak_state_.word()) && word_locked(b.weak_state_.word()) == word_locked(
            a.weak_state_.word(),
        ) && b.pool_order_ == a.pool_order_ && b.next_freed_ == a.next_freed_,
{
}

/// What is asked for strongly is given exactly by the state of a slot that has an object: to one
/// owner where it is `Created`, to a sharer where it is `Created` or `Sharing`.
pub proof fn law_upgrades_ask_for_the_state<H>(slot: SlotView<H>)
    requires
        slot.strong != ChunkPtr::null(),
    ensures
        owning_result(slot) is Ok <==> slot.state == DataState::Created,
        sharing_result(slot) is Ok <==> slot.state == DataState::Created || slot.state
            == DataState::Sharing,
        owning_result(slot) matches Ok(c) ==> c == slot.strong,
        sharing_result(slot) matches Ok(c) ==> c == slot.strong,
        owning_result(slot) matches Err(state) ==> state == slot.state,
        sharing_result(slot) matches Err(state) ==> state == slot.state,
{
}

/// Writing a state into a word changes the state and nothing else.
pub proof fn law_word_state_written(w: u32, to: DataState)
    ensures
        word_state(word_with_state(w, to)) == to,
        word_count(word_with_state(w, to)) == word_count(w),
        word_locked(word_with_state(w, to)) == word_locked(w),
{
    lemma_word_with_state(w, to);
}

/// A slot that belongs to no object has nothing in it.
pub proof fn law_unused_slot<H>(order: PoolIndex, next: PoolIndex)
    ensures
        ({
            let s = SlotView::<H>::unused(order, next);
            &&& s.pool_order == order && s.next_freed == next && !s.locked
            &&& s.state == DataState::Reclaimed && s.count == 0 && s.strong == ChunkPtr::null()
            &&& s.prev_live == SlotPtr::null() && s.next_live == SlotPtr::null()
            &&& s.record is None && s.meta == 0
        }),
{
}

} // verus!
