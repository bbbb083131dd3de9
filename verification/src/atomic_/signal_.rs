//! Which bit of a word says that the word is locked.

use core::marker::PhantomData;

use vstd::prelude::*;

use super::cell_::TrBitWord;

verus! {

/// A lock bit inside a word.
pub trait TrMutexSignal<V: TrBitWord> {
    /// Whether the lock bit of `val` is set.
    spec fn acquired(val: V) -> bool;

    /// `val` with its lock bit set.
    spec fn locked(val: V) -> V;

    /// `val` with its lock bit clear: what the other bits say.
    spec fn visible(val: V) -> V;

    fn is_acquired(val: V) -> (r: bool)
        ensures
            r == Self::acquired(val),
    ;

    fn is_released(val: V) -> (r: bool)
        ensures
            r == !Self::acquired(val),
    ;

    fn make_acquired(val: V) -> (r: V)
        ensures
            r == Self::locked(val),
    ;

    fn make_released(val: V) -> (r: V)
        ensures
            r == Self::visible(val),
    ;

    /// The lock bit and the other bits are independent of each other: setting or clearing
    /// the lock bit leaves what the others say, and a word is determined by the two.
    proof fn lemma_signal(val: V)
        ensures
            Self::acquired(Self::locked(val)),
            !Self::acquired(Self::visible(val)),
            Self::visible(Self::locked(val)) == Self::visible(val),
            Self::visible(Self::visible(val)) == Self::visible(val),
            Self::acquired(val) ==> Self::locked(val) == val,
            !Self::acquired(val) ==> Self::visible(val) == val,
            Self::acquired(val) ==> Self::locked(Self::visible(val)) == val,
            !Self::acquired(V::zero_spec()),
    ;
}

/// The highest bit is the lock bit.
#[derive(Debug)]
pub struct MsbAsMutexSignal<V: TrBitWord>(PhantomData<V>);

impl<V: TrBitWord> TrMutexSignal<V> for MsbAsMutexSignal<V> {
    open spec fn acquired(val: V) -> bool {
        val.and_spec(V::highest_spec()) == V::highest_spec()
    }

    open spec fn locked(val: V) -> V {
        val.or_spec(V::highest_spec())
    }

    open spec fn visible(val: V) -> V {
        val.and_spec(V::highest_spec().not_spec())
    }

    fn is_acquired(val: V) -> (r: bool) {
        val.bit_and(V::highest()).same(V::highest())
    }

    fn is_released(val: V) -> (r: bool) {
        !Self::is_acquired(val)
    }

    fn make_acquired(val: V) -> (r: V) {
        val.bit_or(V::highest())
    }

    fn make_released(val: V) -> (r: V) {
        val.bit_and(V::highest().bit_not())
    }

    proof fn lemma_signal(val: V) {
        V::lemma_flag_bit(val, V::highest_spec());
    }
}

/// The lowest bit is the lock bit.
#[derive(Debug)]
pub struct LsbAsMutexSignal<V: TrBitWord>(PhantomData<V>);

impl<V: TrBitWord> TrMutexSignal<V> for LsbAsMutexSignal<V> {
    open spec fn acquired(val: V) -> bool {
        val.and_spec(V::lowest_spec()) == V::lowest_spec()
    }

    open spec fn locked(val: V) -> V {
        val.or_spec(V::lowest_spec())
    }

    open spec fn visible(val: V) -> V {
        val.and_spec(V::lowest_spec().not_spec())
    }

    fn is_acquired(val: V) -> (r: bool) {
        val.bit_and(V::lowest()).same(V::lowest())
    }

    fn is_released(val: V) -> (r: bool) {
        !Self::is_acquired(val)
    }

    fn make_acquired(val: V) -> (r: V) {
        val.bit_or(V::lowest())
    }

    fn make_released(val: V) -> (r: V) {
        val.bit_and(V::lowest().bit_not())
    }

    proof fn lemma_signal(val: V) {
        V::lemma_flag_bit(val, V::lowest_spec());
    }
}

/// The lock bit of a 32-bit word is the highest, or the lowest; the other bits are the rest of
/// the number.
pub proof fn law_signal_bits(w: u32)
    ensures
        MsbAsMutexSignal::<u32>::acquired(w) <==> w >= 0x8000_0000,
        MsbAsMutexSignal::<u32>::visible(w) == w % 0x8000_0000,
        MsbAsMutexSignal::<u32>::locked(w) == w % 0x8000_0000 + 0x8000_0000,
        LsbAsMutexSignal::<u32>::acquired(w) <==> w % 2 == 1,
        LsbAsMutexSignal::<u32>::visible(w) == w - w % 2,
        LsbAsMutexSignal::<u32>::locked(w) == w - w % 2 + 1,
{
    assert((w & 0x8000_0000 == 0x8000_0000 <==> w >= 0x8000_0000) && w & !0x8000_0000u32 == w
        % 0x8000_0000 && (w | 0x8000_0000) == (w % 0x8000_0000 + 0x8000_0000) as u32 && (w & 1 == 1
        <==> w % 2 == 1) && w & !1u32 == (w - w % 2) as u32 && (w | 1) == (w - w % 2 + 1) as u32)
        by (bit_vector);
}

} // verus!
