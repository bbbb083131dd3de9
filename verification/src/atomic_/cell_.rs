//! The word types, the cell that holds one word, and the memory orders of its operations.

use vstd::prelude::*;

verus! {

/// An unsigned word whose single bits can be set, cleared and tested.
pub trait TrBitWord: Copy {
    /// Bitwise and.
    spec fn and_spec(self, other: Self) -> Self;

    /// Bitwise or.
    spec fn or_spec(self, other: Self) -> Self;

    /// Bitwise complement.
    spec fn not_spec(self) -> Self;

    /// The sum, reduced to the width of the word.
    spec fn plus_spec(self, other: Self) -> Self;

    /// The difference, reduced to the width of the word.
    spec fn minus_spec(self, other: Self) -> Self;

    /// The word without any bit.
    spec fn zero_spec() -> Self;

    /// The word whose lowest bit alone is set.
    spec fn lowest_spec() -> Self;

    /// The word whose highest bit alone is set.
    spec fn highest_spec() -> Self;

    fn bit_and(self, other: Self) -> (r: Self)
        ensures
            r == self.and_spec(other),
    ;

    fn bit_or(self, other: Self) -> (r: Self)
        ensures
            r == self.or_spec(other),
    ;

    fn bit_not(self) -> (r: Self)
        ensures
            r == self.not_spec(),
    ;

    fn plus(self, other: Self) -> (r: Self)
        ensures
            r == self.plus_spec(other),
    ;

    fn minus(self, other: Self) -> (r: Self)
        ensures
            r == self.minus_spec(other),
    ;

    fn zero() -> (r: Self)
        ensures
            r == Self::zero_spec(),
    ;

    fn lowest() -> (r: Self)
        ensures
            r == Self::lowest_spec(),
    ;

    fn highest() -> (r: Self)
        ensures
            r == Self::highest_spec(),
    ;

    fn same(self, other: Self) -> (r: bool)
        ensures
            r == (self == other),
    ;

    /// How a single-bit mask behaves: setting it makes it visible, clearing it hides it,
    /// a second setting or clearing changes nothing, and a set bit that is cleared and set
    /// again is back.
    proof fn lemma_flag_bit(val: Self, flag: Self)
        requires
            flag == Self::lowest_spec() || flag == Self::highest_spec(),
        ensures
            val.or_spec(flag).and_spec(flag) == flag,
            val.and_spec(flag.not_spec()).and_spec(flag) != flag,
            val.or_spec(flag).and_spec(flag.not_spec()) == val.and_spec(flag.not_spec()),
            val.and_spec(flag) == flag ==> val.or_spec(flag) == val,
            val.and_spec(flag) != flag ==> val.and_spec(flag.not_spec()) == val,
            val.and_spec(flag.not_spec()).and_spec(flag.not_spec()) == val.and_spec(flag.not_spec()),
            val.and_spec(flag) == flag ==> val.and_spec(flag.not_spec()).or_spec(flag) == val,
            Self::zero_spec().and_spec(flag) != flag,
    ;
}

impl TrBitWord for u32 {
    open spec fn and_spec(self, other: u32) -> u32 {
        self & other
    }

    open spec fn or_spec(self, other: u32) -> u32 {
        self | other
    }

    open spec fn not_spec(self) -> u32 {
        !self
    }

    open spec fn plus_spec(self, other: u32) -> u32 {
        vstd::wrapping::u32_specs::wrapping_add(self, other)
    }

    open spec fn minus_spec(self, other: u32) -> u32 {
        vstd::wrapping::u32_specs::wrapping_sub(self, other)
    }

    open spec fn zero_spec() -> u32 {
        0
    }

    open spec fn lowest_spec() -> u32 {
        1
    }

    open spec fn highest_spec() -> u32 {
        0x8000_0000
    }

    fn bit_and(self, other: u32) -> (r: u32) {
        self & other
    }

    fn bit_or(self, other: u32) -> (r: u32) {
        self | other
    }

    fn bit_not(self) -> (r: u32) {
        !self
    }

    fn plus(self, other: u32) -> (r: u32) {
        self.wrapping_add(other)
    }

    fn minus(self, other: u32) -> (r: u32) {
        self.wrapping_sub(other)
    }

    fn zero() -> (r: u32) {
        0
    }

    fn lowest() -> (r: u32) {
        1
    }

    fn highest() -> (r: u32) {
        0x8000_0000
    }

    fn same(self, other: u32) -> (r: bool) {
        self == other
    }

    proof fn lemma_flag_bit(val: u32, flag: u32) {
        assert((val | flag) & flag == flag) by (bit_vector);
        assert((val & !flag) & flag != flag && 0u32 & flag != flag) by (bit_vector)
            requires
                flag == 1 || flag == 0x8000_0000,
        ;
        assert((val | flag) & !flag == val & !flag) by (bit_vector);
        assert(val & flag == flag ==> (val | flag) == val && (val & !flag) | flag == val)
            by (bit_vector);
        assert(val & flag != flag ==> val & !flag == val) by (bit_vector)
            requires
                flag == 1 || flag == 0x8000_0000,
        ;
        assert((val & !flag) & !flag == val & !flag) by (bit_vector);
    }
}

impl TrBitWord for usize {
    open spec fn and_spec(self, other: usize) -> usize {
        self & other
    }

    open spec fn or_spec(self, other: usize) -> usize {
        self | other
    }

    open spec fn not_spec(self) -> usize {
        !self
    }

    open spec fn plus_spec(self, other: usize) -> usize {
        vstd::wrapping::usize_specs::wrapping_add(self, other)
    }

    open spec fn minus_spec(self, other: usize) -> usize {
        vstd::wrapping::usize_specs::wrapping_sub(self, other)
    }

    open spec fn zero_spec() -> usize {
        0
    }

    open spec fn lowest_spec() -> usize {
        1
    }

    open spec fn highest_spec() -> usize {
        1usize << ((usize::BITS - 1) as u32)
    }

    fn bit_and(self, other: usize) -> (r: usize) {
        self & other
    }

    fn bit_or(self, other: usize) -> (r: usize) {
        self | other
    }

    fn bit_not(self) -> (r: usize) {
        !self
    }

    fn plus(self, other: usize) -> (r: usize) {
        self.wrapping_add(other)
    }

    fn minus(self, other: usize) -> (r: usize) {
        self.wrapping_sub(other)
    }

    fn zero() -> (r: usize) {
        0
    }

    fn lowest() -> (r: usize) {
        1
    }

    fn highest() -> (r: usize) {
        1usize << (usize::BITS - 1)
    }

    fn same(self, other: usize) -> (r: bool) {
        self == other
    }

    proof fn lemma_flag_bit(val: usize, flag: usize) {
        assert((val | flag) & flag == flag) by (bit_vector);
        assert((val & !flag) & flag != flag && 0usize & flag != flag) by (bit_vector)
            requires
                flag == 1 || flag == 1usize << ((usize::BITS - 1) as u32),
        ;
        assert((val | flag) & !flag == val & !flag) by (bit_vector);
        assert(val & flag == flag ==> (val | flag) == val && (val & !flag) | flag == val)
            by (bit_vector);
        assert(val & flag != flag ==> val & !flag == val) by (bit_vector)
            requires
                flag == 1 || flag == 1usize << ((usize::BITS - 1) as u32),
        ;
        assert((val & !flag) & !flag == val & !flag) by (bit_vector);
    }
}

/// The memory orders that a cell operation can ask for.
#[derive(Clone, Copy, Debug, PartialEq, Eq, Structural)]
pub enum MemOrder {
    Relaxed,
    Acquire,
    AcqRel,
    SeqCst,
}

/// A cell that holds one word and changes it only by atomic steps.
///
/// Other holders of the same cell may change the word between two operations. Each
/// operation is therefore one of two kinds. An undisturbed one finds the word that the
/// previous operation left, and acts on it. A disturbed one finds some other word, and uses
/// up part of `unrest`, the number of disturbances still to come. A cell with `unrest() == 0`
/// is its holder's alone.
pub trait TrAtomicCell: Sized {
    /// The word's type.
    type Value: TrBitWord;

    /// The word, as the latest operation through this holder left it.
    spec fn word(&self) -> Self::Value;

    /// How many operations through this holder can still be disturbed.
    spec fn unrest(&self) -> nat;

    fn new(value: Self::Value) -> (r: Self)
        ensures
            r.word() == value,
            r.unrest() == 0,
    ;

    /// The word, without a step of this holder's own.
    fn peek(&self) -> (r: Self::Value)
        ensures
            self.unrest() == 0 ==> r == self.word(),
    ;

    fn load(&mut self, order: MemOrder) -> (r: Self::Value)
        ensures
            r == final(self).word(),
            final(self).unrest() < old(self).unrest() || (final(self).unrest() == old(self).unrest()
                && r == old(self).word()),
    ;

    /// Replaces the word by `desired` where it equals `current`.
    ///
    /// A disturbed attempt may fail though the words are equal.
    fn compare_exchange_weak(
        &mut self,
        current: Self::Value,
        desired: Self::Value,
        success: MemOrder,
        failure: MemOrder,
    ) -> (r: Result<Self::Value, Self::Value>)
        ensures
            match r {
                Ok(found) => found == current && final(self).word() == desired,
                Err(found) => final(self).word() == found,
            },
            final(self).unrest() < old(self).unrest() || (final(self).unrest() == old(self).unrest()
                && (r is Ok <==> old(self).word() == current) && (r is Err ==> final(self).word()
                == old(self).word())),
    ;

    fn fetch_add(&mut self, value: Self::Value, order: MemOrder) -> (r: Self::Value)
        ensures
            final(self).word() == r.plus_spec(value),
            final(self).unrest() < old(self).unrest() || (final(self).unrest() == old(self).unrest()
                && r == old(self).word()),
    ;

    fn fetch_sub(&mut self, value: Self::Value, order: MemOrder) -> (r: Self::Value)
        ensures
            final(self).word() == r.minus_spec(value),
            final(self).unrest() < old(self).unrest() || (final(self).unrest() == old(self).unrest()
                && r == old(self).word()),
    ;
}

/// A cell that one thread has to itself.
#[derive(Debug)]
pub struct LocalCell<D> {
    pub bits: D,
}

impl<D: TrBitWord> TrAtomicCell for LocalCell<D> {
    type Value = D;

    open spec fn word(&self) -> D {
        self.bits
    }

    open spec fn unrest(&self) -> nat {
        0
    }

    fn new(value: D) -> (r: Self) {
        LocalCell { bits: value }
    }

    fn peek(&self) -> (r: D) {
        self.bits
    }

    fn load(&mut self, order: MemOrder) -> (r: D) {
        self.bits
    }

    fn compare_exchange_weak(
        &mut self,
        current: D,
        desired: D,
        success: MemOrder,
        failure: MemOrder,
    ) -> (r: Result<D, D>) {
        let found = self.bits;
        if found.same(current) {
            self.bits = desired;
            Ok(found)
        } else {
            Err(found)
        }
    }

    fn fetch_add(&mut self, value: D, order: MemOrder) -> (r: D) {
        let found = self.bits;
        self.bits = found.plus(value);
        found
    }

    fn fetch_sub(&mut self, value: D, order: MemOrder) -> (r: D) {
        let found = self.bits;
        self.bits = found.minus(value);
        found
    }
}

/// The memory orders of a lock's compare-exchange and of its loads.
pub trait TrCmpxchOrderings {
    spec fn succ_spec() -> MemOrder;

    spec fn fail_spec() -> MemOrder;

    spec fn load_spec() -> MemOrder;

    fn succ_order() -> (r: MemOrder)
        ensures
            r == Self::succ_spec(),
    ;

    fn fail_order() -> (r: MemOrder)
        ensures
            r == Self::fail_spec(),
    ;

    fn load_order() -> (r: MemOrder)
        ensures
            r == Self::load_spec(),
    ;
}

/// Sequentially consistent throughout.
#[derive(Clone, Copy, Debug, Default)]
pub struct StrictOrderings;

impl TrCmpxchOrderings for StrictOrderings {
    open spec fn succ_spec() -> MemOrder {
        MemOrder::SeqCst
    }

    open spec fn fail_spec() -> MemOrder {
        MemOrder::SeqCst
    }

    open spec fn load_spec() -> MemOrder {
        MemOrder::SeqCst
    }

    fn succ_order() -> (r: MemOrder) {
        MemOrder::SeqCst
    }

    fn fail_order() -> (r: MemOrder) {
        MemOrder::SeqCst
    }

    fn load_order() -> (r: MemOrder) {
        MemOrder::SeqCst
    }
}

/// Acquire on success and on loads, relaxed on failure: the usual orders of a lock.
#[derive(Clone, Copy, Debug, Default)]
pub struct LocksOrderings;

impl TrCmpxchOrderings for LocksOrderings {
    open spec fn succ_spec() -> MemOrder {
        MemOrder::Acquire
    }

    open spec fn fail_spec() -> MemOrder {
        MemOrder::Relaxed
    }

    open spec fn load_spec() -> MemOrder {
        MemOrder::Acquire
    }

    fn succ_order() -> (r: MemOrder) {
        MemOrder::Acquire
    }

    fn fail_order() -> (r: MemOrder) {
        MemOrder::Relaxed
    }

    fn load_order() -> (r: MemOrder) {
        MemOrder::Acquire
    }
}

/// The strict orders are sequentially consistent throughout; those of a lock acquire where it is
/// taken or looked at, and ask for nothing where it is not taken.
pub proof fn law_orders()
    ensures
        StrictOrderings::succ_spec() == MemOrder::SeqCst,
        StrictOrderings::fail_spec() == MemOrder::SeqCst,
        StrictOrderings::load_spec() == MemOrder::SeqCst,
        LocksOrderings::succ_spec() == MemOrder::Acquire,
        LocksOrderings::fail_spec() == MemOrder::Relaxed,
        LocksOrderings::load_spec() == MemOrder::Acquire,
{
}

/// Words of 32 bits are added and subtracted as numbers, modulo two to the power of 32, and what
/// one step adds the same step takes away.
pub proof fn law_words_count(a: u32, b: u32)
    ensures
        a.plus_spec(b) == (a + b) % 0x1_0000_0000,
        a.minus_spec(b) == (a - b) % 0x1_0000_0000,
        a.plus_spec(b).minus_spec(b) == a,
        u32::zero_spec() == 0 && u32::lowest_spec() == 1 && u32::highest_spec() == 0x8000_0000,
        usize::zero_spec() == 0 && usize::lowest_spec() == 1,
{
}

} // verus!
