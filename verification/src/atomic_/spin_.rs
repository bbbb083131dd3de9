//! Taking and giving back a lock bit, changing the bits beside it, and the two locks that
//! are made of these: [`SpinFlag`] locks the word itself, [`SpinMutex`] a value beside it.

use core::marker::PhantomData;

use vstd::prelude::*;

use super::cell_::{
    LocalCell, MemOrder, StrictOrderings, TrAtomicCell, TrBitWord, TrCmpxchOrderings,
};
use super::signal_::{MsbAsMutexSignal, TrMutexSignal};

verus! {

/// The word `next` with the lock bit of `current`.
pub open spec fn with_lock_of<V: TrBitWord, S: TrMutexSignal<V>>(current: V, next: V) -> V {
    if S::acquired(current) {
        S::locked(S::visible(next))
    } else {
        S::visible(next)
    }
}

/// What one update by `op` makes of the word `before`: where `op` declines, the word stays;
/// else the other bits are those that `op` gave, and the lock bit stays.
pub open spec fn updated<V: TrBitWord, S: TrMutexSignal<V>, F: Fn(V) -> Option<(V, R)>, R>(
    op: F,
    before: V,
    after: V,
    out: Option<R>,
) -> bool {
    exists|given: Option<(V, R)>| #[trigger]
        call_ensures(op, (S::visible(before),), given) && (match given {
            None => out is None && after == before,
            Some(pair) => out == Some(pair.1) && after == with_lock_of::<V, S>(before, pair.0),
        })
}

/// Tries to set the lock bit of the cell, at most `max_try` times; 0 stands for any number.
///
/// Says whether this call set it. Without a limit on the attempts the call ends only where
/// the bit becomes clear, so the cell must be the caller's alone and released.
pub fn try_acquire<
    D: TrBitWord,
    C: TrAtomicCell<Value = D>,
    S: TrMutexSignal<D>,
    O: TrCmpxchOrderings,
>(
    cell: &mut C,
    max_try: usize,
) -> (r: bool)
    requires
        max_try == 0 ==> old(cell).unrest() == 0 && !S::acquired(old(cell).word()),
    ensures
        r ==> exists|found: D|
            !S::acquired(found) && final(cell).word() == #[trigger] S::locked(found),
        final(cell).unrest() <= old(cell).unrest(),
        old(cell).unrest() == 0 ==> r == !S::acquired(old(cell).word()),
        old(cell).unrest() == 0 ==> final(cell).word() == (if r {
            S::locked(old(cell).word())
        } else {
            old(cell).word()
        }),
{
    let mut current = cell.load(O::load_order());
    let mut tried: usize = 0;
    loop
        invariant
            cell.unrest() <= old(cell).unrest(),
            current == cell.word(),
            max_try == 0 ==> old(cell).unrest() == 0 && !S::acquired(old(cell).word()),
            old(cell).unrest() == 0 ==> cell.word() == old(cell).word(),
            max_try != 0 ==> tried < max_try,
            old(cell).unrest() == 0 && tried > 0 ==> S::acquired(old(cell).word()),
        decreases max_try - tried,
    {
        if S::is_released(current) {
            let acquired = S::make_acquired(current);
            let ghost before = cell.word();
            match cell.compare_exchange_weak(current, acquired, O::succ_order(), O::fail_order()) {
                Ok(_) => {
                    assert(!S::acquired(before) && cell.word() == S::locked(before));
                    return true;
                },
                Err(observed) => {
                    current = observed;
                },
            }
        } else {
            current = cell.load(O::load_order());
        }
        tried = tried + 1;
        if max_try != 0 && tried >= max_try {
            return false;
        }
    }
}

/// Clears the lock bit of the cell and says whether this call did; `false` where the bit was
/// clear already.
pub fn release_<
    D: TrBitWord,
    C: TrAtomicCell<Value = D>,
    S: TrMutexSignal<D>,
    O: TrCmpxchOrderings,
>(
    cell: &mut C,
) -> (r: bool)
    ensures
        r ==> exists|found: D|
            S::acquired(found) && final(cell).word() == #[trigger] S::visible(found),
        !r ==> !S::acquired(final(cell).word()),
        final(cell).unrest() <= old(cell).unrest(),
        old(cell).unrest() == 0 ==> r == S::acquired(old(cell).word()),
        old(cell).unrest() == 0 ==> final(cell).word() == S::visible(old(cell).word()),
{
    let mut current = cell.load(O::load_order());
    loop
        invariant
            cell.unrest() <= old(cell).unrest(),
            current == cell.word(),
            old(cell).unrest() == 0 ==> cell.word() == old(cell).word(),
        decreases cell.unrest(),
    {
        if S::is_released(current) {
            proof {
                S::lemma_signal(current);
            }
            return false;
        }
        let released = S::make_released(current);
        let ghost before = cell.word();
        match cell.compare_exchange_weak(current, released, O::succ_order(), O::fail_order()) {
            Ok(_) => {
                assert(S::acquired(before) && cell.word() == S::visible(before));
                return true;
            },
            Err(observed) => {
                current = observed;
            },
        }
    }
}

/// Reads the bits beside the lock bit, hands them to `op`, and writes back what it gives.
///
/// Where `op` gives nothing the word stays as it is. The lock bit stays in any case.
pub fn try_update<
    D: TrBitWord,
    C: TrAtomicCell<Value = D>,
    S: TrMutexSignal<D>,
    O: TrCmpxchOrderings,
    R,
    F: Fn(D) -> Option<(D, R)>,
>(cell: &mut C, op: F) -> (r: Option<R>)
    requires
        forall|w: D| call_requires(op, (#[trigger] S::visible(w),)),
    ensures
        exists|before: D| #[trigger]
            updated::<D, S, F, R>(op, before, final(cell).word(), r) && (old(cell).unrest()
                == 0 ==> before == old(cell).word()),
        final(cell).unrest() <= old(cell).unrest(),
{
    let mut current = cell.load(O::load_order());
    loop
        invariant
            cell.unrest() <= old(cell).unrest(),
            current == cell.word(),
            old(cell).unrest() == 0 ==> cell.word() == old(cell).word(),
            forall|w: D| call_requires(op, (#[trigger] S::visible(w),)),
        decreases cell.unrest(),
    {
        let visible = S::make_released(current);
        let ghost before = cell.word();
        let given = op(visible);
        if let Some((next_visible, out)) = given {
            let next = if S::is_acquired(current) {
                S::make_acquired(S::make_released(next_visible))
            } else {
                S::make_released(next_visible)
            };
            assert(next == with_lock_of::<D, S>(before, next_visible));
            assert(call_ensures(op, (S::visible(before),), given));
            if next.same(current) {
                assert(updated::<D, S, F, R>(op, before, cell.word(), Some(out)));
                return Some(out);
            }
            match cell.compare_exchange_weak(current, next, O::succ_order(), O::fail_order()) {
                Ok(_) => {
                    assert(updated::<D, S, F, R>(op, before, cell.word(), Some(out)));
                    return Some(out);
                },
                Err(observed) => {
                    current = observed;
                },
            }
        } else {
            assert(call_ensures(op, (S::visible(before),), given));
            assert(updated::<D, S, F, R>(op, before, cell.word(), None));
            return None;
        }
    }
}

/// A lock on a value beside the lock word.
#[verifier::reject_recursive_types(D)]
#[verifier::reject_recursive_types(C)]
#[verifier::reject_recursive_types(S)]
#[verifier::reject_recursive_types(O)]
pub struct SpinMutex<
    T,
    D: TrBitWord = usize,
    C: TrAtomicCell<Value = D> = LocalCell<usize>,
    S: TrMutexSignal<D> = MsbAsMutexSignal<D>,
    O: TrCmpxchOrderings = StrictOrderings,
> {
    state_: C,
    value_: T,
    /// Which lock this is.
    id_: Ghost<int>,
    _use_d_: PhantomData<D>,
    _use_s_: PhantomData<S>,
    _use_o_: PhantomData<O>,
}

/// Says that its holder has a [`SpinMutex`] locked; given back by [`SpinMutex::release`], to the
/// lock that it came from.
pub struct SpinMutexGuard {
    of_: Ghost<int>,
}

impl SpinMutexGuard {
    /// Which lock is held.
    pub closed spec fn of(&self) -> int {
        self.of_@
    }
}

impl<
    T,
    D: TrBitWord,
    C: TrAtomicCell<Value = D>,
    S: TrMutexSignal<D>,
    O: TrCmpxchOrderings,
> SpinMutex<T, D, C, S, O> {
    /// The guarded value.
    pub closed spec fn value(&self) -> T {
        self.value_
    }

    /// Which lock this is. Nothing is known of it but that it stays the same.
    pub closed spec fn id(&self) -> int {
        self.id_@
    }

    /// Whether the lock is taken.
    pub closed spec fn taken(&self) -> bool {
        S::acquired(self.state_.word())
    }

    /// Whether the lock word is the holder's alone.
    pub closed spec fn quiet(&self) -> bool {
        self.state_.unrest() == 0
    }

    pub fn new(value: T) -> (r: Self)
        ensures
            r.value() == value,
            !r.taken(),
            r.quiet(),
    {
        proof {
            S::lemma_signal(D::zero_spec());
        }
        SpinMutex {
            state_: C::new(D::zero()),
            value_: value,
            id_: Ghost(arbitrary()),
            _use_d_: PhantomData,
            _use_s_: PhantomData,
            _use_o_: PhantomData,
        }
    }

    /// Runs `access` on the value with the lock taken.
    pub fn with_locked<R, F: FnOnce(&mut T) -> R>(&mut self, access: F) -> (r: R)
        requires
            old(self).quiet(),
            !old(self).taken(),
            forall|x: &mut T| *x == old(self).value() ==> call_requires(access, (x,)),
        ensures
            final(self).quiet(),
            final(self).id() == old(self).id(),
            !final(self).taken(),
            exists|x: &mut T| #[trigger]
                call_ensures(access, (x,), r) && *x == old(self).value()
                    && *final(x) == final(self).value(),
    {
        let _taken = try_acquire::<D, C, S, O>(&mut self.state_, 0);
        proof {
            S::lemma_signal(old(self).state_.word());
        }
        let r = access(&mut self.value_);
        proof {
            S::lemma_signal(self.state_.word());
        }
        let _released = release_::<D, C, S, O>(&mut self.state_);
        r
    }

    /// As [`with_locked`](SpinMutex::with_locked), but gives up after `max_try` attempts.
    pub fn try_with_locked<R, F: FnOnce(&mut T) -> R>(
        &mut self,
        max_try: usize,
        access: F,
    ) -> (r: Option<R>)
        requires
            old(self).quiet(),
            max_try == 0 ==> !old(self).taken(),
            forall|x: &mut T| *x == old(self).value() ==> call_requires(access, (x,)),
        ensures
            final(self).quiet(),
            final(self).id() == old(self).id(),
            final(self).taken() == old(self).taken(),
            r is Some == !old(self).taken(),
            r is None ==> final(self).value() == old(self).value(),
            r is Some ==> exists|x: &mut T, out: R| #[trigger]
                call_ensures(access, (x,), out) && r == Some(out) && *x == old(self).value()
                    && *final(x) == final(self).value(),
    {
        let taken = try_acquire::<D, C, S, O>(&mut self.state_, max_try);
        proof {
            S::lemma_signal(old(self).state_.word());
        }
        if taken {
            let r = access(&mut self.value_);
            proof {
                S::lemma_signal(self.state_.word());
            }
            let _released = release_::<D, C, S, O>(&mut self.state_);
            Some(r)
        } else {
            None
        }
    }

    pub fn is_acquired(&self) -> (r: bool)
        ensures
            self.quiet() ==> r == self.taken(),
    {
        S::is_acquired(self.state_.peek())
    }

    /// Takes the lock, however long that takes.
    pub fn lock(&mut self) -> (r: SpinMutexGuard)
        requires
            old(self).quiet(),
            !old(self).taken(),
        ensures
            final(self).quiet(),
            final(self).id() == old(self).id(),
            final(self).taken(),
            final(self).value() == old(self).value(),
            r.of() == old(self).id(),
    {
        let _taken = try_acquire::<D, C, S, O>(&mut self.state_, 0);
        proof {
            S::lemma_signal(old(self).state_.word());
        }
        SpinMutexGuard { of_: Ghost(self.id_@) }
    }

    /// Takes the lock in at most `max_try` attempts.
    pub fn try_lock(&mut self, max_try: usize) -> (r: Option<SpinMutexGuard>)
        requires
            old(self).quiet(),
            max_try == 0 ==> !old(self).taken(),
        ensures
            final(self).quiet(),
            final(self).id() == old(self).id(),
            final(self).taken(),
            r is Some == !old(self).taken(),
            r matches Some(guard) ==> guard.of() == old(self).id(),
            final(self).value() == old(self).value(),
    {
        proof {
            S::lemma_signal(old(self).state_.word());
        }
        if try_acquire::<D, C, S, O>(&mut self.state_, max_try) {
            Some(SpinMutexGuard { of_: Ghost(self.id_@) })
        } else {
            None
        }
    }

    /// Gives the lock back and says whether it was taken.
    pub fn release(&mut self, guard: SpinMutexGuard) -> (r: bool)
        requires
            old(self).quiet(),
            guard.of() == old(self).id(),
        ensures
            final(self).quiet(),
            final(self).id() == old(self).id(),
            !final(self).taken(),
            r == old(self).taken(),
            final(self).value() == old(self).value(),
    {
        proof {
            S::lemma_signal(old(self).state_.word());
        }
        release_::<D, C, S, O>(&mut self.state_)
    }
}

/// A word of which one bit, given by `S`, is a lock, and the others belong to the caller.
#[verifier::reject_recursive_types(D)]
#[verifier::reject_recursive_types(C)]
#[verifier::reject_recursive_types(S)]
#[verifier::reject_recursive_types(O)]
pub struct SpinFlag<
    D: TrBitWord = u32,
    C: TrAtomicCell<Value = D> = LocalCell<u32>,
    S: TrMutexSignal<D> = MsbAsMutexSignal<D>,
    O: TrCmpxchOrderings = StrictOrderings,
> {
    pub bits_: C,
    pub _use_d_: PhantomData<D>,
    pub _use_s_: PhantomData<S>,
    pub _use_o_: PhantomData<O>,
}

impl<
    D: TrBitWord,
    C: TrAtomicCell<Value = D>,
    S: TrMutexSignal<D>,
    O: TrCmpxchOrderings,
> SpinFlag<D, C, S, O> {
    /// The whole word, lock bit and all.
    pub open spec fn word(&self) -> D {
        self.bits_.word()
    }

    /// Whether the word is the holder's alone.
    pub open spec fn quiet(&self) -> bool {
        self.bits_.unrest() == 0
    }

    /// Makes a word; a lock bit in `bits` is dropped.
    pub fn new(bits: D) -> (r: Self)
        ensures
            r.quiet(),
            r.word() == S::visible(bits),
    {
        SpinFlag {
            bits_: C::new(S::make_released(bits)),
            _use_d_: PhantomData,
            _use_s_: PhantomData,
            _use_o_: PhantomData,
        }
    }

    /// The bits beside the lock bit.
    pub fn read(&self) -> (r: D)
        ensures
            self.quiet() ==> r == S::visible(self.word()),
    {
        S::make_released(self.bits_.peek())
    }

    pub fn is_locked(&self) -> (r: bool)
        ensures
            self.quiet() ==> r == S::acquired(self.word()),
    {
        S::is_acquired(self.bits_.peek())
    }

    /// Tries to set the lock bit, at most `max_try` times; 0 stands for any number.
    pub fn try_acquire(&mut self, max_try: usize) -> (r: bool)
        requires
            max_try == 0 ==> old(self).quiet() && !S::acquired(old(self).word()),
        ensures
            r ==> exists|found: D|
                !S::acquired(found) && final(self).word() == #[trigger] S::locked(found),
            old(self).quiet() ==> final(self).quiet(),
            old(self).quiet() ==> r == !S::acquired(old(self).word()),
            old(self).quiet() ==> final(self).word() == (if r {
                S::locked(old(self).word())
            } else {
                old(self).word()
            }),
    {
        self::try_acquire::<D, C, S, O>(&mut self.bits_, max_try)
    }

    /// Clears the lock bit and says whether this call did.
    pub fn release(&mut self) -> (r: bool)
        ensures
            r ==> exists|found: D|
                S::acquired(found) && final(self).word() == #[trigger] S::visible(found),
            !r ==> !S::acquired(final(self).word()),
            old(self).quiet() ==> final(self).quiet(),
            old(self).quiet() ==> r == S::acquired(old(self).word()),
            old(self).quiet() ==> final(self).word() == S::visible(old(self).word()),
    {
        release_::<D, C, S, O>(&mut self.bits_)
    }

    /// Changes the bits beside the lock bit by `op`, which may decline.
    pub fn try_update<R, F: Fn(D) -> Option<(D, R)>>(&mut self, op: F) -> (r: Option<R>)
        requires
            forall|w: D| call_requires(op, (#[trigger] S::visible(w),)),
        ensures
            exists|before: D| #[trigger]
                updated::<D, S, F, R>(op, before, final(self).word(), r) && (old(self).quiet()
                    ==> before == old(self).word()),
            old(self).quiet() ==> final(self).quiet(),
    {
        let ghost start = self.bits_;
        let r = self::try_update::<D, C, S, O, R, F>(&mut self.bits_, op);
        proof {
            let end = self.bits_;
            let before = choose|before: D| #[trigger]
                updated::<D, S, F, R>(op, before, end.word(), r) && (start.unrest() == 0 ==> before
                    == start.word());
            assert(updated::<D, S, F, R>(op, before, self.word(), r));
        }
        r
    }

    /// Adds to the word, wrapping at its width, and returns what it was.
    pub fn fetch_add(&mut self, value: D) -> (r: D)
        ensures
            final(self).word() == r.plus_spec(value),
            old(self).quiet() ==> final(self).quiet() && r == old(self).word(),
    {
        self.bits_.fetch_add(value, MemOrder::AcqRel)
    }

    /// Subtracts from the word, wrapping at its width, and returns what it was.
    pub fn fetch_sub(&mut self, value: D) -> (r: D)
        ensures
            final(self).word() == r.minus_spec(value),
            old(self).quiet() ==> final(self).quiet() && r == old(self).word(),
    {
        self.bits_.fetch_sub(value, MemOrder::AcqRel)
    }
}

/// A lock bit that was taken and given back leaves the word as it was before.
pub proof fn law_acquire_then_release<V: TrBitWord, S: TrMutexSignal<V>>(word: V)
    requires
        !S::acquired(word),
    ensures
        S::acquired(S::locked(word)),
        S::visible(S::locked(word)) == word,
{
    S::lemma_signal(word);
}

/// An update neither takes nor gives back the lock, and the reader of the bits beside it sees
/// exactly what the update wrote.
pub proof fn law_update_keeps_lock<V: TrBitWord, S: TrMutexSignal<V>>(current: V, next: V)
    ensures
        S::acquired(with_lock_of::<V, S>(current, next)) == S::acquired(current),
        S::visible(with_lock_of::<V, S>(current, next)) == S::visible(next),
{
    S::lemma_signal(next);
    S::lemma_signal(S::visible(next));
}

/// An update that is declined changes nothing; any other writes exactly the bits that it gave, and
/// hands out what it gave with them.
pub proof fn law_update_writes_what_it_gave<V: TrBitWord, S: TrMutexSignal<V>, F: Fn(V) -> Option<(V, R)>, R>(
    op: F,
    before: V,
    after: V,
    out: Option<R>,
)
    requires
        updated::<V, S, F, R>(op, before, after, out),
    ensures
        S::acquired(after) == S::acquired(before),
        out is None ==> after == before && call_ensures(
            op,
            (S::visible(before),),
            None::<(V, R)>,
        ),
        out matches Some(o) ==> exists|pair: (V, R)|
            {
                &&& #[trigger] call_ensures(op, (S::visible(before),), Some(pair))
                &&& pair.1 == o
                &&& S::visible(after) == S::visible(pair.0)
            },
{
    let given = choose|given: Option<(V, R)>| #[trigger]
        call_ensures(op, (S::visible(before),), given) && (match given {
            None => out is None && after == before,
            Some(pair) => out == Some(pair.1) && after == with_lock_of::<V, S>(before, pair.0),
        });
    if let Some(pair) = given {
        law_update_keeps_lock::<V, S>(before, pair.0);
        assert(call_ensures(op, (S::visible(before),), Some(pair)));
    }
}

} // verus!
