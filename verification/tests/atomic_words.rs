//! Lock bits, and the words and mutexes that are made of them.

use sw_scope::atomic_::{
    LocalCell, LocksOrderings, LsbAsMutexSignal, MemOrder, MsbAsMutexSignal, SpinFlag, SpinMutex,
    TrAtomicCell, TrMutexSignal,
};

type LsbMutex = SpinMutex<usize, usize, LocalCell<usize>, LsbAsMutexSignal<usize>, LocksOrderings>;

#[test]
fn spin_mutex_acquires_and_releases_with_default_signal() {
    let mut mutex: SpinMutex<usize> = SpinMutex::new(0);
    assert!(!mutex.is_acquired());
    let guard = mutex.lock();
    assert!(mutex.is_acquired());
    assert!(mutex.release(guard));
    mutex.with_locked(|value: &mut usize| {
        *value += 1;
    });
    assert!(!mutex.is_acquired());
    assert_eq!(mutex.try_with_locked(0, |value: &mut usize| *value), Some(1));
}

#[test]
fn spin_mutex_supports_configurable_signal_bit_and_orderings() {
    let mut mutex: LsbMutex = SpinMutex::new(0);
    assert!(!mutex.is_acquired());
    mutex.with_locked(|value: &mut usize| *value += 41);
    assert!(!mutex.is_acquired());
    assert_eq!(mutex.try_with_locked(0, |value: &mut usize| *value), Some(41));

    assert!(LsbAsMutexSignal::<usize>::is_acquired(0b01));
    assert!(!LsbAsMutexSignal::<usize>::is_acquired(0b10));
    assert!(MsbAsMutexSignal::<usize>::is_acquired(1usize << (usize::BITS - 1)));
    assert!(!MsbAsMutexSignal::<usize>::is_acquired(0b01));
}

#[test]
fn a_locked_mutex_turns_others_away() {
    let mut mutex: SpinMutex<usize> = SpinMutex::new(7);
    let guard = mutex.try_lock(1).expect("the lock is free");
    assert!(mutex.try_lock(4).is_none());
    assert_eq!(mutex.try_with_locked(3, |value: &mut usize| *value), None);
    assert!(mutex.release(guard));
    assert_eq!(mutex.try_with_locked(3, |value: &mut usize| *value), Some(7));
}

#[test]
fn spin_flag_counts_with_fetch_add_and_sub() {
    let mut flag: SpinFlag<u32> = SpinFlag::new(0);
    assert_eq!(flag.fetch_add(1), 0);
    assert_eq!(flag.fetch_add(41), 1);
    assert_eq!(flag.read(), 42);
    assert_eq!(flag.fetch_sub(2), 42);
    assert_eq!(flag.read(), 40);
}

#[test]
fn spin_flag_hides_lock_bit() {
    let mut flag: SpinFlag<u32> = SpinFlag::new(0x8000_0000);
    assert!(!flag.is_locked());
    assert!(flag.try_acquire(4));
    assert!(flag.is_locked());
    assert_eq!(flag.read(), 0);
    assert!(!flag.try_acquire(4));
    assert!(flag.release());
    assert!(!flag.release());
    assert!(!flag.is_locked());
}

#[test]
fn spin_flag_updates_keep_the_lock_bit() {
    let mut flag: SpinFlag<u32> = SpinFlag::new(5);
    assert!(flag.try_acquire(0));
    assert_eq!(flag.try_update(|bits: u32| Some((bits + 1, bits))), Some(5));
    assert!(flag.is_locked());
    assert_eq!(flag.read(), 6);
    // A lock bit in what the update gives is dropped.
    assert!(flag.release());
    assert_eq!(flag.try_update(|bits: u32| Some((bits | 0x8000_0000, ()))), Some(()));
    assert!(!flag.is_locked());
    assert_eq!(flag.read(), 6);
    assert_eq!(flag.try_update(|_bits: u32| None::<(u32, ())>), None);
    assert_eq!(flag.read(), 6);
}

#[test]
fn a_cell_exchanges_only_what_it_holds() {
    let mut cell: LocalCell<u32> = LocalCell::new(3);
    assert_eq!(cell.compare_exchange_weak(4, 9, MemOrder::AcqRel, MemOrder::Relaxed), Err(3));
    assert_eq!(cell.load(MemOrder::Acquire), 3);
    assert_eq!(cell.compare_exchange_weak(3, 9, MemOrder::AcqRel, MemOrder::Relaxed), Ok(3));
    assert_eq!(cell.peek(), 9);
    assert_eq!(cell.fetch_sub(10, MemOrder::SeqCst), 9);
    assert_eq!(cell.peek(), u32::MAX);
}
