//! Words that carry a lock bit beside other bits, and the locks built on them.
//!
//! Every compare-exchange of the library stands in [`spin_`]; the other modules only
//! see [`SpinFlag`] and [`SpinMutex`].

pub mod cell_;
pub mod signal_;
pub mod spin_;

pub use cell_::{
    LocalCell, LocksOrderings, MemOrder, StrictOrderings, TrAtomicCell, TrBitWord,
    TrCmpxchOrderings,
};
pub use signal_::{LsbAsMutexSignal, MsbAsMutexSignal, TrMutexSignal};
pub use spin_::{SpinFlag, SpinMutex, SpinMutexGuard};
