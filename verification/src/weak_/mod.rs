//! Weak slots: the identity of an object, and what decides when it is destroyed.

pub mod chain_;
pub mod chunk_;
pub mod pool_;
pub mod pre_drop_;

pub use chunk_::{DataState, WeakChunk, WeakChunkState, WeakChunkStateGuard};
pub use pool_::{WeakPool, WeakPoolHead};
pub use pre_drop_::{resolve_, PreDropRecord, PreDropRegistry};
