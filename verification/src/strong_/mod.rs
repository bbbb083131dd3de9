//! Strong chunks: the data of the objects, and the pools that they are placed in.

pub mod chunk_;
pub mod pool_;

pub use chunk_::{StrongChunk, StrongChunkHead, StrongChunkHeadInfo, StrongChunkState};
pub use pool_::StrongPool;
