//! The handles of objects.
//!
//! A `Retain` is a weak handle: it keeps the object's weak slot, and through it the data while
//! nobody holds that strongly. An `Owning` is the only strong handle of its object, a `Sharing`
//! one of several. All are tokens: what they stand for is kept in the tree that is handed to
//! their methods, and it is given back by `release`.

pub mod owning_;
pub mod retain_;
pub mod sharing_;

pub use owning_::Owning;
pub use retain_::{Retain, UpgradeError};
pub use sharing_::Sharing;
