//! A scope arena: objects are put into scopes, scopes form a tree, and a scope can be emptied as
//! a whole, whatever still points at what is in it.
//!
//! An object is reached through handles. A [`Retain`] is weak: it can be kept anywhere, even
//! inside other objects of the arena, and it keeps the data while nobody holds it strongly. An
//! [`Owning`] is the only strong handle of its object, a [`Sharing`] one of several; both borrow
//! the weak handle that they came from. When a scope is emptied every object in it is destroyed,
//! after its hook has run; weak handles that are left over give no strong ones any more.
//!
//! - [`ptr_`], [`mem_`], [`slab_`]: places, layouts and memory.
//! - [`atomic_`]: locks in a bit of a word.
//! - [`weak_`]: weak slots, their pools, and what is done before an object goes.
//! - [`strong_`]: the data of objects, and the pools that it is placed in.
//! - [`scope_tree_`]: the tree of scopes, with everything that happens in it, and its laws.
//! - [`scope_`], [`smart_pointer_`], [`abs_`]: scopes and handles as callers see them.
//! - [`demo_`]: how leaks are judged.

pub mod abs_;
pub mod atomic_;
pub mod demo_;
pub mod emplace_;
pub mod mem_;
pub mod ptr_;
pub mod scope_;
pub mod scope_str_;
pub mod scope_tree_;
pub mod share_marker_;
pub mod slab_;
pub mod smart_pointer_;
pub mod strong_;
pub mod weak_;

pub use abs_::{TrPreDrop, TrScope, TrScopeExt, TrShareMarker};
pub use emplace_::{IntoEmplace, TrEmplace};
pub use scope_::{Scope, ScopeError};
pub use scope_str_::ScopeStr;
pub use scope_tree_::root_::RootScope;
pub use share_marker_::{Local, Shared};
pub use smart_pointer_::{Owning, Retain, Sharing};
