//! The tree of scopes: its nodes, what each holds, and how they are opened, closed and reclaimed.

pub mod alloc_;
pub mod handle_laws_;
pub mod handles_;
pub mod laws_;
pub mod node_;
pub mod order_;
pub mod promises_;
pub mod put_;
pub mod reclaim_;
pub mod room_laws_;
pub mod root_;
pub mod state_;
pub mod step_;
pub mod teardown_;
pub mod tree_;

pub use node_::{ScopeContent, ScopeNode, ScopeNodeExt, TreeNodeBase};
