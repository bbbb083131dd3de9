//! The two modes of sharing a scope.

use vstd::prelude::*;

use crate::abs_::TrShareMarker;

verus! {

/// A scope that one thread has to itself.
pub enum Local {
    OneThread,
}

/// Set aside for scopes that several threads share.
pub enum Shared {
    ManyThreads,
}

impl TrShareMarker for Local {

}

impl TrShareMarker for Shared {

}

} // verus!
