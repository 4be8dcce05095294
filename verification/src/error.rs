//! Why a build or a search was given up.

use vstd::prelude::*;

verus! {

/// The failures of building and searching.
#[derive(Clone, Copy, Debug, PartialEq, Eq, Structural)]
pub enum SearchError {
    /// A vector has another length than the store was made for.
    DimensionMismatch { expected: usize, found: usize },
    /// The backend could not say how similar the vector `id` is.
    Backend { id: u64 },
}

} // verus!
