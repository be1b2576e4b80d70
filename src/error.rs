use vstd::prelude::*;

verus! {

/// Why a lookup produced no result.
#[derive(Debug, Clone, PartialEq, Eq)]
pub enum LookupError {
    /// The query is empty.
    InvalidQuery,
    /// The home directory could not be determined.
    Environment,
    /// No cache file, or a cache file without a live version.
    NotFound,
    /// A filesystem failure, with the path it concerned.
    Io(String),
}

} // verus!
