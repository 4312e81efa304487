use vstd::prelude::*;

verus! {

/// Why a cache operation did not complete.
#[derive(Debug, Clone, Copy, PartialEq, Eq, Structural)]
pub enum CacheError {
    /// The page size or the capacity handed to the constructor is outside its bounds.
    InvalidConfiguration,
    /// A read touched a page that extends beyond the logical length of the store.
    OutOfRange,
    /// The backing store could not complete a read or a write.
    IoFailure,
}

} // verus!
