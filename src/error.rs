use vstd::prelude::*;

verus! {

/// Failures of the storage engine.
#[derive(Debug, Clone, Copy, PartialEq, Eq, Structural)]
pub enum KvError {
    /// No chunk has a free page: the file cannot grow any further.
    AllocExhausted,
    /// Every cache slot is pinned, so no page can be brought in.
    CacheExhausted,
    /// An internal invariant of the on-disk structures does not hold.
    Corrupt,
}

} // verus!
