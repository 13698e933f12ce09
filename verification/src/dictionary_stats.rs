//! Counters of the dictionary's lookups.

use vstd::prelude::*;

verus! {

/// The counters.
#[derive(Debug, Clone, Copy, PartialEq, Eq, Structural)]
pub struct Snapshot {
    /// Lookups.
    pub calls: u64,
    /// Answered by a part of the dictionary.
    pub hits: u64,
    /// Answered by an id found before.
    pub cache_hits: u64,
    /// Answered by the pending texts.
    pub pending_hits: u64,
    /// New ids.
    pub mints: u64,
    /// Walks that the filter saved.
    pub filtered: u64,
    /// Nanoseconds of all lookups.
    pub total_ns: u64,
    /// Of these, decoding parents.
    pub decode_ns: u64,
    /// Of these, opening texts.
    pub open_ns: u64,
    /// Of these, walking the parts.
    pub fst_ns: u64,
    /// Of these, under the shared lock.
    pub lock_ns: u64,
}

/// All counters at zero.
pub open spec fn zeroes() -> Snapshot {
    Snapshot {
        calls: 0,
        hits: 0,
        cache_hits: 0,
        pending_hits: 0,
        mints: 0,
        filtered: 0,
        total_ns: 0,
        decode_ns: 0,
        open_ns: 0,
        fst_ns: 0,
        lock_ns: 0,
    }
}

impl Default for Snapshot {
    fn default() -> (r: Self)
        ensures
            r == zeroes(),
    {
        Snapshot {
            calls: 0,
            hits: 0,
            cache_hits: 0,
            pending_hits: 0,
            mints: 0,
            filtered: 0,
            total_ns: 0,
            decode_ns: 0,
            open_ns: 0,
            fst_ns: 0,
            lock_ns: 0,
        }
    }
}

/// Reads the counters and resets them.
pub fn take(counters: &mut Snapshot) -> (r: Snapshot)
    ensures
        r == *old(counters),
        *final(counters) == zeroes(),
{
    let r = *counters;
    *counters = Snapshot::default();
    r
}

} // verus!
