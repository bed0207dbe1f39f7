//! The set of state fingerprints already expanded by the search.
//!
//! The container is fnv's `FnvHashSet<u64>`: the standard library's
//! hash set keyed by the Fowler-Noll-Vo hasher, which is fast on small
//! integer keys and deterministic (no per-process seed). The wrappers
//! below state plain set semantics over its contents; membership grows
//! monotonically for the lifetime of one search run.

use vstd::prelude::*;

verus! {

/// Holds the 64-bit fingerprints of column-index sets already dequeued.
#[verifier::external_body]
pub struct VisitedSet {
    codes: fnv::FnvHashSet<u64>,
}

/// The mathematical set of fingerprints the container holds.
pub uninterp spec fn visited_codes(s: VisitedSet) -> Set<u64>;

impl VisitedSet {
    /// Relies on `HashSet::default` (through fnv's `FnvHashSet` alias):
    /// a freshly built set is empty.
    #[verifier::external_body]
    pub fn new() -> (s: VisitedSet)
        ensures
            visited_codes(s) == Set::<u64>::empty(),
    {
        VisitedSet { codes: fnv::FnvHashSet::default() }
    }

    /// Relies on `HashSet::insert`: adds the code and reports whether
    /// it was absent before the call.
    #[verifier::external_body]
    pub fn insert(&mut self, code: u64) -> (fresh: bool)
        ensures
            visited_codes(*final(self)) == visited_codes(*old(self)).insert(code),
            fresh == !visited_codes(*old(self)).contains(code),
    {
        self.codes.insert(code)
    }

    /// Relies on `HashSet::contains`.
    #[verifier::external_body]
    pub fn contains(&self, code: u64) -> (present: bool)
        ensures
            present == visited_codes(*self).contains(code),
    {
        self.codes.contains(&code)
    }
}

} // verus!
