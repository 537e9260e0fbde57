//! Capacity policies and the reports that cache operations give.

use vstd::prelude::*;

verus! {

/// A `usize` that is not zero.
#[derive(Clone, Copy, Debug, PartialEq, Eq, Structural)]
pub struct NonZeroUsize {
    value: usize,
}

impl NonZeroUsize {
    #[verifier::type_invariant]
    spec fn non_zero(self) -> bool {
        self.value != 0
    }

    /// The number held.
    pub closed spec fn value(self) -> usize {
        self.value
    }

    /// Accepts every number but zero.
    pub fn new(value: usize) -> (number: Option<Self>)
        ensures
            number is None <==> value == 0,
            number matches Some(n) ==> n.value() == value,
    {
        if value == 0 {
            None
        } else {
            Some(NonZeroUsize { value })
        }
    }

    /// Returns the number held.
    pub fn get(self) -> (value: usize)
        ensures
            value == self.value(),
            value != 0,
    {
        proof {
            use_type_invariant(self);
        }
        self.value
    }
}

/// Two such numbers are equal exactly if they hold the same value.
pub proof fn law_value_determines_the_number(left: NonZeroUsize, right: NonZeroUsize)
    ensures
        left == right <==> left.value() == right.value(),
{
}

/// The maximum number of payload bytes resident in a cache.
#[derive(Clone, Copy, Debug, Eq, PartialEq, Structural)]
pub enum CacheCapacity {
    /// Evict least-recently-used ranges to enforce the given byte ceiling.
    Bounded(NonZeroUsize),
    /// Retain all admitted ranges until explicit invalidation.
    Unbounded,
}

impl CacheCapacity {
    /// The byte ceiling, if there is one.
    pub open spec fn limit(self) -> Option<nat> {
        match self {
            CacheCapacity::Bounded(bytes) => Some(bytes.value() as nat),
            CacheCapacity::Unbounded => None,
        }
    }
}

/// The result of an insertion attempt.
#[derive(Clone, Copy, Debug, Eq, PartialEq, Structural)]
pub enum InsertOutcome {
    /// The bytes were admitted to the cache.
    Inserted,
    /// Existing coverage already fully contained the inserted range.
    AlreadyCovered,
    /// The resulting merged range exceeded the bounded capacity.
    TooLarge,
}

/// The effect of invalidating cache state.
#[derive(Clone, Copy, Debug, Eq, PartialEq, Structural)]
pub struct Invalidation {
    /// Number of ranges removed.
    pub ranges: usize,
    /// Number of payload bytes removed.
    pub bytes: usize,
}

impl Default for Invalidation {
    /// The effect of removing nothing.
    fn default() -> (nothing: Self)
        ensures
            nothing == (Invalidation { ranges: 0, bytes: 0 }),
    {
        Invalidation { ranges: 0, bytes: 0 }
    }
}

/// A point-in-time cache state and statistics snapshot.
#[derive(Clone, Copy, Debug, Eq, PartialEq, Structural)]
pub struct CacheSnapshot {
    /// Configured capacity.
    pub capacity: CacheCapacity,
    /// Total resident payload bytes.
    pub resident_bytes: usize,
    /// Number of keys with resident ranges.
    pub keys: usize,
    /// Number of resident ranges.
    pub ranges: usize,
    /// Fully cached reads.
    pub hits: u64,
    /// Reads with some, but not all, requested bytes cached.
    pub partial_hits: u64,
    /// Reads with none of the requested bytes cached.
    pub misses: u64,
    /// Successfully admitted insertions.
    pub insertions: u64,
    /// Insertions rejected because the merged range was too large.
    pub admissions_rejected_too_large: u64,
    /// Ranges removed by capacity enforcement.
    pub evictions: u64,
}

} // verus!
