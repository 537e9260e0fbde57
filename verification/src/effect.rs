//! What each operation returns and how it changes the content of a cache.
//!
//! Each predicate relates the content before an operation, the content after
//! it, the arguments and the answer.  Together the arguments and the content
//! before determine the rest.

use crate::capacity::{CacheCapacity, CacheSnapshot, InsertOutcome, Invalidation};
use crate::error::{payload_fault, range_fault, RangeError};
use crate::payload::optional_view;
use crate::view::{are_gaps, CacheView};
use bytes::Bytes;
use std::ops::Range;
use vstd::prelude::*;

verus! {

/// An insertion of `payload` as the bytes of `range` under `key`.
pub open spec fn inserts<Q>(
    before: CacheView<Q>,
    after: CacheView<Q>,
    limit: Option<nat>,
    key: Q,
    range: Range<usize>,
    payload: Seq<u8>,
    answer: Result<InsertOutcome, RangeError>,
) -> bool {
    match answer {
        Err(fault) => {
            &&& payload_fault(range, payload.len()) == Some(fault)
            &&& after == before
        },
        Ok(outcome) => {
            &&& payload_fault(range, payload.len()) is None
            &&& outcome == before.insertion(limit, key, range.start as int, payload)
            &&& after == before.after_insert(limit, key, range.start as int, payload)
        },
    }
}

/// A read of `range` under `key`.
pub open spec fn reads<Q>(
    before: CacheView<Q>,
    after: CacheView<Q>,
    key: Q,
    range: Range<usize>,
    answer: Result<Option<Bytes>, RangeError>,
) -> bool {
    match answer {
        Err(fault) => {
            &&& range_fault(range) == Some(fault)
            &&& after == before
        },
        Ok(hit) => {
            &&& range_fault(range) is None
            &&& optional_view(hit) == before.read(key, range.start as int, range.end as int)
            &&& after == before.after_read(key, range.start as int, range.end as int)
        },
    }
}

/// A question for the gaps of `range` under `key`, which changes nothing.
pub open spec fn lists_gaps<Q>(
    content: CacheView<Q>,
    key: Q,
    range: Range<usize>,
    answer: Result<Vec<Range<usize>>, RangeError>,
) -> bool {
    match answer {
        Err(fault) => range_fault(range) == Some(fault),
        Ok(gaps) => {
            &&& range_fault(range) is None
            &&& are_gaps(gaps@, content.blocks, key, range.start as int, range.end as int)
        },
    }
}

/// An invalidation of `key`.
pub open spec fn invalidates<Q>(
    before: CacheView<Q>,
    after: CacheView<Q>,
    key: Q,
    answer: Invalidation,
) -> bool {
    &&& answer == before.invalidation(key)
    &&& after == before.after_invalidate(key)
}

/// Clearing the cache.
pub open spec fn clears<Q>(
    before: CacheView<Q>,
    after: CacheView<Q>,
    answer: Invalidation,
) -> bool {
    &&& answer == before.clearance()
    &&& after == before.after_clear()
}

/// A snapshot, which changes nothing.
pub open spec fn reports<Q>(
    content: CacheView<Q>,
    capacity: CacheCapacity,
    answer: CacheSnapshot,
) -> bool {
    answer == content.snapshot(capacity)
}

} // verus!
