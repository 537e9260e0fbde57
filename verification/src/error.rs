//! Public validation errors.

use std::ops::Range;
use vstd::prelude::*;

verus! {

/// A byte-range or payload validation error.
#[derive(Debug, Eq, PartialEq)]
pub enum RangeError {
    /// A range had its end before its start.
    ReversedRange {
        /// Inclusive start offset.
        start: usize,
        /// Exclusive end offset.
        end: usize,
    },
    /// A payload length did not equal the range length.
    PayloadLengthMismatch {
        /// Range associated with the payload.
        range: Range<usize>,
        /// Required byte length.
        expected: usize,
        /// Actual byte length.
        actual: usize,
    },
}

impl Clone for RangeError {
    fn clone(&self) -> (copy: Self)
        ensures
            copy == *self,
    {
        match self {
            RangeError::ReversedRange { start, end } => RangeError::ReversedRange {
                start: *start,
                end: *end,
            },
            RangeError::PayloadLengthMismatch { range, expected, actual } => {
                RangeError::PayloadLengthMismatch {
                    range: range.start..range.end,
                    expected: *expected,
                    actual: *actual,
                }
            },
        }
    }
}

/// What is wrong with a requested range, if anything: only that it is reversed.
pub open spec fn range_fault(range: Range<usize>) -> Option<RangeError> {
    if range.start > range.end {
        Some(RangeError::ReversedRange { start: range.start, end: range.end })
    } else {
        None
    }
}

/// What is wrong with a payload of `len` bytes for `range`, if anything: a
/// reversed range is reported before a length that does not fit the range.
pub open spec fn payload_fault(range: Range<usize>, len: nat) -> Option<RangeError> {
    if range.start > range.end {
        range_fault(range)
    } else if len != range.end - range.start {
        Some(
            RangeError::PayloadLengthMismatch {
                range,
                expected: (range.end - range.start) as usize,
                actual: len as usize,
            },
        )
    } else {
        None
    }
}

/// Accepts `range` unless it is reversed.
pub(crate) fn check_range(range: &Range<usize>) -> (checked: Result<(), RangeError>)
    ensures
        checked matches Err(fault) ==> range_fault(*range) == Some(fault),
        checked is Ok ==> range_fault(*range) is None,
{
    if range.start > range.end {
        Err(RangeError::ReversedRange { start: range.start, end: range.end })
    } else {
        Ok(())
    }
}

/// Accepts a payload of `len` bytes for `range` if the range is not reversed
/// and has exactly that length.
pub(crate) fn check_payload(range: &Range<usize>, len: usize) -> (checked: Result<(), RangeError>)
    ensures
        checked matches Err(fault) ==> payload_fault(*range, len as nat) == Some(fault),
        checked is Ok ==> payload_fault(*range, len as nat) is None,
{
    check_range(range)?;
    let expected: usize = range.end - range.start;
    if len != expected {
        Err(
            RangeError::PayloadLengthMismatch {
                range: range.start..range.end,
                expected,
                actual: len,
            },
        )
    } else {
        Ok(())
    }
}

} // verus!
