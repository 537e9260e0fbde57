//! Keys under which ranges are kept.

use vstd::prelude::*;

verus! {

/// A type whose values can be told apart as cache keys.
///
/// Two keys are the same key exactly when their views are equal.
pub trait CacheKey: View + Sized {
    /// Tells whether `self` and `other` are the same key.
    fn same_key(&self, other: &Self) -> (same: bool)
        ensures
            same == (self@ == other@),
    ;
}

impl CacheKey for bool {
    fn same_key(&self, other: &Self) -> (same: bool) {
        *self == *other
    }
}

impl CacheKey for char {
    fn same_key(&self, other: &Self) -> (same: bool) {
        *self == *other
    }
}

impl CacheKey for u8 {
    fn same_key(&self, other: &Self) -> (same: bool) {
        *self == *other
    }
}

impl CacheKey for u16 {
    fn same_key(&self, other: &Self) -> (same: bool) {
        *self == *other
    }
}

impl CacheKey for u32 {
    fn same_key(&self, other: &Self) -> (same: bool) {
        *self == *other
    }
}

impl CacheKey for u64 {
    fn same_key(&self, other: &Self) -> (same: bool) {
        *self == *other
    }
}

impl CacheKey for u128 {
    fn same_key(&self, other: &Self) -> (same: bool) {
        *self == *other
    }
}

impl CacheKey for usize {
    fn same_key(&self, other: &Self) -> (same: bool) {
        *self == *other
    }
}

impl CacheKey for i8 {
    fn same_key(&self, other: &Self) -> (same: bool) {
        *self == *other
    }
}

impl CacheKey for i16 {
    fn same_key(&self, other: &Self) -> (same: bool) {
        *self == *other
    }
}

impl CacheKey for i32 {
    fn same_key(&self, other: &Self) -> (same: bool) {
        *self == *other
    }
}

impl CacheKey for i64 {
    fn same_key(&self, other: &Self) -> (same: bool) {
        *self == *other
    }
}

impl CacheKey for i128 {
    fn same_key(&self, other: &Self) -> (same: bool) {
        *self == *other
    }
}

impl CacheKey for isize {
    fn same_key(&self, other: &Self) -> (same: bool) {
        *self == *other
    }
}

impl CacheKey for String {
    fn same_key(&self, other: &Self) -> (same: bool) {
        *self == *other
    }
}

impl<'a> CacheKey for &'a str {
    fn same_key(&self, other: &Self) -> (same: bool) {
        same_text(*self, *other)
    }
}

/// A pair of keys, such as an object name and a version.
impl<A: CacheKey, B: CacheKey> CacheKey for (A, B) {
    fn same_key(&self, other: &Self) -> (same: bool) {
        self.0.same_key(&other.0) && self.1.same_key(&other.1)
    }
}

/// `==` on `str` compares the two texts character by character.
#[verifier::external_body]
fn same_text(left: &str, right: &str) -> (same: bool)
    ensures
        same == (left@ == right@),
{
    left == right
}

} // verus!
