//! What the library believes of `bytes::Bytes`.
//!
//! A `Bytes` value is opaque here: [`payload_view`] names the bytes it holds,
//! and the items below say what the methods of `Bytes` do to them.

use bytes::Bytes;
use vstd::prelude::*;

verus! {

/// The type `bytes::Bytes`, with nothing said of its fields.
#[verifier::external_type_specification]
#[verifier::external_body]
pub struct ExBytes(bytes::Bytes);

/// The bytes that a `Bytes` value holds, in order.
pub uninterp spec fn payload_view(data: Bytes) -> Seq<u8>;

/// The bytes that an optional `Bytes` value holds.
pub open spec fn optional_view(data: Option<Bytes>) -> Option<Seq<u8>> {
    match data {
        Some(data) => Some(payload_view(data)),
        None => None,
    }
}

/// `Bytes::len` returns the number of bytes held.
pub assume_specification[ bytes::Bytes::len ](data: &Bytes) -> (len: usize)
    ensures
        len == payload_view(*data).len(),
;

/// `Bytes::new` returns a value that holds no bytes.
pub assume_specification[ bytes::Bytes::new ]() -> (data: Bytes)
    ensures
        payload_view(data) == Seq::<u8>::empty(),
;

/// `Bytes::clone` returns a second handle to the same bytes.
pub assume_specification[ <bytes::Bytes as Clone>::clone ](data: &Bytes) -> (copy: Bytes)
    ensures
        payload_view(copy) == payload_view(*data),
;

/// `Bytes::slice` over `start..end` returns the bytes from `start` up to and
/// without `end`.  It panics when the range is reversed or reaches past the
/// end, so the range has to lie within the value.  That the slice shares the
/// memory of `data` is not expressible here.
#[verifier::external_body]
pub(crate) fn slice_payload(data: &Bytes, start: usize, end: usize) -> (part: Bytes)
    requires
        start <= end <= payload_view(*data).len(),
    ensures
        payload_view(part) == payload_view(*data).subrange(start as int, end as int),
{
    data.slice(start..end)
}

/// `Bytes::from` on a `Vec<u8>` takes over the vector's bytes.
#[verifier::external_body]
pub(crate) fn payload_from_vec(bytes: Vec<u8>) -> (data: Bytes)
    ensures
        payload_view(data) == bytes@,
{
    Bytes::from(bytes)
}

/// `Bytes::as_ref` borrows the held bytes as a slice.
#[verifier::external_body]
pub(crate) fn payload_slice(data: &Bytes) -> (bytes: &[u8])
    ensures
        bytes@ == payload_view(*data),
{
    data.as_ref()
}

} // verus!
