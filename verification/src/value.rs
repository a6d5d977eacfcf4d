//! Cached values are `bytes::Bytes` handles; contracts speak of the bytes they hold.

use bytes::Bytes;
use vstd::prelude::*;

verus! {

/// `bytes::Bytes`, carried through the cache as an opaque handle.
#[verifier::external_type_specification]
#[verifier::external_body]
pub struct ExBytes(bytes::Bytes);

/// The bytes that a `Bytes` handle gives access to, in order.
pub uninterp spec fn bytes_view(b: Bytes) -> Seq<u8>;

/// `Bytes::new` makes an empty handle, without allocating: it holds no bytes.
pub assume_specification[ Bytes::new ]() -> (empty: Bytes)
    ensures
        bytes_view(empty) == Seq::<u8>::empty(),
;

/// `Bytes::clone` hands out a second handle to the same region of memory:
/// the clone holds the same bytes as `b`.
pub assume_specification[ <Bytes as Clone>::clone ](b: &Bytes) -> (copy: Bytes)
    ensures
        bytes_view(copy) == bytes_view(*b),
;

/// The bytes held by an optional handle.
pub open spec fn view_of(found: Option<Bytes>) -> Option<Seq<u8>> {
    match found {
        Some(b) => Some(bytes_view(b)),
        None => None,
    }
}

} // verus!
