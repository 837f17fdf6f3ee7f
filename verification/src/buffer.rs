//! Reference counted byte buffers.

use bytes::Bytes;
use vstd::prelude::*;

verus! {

/// Trusted: a buffer of the `bytes` crate. What it holds is its `contents`.
#[verifier::external_type_specification]
#[verifier::external_body]
pub struct ExBytes(bytes::Bytes);

/// The bytes that a buffer holds, in order.
pub uninterp spec fn contents(buffer: Bytes) -> Seq<u8>;

/// Trusted: `Bytes::len` is the number of bytes that the buffer holds.
pub assume_specification[ bytes::Bytes::len ](buffer: &Bytes) -> (len: usize)
    ensures
        len == contents(*buffer).len(),
;

/// Trusted: `Bytes::as_ref` lends the bytes that the buffer holds.
#[verifier::external_body]
pub(crate) fn as_slice(buffer: &Bytes) -> (slice: &[u8])
    ensures
        slice@ == contents(*buffer),
{
    buffer.as_ref()
}

/// Trusted: `Bytes::clone` hands out another reference to the same bytes.
#[verifier::external_body]
pub(crate) fn share_bytes(buffer: &Bytes) -> (shared: Bytes)
    ensures
        contents(shared) == contents(*buffer),
{
    buffer.clone()
}

/// Returns whether the two buffers hold the same bytes.
pub fn same_bytes(a: &Bytes, b: &Bytes) -> (same: bool)
    ensures
        same == (contents(*a) == contents(*b)),
{
    let left = as_slice(a);
    let right = as_slice(b);
    if left.len() != right.len() {
        return false;
    }
    let mut i: usize = 0;
    while i < left.len()
        invariant
            left@.len() == right@.len(),
            i <= left@.len(),
            forall|j: int| 0 <= j < i ==> left@[j] == right@[j],
            left@ == contents(*a),
            right@ == contents(*b),
        decreases left@.len() - i,
    {
        if left[i] != right[i] {
            return false;
        }
        i = i + 1;
    }
    assert(left@ =~= right@);
    true
}

} // verus!
