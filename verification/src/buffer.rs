//! Byte buffers shared between the codecs: `bytes::Bytes` and its contents.

use bytes::Bytes;
use vstd::prelude::*;

verus! {

#[verifier::external_type_specification]
#[verifier::external_body]
pub struct ExBytes(Bytes);

/// The bytes that a `Bytes` buffer holds.
pub uninterp spec fn bytes_contents(b: Bytes) -> Seq<u8>;

/// `Bytes::copy_from_slice`: a buffer holding a copy of `data`.
#[verifier::external_body]
pub(crate) fn bytes_from_slice(data: &[u8]) -> (r: Bytes)
    ensures
        bytes_contents(r) == data@,
{
    Bytes::copy_from_slice(data)
}

/// `Bytes::from(Vec<u8>)`: a buffer holding the vector's bytes.
#[verifier::external_body]
pub(crate) fn bytes_from_vec(data: Vec<u8>) -> (r: Bytes)
    ensures
        bytes_contents(r) == data@,
{
    Bytes::from(data)
}

/// `<Bytes as AsRef<[u8]>>::as_ref`: the buffer's bytes as a slice.
#[verifier::external_body]
pub(crate) fn bytes_as_slice(b: &Bytes) -> (r: &[u8])
    ensures
        r@ == bytes_contents(*b),
{
    b.as_ref()
}

/// `Bytes::slice`: a buffer holding bytes `start..end` of `b`; the crate
/// panics when `start > end` or `end > b.len()`.
#[verifier::external_body]
pub(crate) fn bytes_slice(b: &Bytes, start: usize, end: usize) -> (r: Bytes)
    requires
        start <= end <= bytes_contents(*b).len(),
    ensures
        bytes_contents(r) == bytes_contents(*b).subrange(start as int, end as int),
{
    b.slice(start..end)
}

/// `Bytes::len`: the number of bytes in the buffer.
#[verifier::external_body]
pub(crate) fn bytes_len(b: &Bytes) -> (r: usize)
    ensures
        r == bytes_contents(*b).len(),
{
    b.len()
}

/// `<Bytes as Clone>::clone`: a buffer with the same bytes.
#[verifier::external_body]
pub(crate) fn bytes_clone(b: &Bytes) -> (r: Bytes)
    ensures
        bytes_contents(r) == bytes_contents(*b),
{
    b.clone()
}

} // verus!
