//! The byte buffers of the `bytes` crate, as the rest of the library sees them.
//!
//! `Bytes` and `BytesMut` are declared opaque; what each one holds is named by
//! `bytes_contents` and `buf_contents`, and every method that the library calls
//! on them goes through one of the small trusted wrappers below.

use vstd::prelude::*;
use bytes::{Bytes, BytesMut};

verus! {

/// `bytes::Bytes`, opaque: an immutable, shared handle to bytes.
#[verifier::external_type_specification]
#[verifier::external_body]
pub struct ExBytes(bytes::Bytes);

/// `bytes::BytesMut`, opaque: a growable byte buffer.
#[verifier::external_type_specification]
#[verifier::external_body]
pub struct ExBytesMut(bytes::BytesMut);

/// The bytes that an immutable `Bytes` handle refers to.
pub uninterp spec fn bytes_contents(b: Bytes) -> Seq<u8>;

/// The bytes that a growable `BytesMut` buffer currently holds.
pub uninterp spec fn buf_contents(b: BytesMut) -> Seq<u8>;

/// `<BytesMut as Deref>::deref`: the held bytes as a slice.
#[verifier::external_body]
pub(crate) fn buf_as_slice(b: &BytesMut) -> (r: &[u8])
    ensures
        r@ == buf_contents(*b),
{
    &b[..]
}

/// `<BytesMut as Buf>::advance`: drops the first `n` bytes; it panics when
/// `n` exceeds the length, which `requires` leaves out.
#[verifier::external_body]
pub(crate) fn buf_advance(b: &mut BytesMut, n: usize)
    requires
        n <= buf_contents(*old(b)).len(),
    ensures
        buf_contents(*final(b)) == buf_contents(*old(b)).skip(n as int),
{
    bytes::Buf::advance(b, n)
}

/// `BytesMut::split_to`: hands out the first `at` bytes and keeps the rest; it
/// panics when `at` exceeds the length, which `requires` leaves out.
#[verifier::external_body]
pub(crate) fn buf_split_to(b: &mut BytesMut, at: usize) -> (r: BytesMut)
    requires
        at <= buf_contents(*old(b)).len(),
    ensures
        buf_contents(r) == buf_contents(*old(b)).take(at as int),
        buf_contents(*final(b)) == buf_contents(*old(b)).skip(at as int),
{
    b.split_to(at)
}

/// `BytesMut::freeze`: the same bytes as an immutable handle.
#[verifier::external_body]
pub(crate) fn buf_freeze(b: BytesMut) -> (r: Bytes)
    ensures
        bytes_contents(r) == buf_contents(b),
{
    b.freeze()
}

/// `BytesMut::extend_from_slice`: appends the slice. Growing the buffer past
/// `isize::MAX` bytes panics, which `requires` leaves out.
#[verifier::external_body]
pub(crate) fn buf_extend(b: &mut BytesMut, s: &[u8])
    requires
        buf_contents(*old(b)).len() + s@.len() <= isize::MAX,
    ensures
        buf_contents(*final(b)) == buf_contents(*old(b)) + s@,
{
    b.extend_from_slice(s)
}

/// `<Bytes as Deref>::deref`: the referred bytes as a slice.
#[verifier::external_body]
pub(crate) fn bytes_as_slice(b: &Bytes) -> (r: &[u8])
    ensures
        r@ == bytes_contents(*b),
{
    &b[..]
}

/// `<Bytes as Clone>::clone`: a second handle to the same bytes.
pub assume_specification[ <bytes::Bytes as Clone>::clone ](b: &Bytes) -> (r: Bytes)
    ensures
        bytes_contents(r) == bytes_contents(*b),
;

/// `Bytes::copy_from_slice`: a new handle holding a copy of the slice.
#[verifier::external_body]
pub(crate) fn bytes_copy_from_slice(s: &[u8]) -> (r: Bytes)
    ensures
        bytes_contents(r) == s@,
{
    Bytes::copy_from_slice(s)
}

/// `<Bytes as From<Vec<u8>>>::from`: takes over the vector's bytes.
#[verifier::external_body]
pub(crate) fn bytes_from_vec(v: Vec<u8>) -> (r: Bytes)
    ensures
        bytes_contents(r) == v@,
{
    Bytes::from(v)
}

} // verus!
