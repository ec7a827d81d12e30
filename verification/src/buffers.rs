//! Byte buffers of the `bytes` crate, by their contents.

use bytes::{Bytes, BytesMut};
use vstd::prelude::*;

verus! {

/// The immutable buffer `bytes::Bytes`.
#[verifier::external_type_specification]
#[verifier::external_body]
pub struct ExBytes(bytes::Bytes);

/// The growable buffer `bytes::BytesMut`.
#[verifier::external_type_specification]
#[verifier::external_body]
pub struct ExBytesMut(bytes::BytesMut);

/// The bytes that a `Bytes` holds.
pub uninterp spec fn bytes_seq(b: Bytes) -> Seq<u8>;

/// The bytes that a `BytesMut` holds.
pub uninterp spec fn buffer_seq(b: BytesMut) -> Seq<u8>;

/// `BytesMut::with_capacity`: an empty buffer.
#[verifier::external_body]
pub(crate) fn buffer_with_capacity(capacity: usize) -> (r: BytesMut)
    ensures
        buffer_seq(r) == Seq::<u8>::empty(),
{
    BytesMut::with_capacity(capacity)
}

/// `BytesMut::as_ref`: the bytes held, as a slice.
#[verifier::external_body]
pub(crate) fn buffer_slice(b: &BytesMut) -> (r: &[u8])
    ensures
        r@ == buffer_seq(*b),
{
    b.as_ref()
}

/// `BytesMut::len`: how many bytes are held.
#[verifier::external_body]
pub(crate) fn buffer_len(b: &BytesMut) -> (r: usize)
    ensures
        r == buffer_seq(*b).len(),
{
    b.len()
}

/// `BytesMut::extend_from_slice`: appends `data`.
#[verifier::external_body]
pub(crate) fn buffer_extend(b: &mut BytesMut, data: &[u8])
    ensures
        buffer_seq(*final(b)) == buffer_seq(*old(b)) + data@,
{
    b.extend_from_slice(data)
}

/// `BytesMut::split_to`: takes the first `at` bytes out of the buffer. It panics where the
/// buffer holds fewer.
#[verifier::external_body]
pub(crate) fn buffer_split_to(b: &mut BytesMut, at: usize) -> (r: BytesMut)
    requires
        at <= buffer_seq(*old(b)).len(),
    ensures
        buffer_seq(r) == buffer_seq(*old(b)).take(at as int),
        buffer_seq(*final(b)) == buffer_seq(*old(b)).skip(at as int),
{
    b.split_to(at)
}

/// `BytesMut::split`: takes all bytes out of the buffer.
#[verifier::external_body]
pub(crate) fn buffer_split(b: &mut BytesMut) -> (r: BytesMut)
    ensures
        buffer_seq(r) == buffer_seq(*old(b)),
        buffer_seq(*final(b)) == Seq::<u8>::empty(),
{
    b.split()
}

/// `BytesMut::freeze`: the same bytes, immutable.
#[verifier::external_body]
pub(crate) fn buffer_freeze(b: BytesMut) -> (r: Bytes)
    ensures
        bytes_seq(r) == buffer_seq(b),
{
    b.freeze()
}

/// `Bytes::as_ref`: the bytes held, as a slice.
#[verifier::external_body]
pub(crate) fn bytes_slice(b: &Bytes) -> (r: &[u8])
    ensures
        r@ == bytes_seq(*b),
{
    b.as_ref()
}

/// `Bytes::len`: how many bytes are held.
#[verifier::external_body]
pub(crate) fn bytes_len(b: &Bytes) -> (r: usize)
    ensures
        r == bytes_seq(*b).len(),
{
    b.len()
}

/// `Bytes::slice`: the bytes from `from` up to `to`. It panics where that is no range of the
/// bytes held.
#[verifier::external_body]
pub(crate) fn bytes_range(b: &Bytes, from: usize, to: usize) -> (r: Bytes)
    requires
        from <= to <= bytes_seq(*b).len(),
    ensures
        bytes_seq(r) == bytes_seq(*b).subrange(from as int, to as int),
{
    b.slice(from..to)
}

/// A buffer of zeros.
pub(crate) fn zeros(n: usize) -> (r: Vec<u8>)
    ensures
        r@.len() == n,
{
    let mut v: Vec<u8> = Vec::new();
    let mut i: usize = 0;
    while i < n
        invariant
            i <= n,
            v@.len() == i,
        decreases n - i,
    {
        v.push(0);
        i += 1;
    }
    v
}

} // verus!
