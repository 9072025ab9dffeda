//! The byte buffers of the `bytes` crate. What a buffer holds is named by a
//! sequence of bytes, and every operation that the library uses is stated over
//! that sequence.
use crate::codec::le;
use bytes::{BufMut, Bytes, BytesMut};
use vstd::prelude::*;

verus! {

/// A growing buffer.
#[verifier::external_type_specification]
#[verifier::external_body]
pub struct ExBytesMut(bytes::BytesMut);

/// A shared, unchanging run of bytes.
#[verifier::external_type_specification]
#[verifier::external_body]
pub struct ExBytes(bytes::Bytes);

/// The bytes in a growing buffer.
pub uninterp spec fn buffered(b: BytesMut) -> Seq<u8>;

/// The bytes in a shared run.
pub uninterp spec fn contents(b: Bytes) -> Seq<u8>;

/// `BytesMut::new`: a buffer without bytes.
#[verifier::external_body]
pub(crate) fn buffer_new() -> (b: BytesMut)
    ensures
        buffered(b) == Seq::<u8>::empty(),
{
    BytesMut::new()
}

/// `BytesMut::extend_from_slice`: appends bytes. A buffer cannot grow past the
/// largest allocation.
#[verifier::external_body]
pub(crate) fn buffer_extend(b: &mut BytesMut, bytes: &[u8])
    requires
        buffered(*old(b)).len() + bytes@.len() <= isize::MAX,
    ensures
        buffered(*final(b)) == buffered(*old(b)) + bytes@,
{
    b.extend_from_slice(bytes);
}

/// `BufMut::put_u8`: appends one byte. A buffer cannot grow past the largest
/// allocation.
#[verifier::external_body]
pub(crate) fn buffer_put_u8(b: &mut BytesMut, v: u8)
    requires
        buffered(*old(b)).len() + 1 <= isize::MAX,
    ensures
        buffered(*final(b)) == buffered(*old(b)).push(v),
{
    b.put_u8(v);
}

/// `BufMut::put_u16_le`: appends the two bytes of a number, lowest first. A
/// buffer cannot grow past the largest allocation.
#[verifier::external_body]
pub(crate) fn buffer_put_u16(b: &mut BytesMut, v: u16)
    requires
        buffered(*old(b)).len() + 2 <= isize::MAX,
    ensures
        buffered(*final(b)) == buffered(*old(b)) + le(v as nat, 2),
{
    b.put_u16_le(v);
}

/// `BufMut::put_u32_le`: appends the four bytes of a number, lowest first. A
/// buffer cannot grow past the largest allocation.
#[verifier::external_body]
pub(crate) fn buffer_put_u32(b: &mut BytesMut, v: u32)
    requires
        buffered(*old(b)).len() + 4 <= isize::MAX,
    ensures
        buffered(*final(b)) == buffered(*old(b)) + le(v as nat, 4),
{
    b.put_u32_le(v);
}

/// `BytesMut::as_ref`: the bytes in the buffer.
#[verifier::external_body]
pub(crate) fn buffer_bytes(b: &BytesMut) -> (r: &[u8])
    ensures
        r@ == buffered(*b),
{
    b.as_ref()
}

/// `BytesMut::split_to`: takes the first `at` bytes out of the buffer. It
/// panics if there are fewer.
#[verifier::external_body]
pub(crate) fn buffer_split_to(b: &mut BytesMut, at: usize) -> (r: BytesMut)
    requires
        at <= buffered(*old(b)).len(),
    ensures
        buffered(r) == buffered(*old(b)).take(at as int),
        buffered(*final(b)) == buffered(*old(b)).skip(at as int),
{
    b.split_to(at)
}

/// `BytesMut::freeze`: the bytes of the buffer as a shared run.
#[verifier::external_body]
pub(crate) fn buffer_freeze(b: BytesMut) -> (r: Bytes)
    ensures
        contents(r) == buffered(b),
{
    b.freeze()
}

/// `Bytes::clone`: the same bytes again.
#[verifier::external_body]
pub(crate) fn bytes_clone(b: &Bytes) -> (r: Bytes)
    ensures
        contents(r) == contents(*b),
{
    b.clone()
}

} // verus!
