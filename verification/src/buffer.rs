//! The byte buffers of the `bytes` crate, as far as the protocol uses them:
//! a growable buffer that is filled at the back and consumed at the front, and
//! the immutable buffer that a finished message is frozen into.

use crate::codec::be64;
use bytes::{Buf, BufMut, Bytes, BytesMut};
use vstd::prelude::*;

verus! {

/// `bytes::BytesMut`, taken as it is: nothing of its inside is looked at.
#[verifier::external_type_specification]
#[verifier::external_body]
pub struct ExBytesMut(bytes::BytesMut);

/// `bytes::Bytes`, taken as it is: nothing of its inside is looked at.
#[verifier::external_type_specification]
#[verifier::external_body]
pub struct ExBytes(bytes::Bytes);

/// The bytes that a growable buffer holds, front first.
pub uninterp spec fn buffered(buf: BytesMut) -> Seq<u8>;

/// The bytes that a frozen buffer holds.
pub uninterp spec fn frozen(bytes: Bytes) -> Seq<u8>;

/// `BytesMut::new`: a buffer of length zero.
#[verifier::external_body]
pub(crate) fn buf_new() -> (buf: BytesMut)
    ensures
        buffered(buf) == Seq::<u8>::empty(),
{
    BytesMut::new()
}

/// `BufMut::put_u64` on a `BytesMut`: appends `n` in big-endian byte order.
/// The trait documents a panic where the remaining capacity, which for this
/// type is `isize::MAX` less the length, is under eight bytes.
#[verifier::external_body]
pub(crate) fn buf_put_u64(buf: &mut BytesMut, n: u64)
    requires
        buffered(*old(buf)).len() + 8 <= isize::MAX,
    ensures
        buffered(*final(buf)) == buffered(*old(buf)) + be64(n),
{
    buf.put_u64(n)
}

/// `BytesMut::extend_from_slice`: appends the given bytes, growing the buffer
/// as needed. As with `Vec`, it can fail only in the allocation, where the
/// buffer would have to grow beyond what memory can hold.
#[verifier::external_body]
pub(crate) fn buf_append(buf: &mut BytesMut, data: &[u8])
    ensures
        buffered(*final(buf)) == buffered(*old(buf)) + data@,
{
    buf.extend_from_slice(data)
}

/// `Deref` of a `BytesMut`: the buffered bytes as a slice.
#[verifier::external_body]
pub(crate) fn buf_bytes(buf: &BytesMut) -> (data: &[u8])
    ensures
        data@ == buffered(*buf),
{
    &buf[..]
}

/// `Buf::advance` on a `BytesMut`: drops the first `n` bytes. It panics
/// where `n` is more than the buffer holds.
#[verifier::external_body]
pub(crate) fn buf_advance(buf: &mut BytesMut, n: usize)
    requires
        n <= buffered(*old(buf)).len(),
    ensures
        buffered(*final(buf)) == buffered(*old(buf)).skip(n as int),
{
    buf.advance(n)
}

/// `BytesMut::freeze`: the same bytes, no longer mutable.
#[verifier::external_body]
pub(crate) fn buf_freeze(buf: BytesMut) -> (bytes: Bytes)
    ensures
        frozen(bytes) == buffered(buf),
{
    buf.freeze()
}

/// A payload as one message: its length prefix, then the payload, frozen.
pub fn frame_message(payload: &[u8]) -> (bytes: Bytes)
    ensures
        frozen(bytes) == crate::codec::prefixed(payload@),
{
    let mut buf = buf_new();
    buf_put_u64(&mut buf, payload.len() as u64);
    buf_append(&mut buf, payload);
    buf_freeze(buf)
}

} // verus!
