//! The growable byte buffer that responses are written into and frames are
//! cut from. The buffer is `bytes::BytesMut`; Verus sees it only through the
//! sequence of bytes it holds.

use bytes::BytesMut;
use vstd::prelude::*;

verus! {

/// `bytes::BytesMut`, as a type that Verus sees nothing inside of.
#[verifier::external_type_specification]
#[verifier::external_body]
pub struct ExBytesMut(BytesMut);

/// The bytes that a buffer holds, first to last.
pub uninterp spec fn contents(buf: BytesMut) -> Seq<u8>;

/// `BytesMut::new`: the new buffer has length 0.
#[verifier::external_body]
pub(crate) fn new_buffer() -> (buf: BytesMut)
    ensures
        contents(buf) == Seq::<u8>::empty(),
{
    BytesMut::new()
}

/// `BytesMut::extend_from_slice`: reserves room for `bytes`, then copies them
/// behind what the buffer held. Unlike the `put_*` methods, which panic on a
/// buffer without spare capacity, it asks nothing of the caller. As with a
/// `Vec`, running out of memory is not part of what is stated.
#[verifier::external_body]
pub(crate) fn append(buf: &mut BytesMut, bytes: &[u8])
    ensures
        contents(*final(buf)) == contents(*old(buf)) + bytes@,
{
    buf.extend_from_slice(bytes)
}

/// `BytesMut::len`: the number of bytes held.
#[verifier::external_body]
pub(crate) fn buffer_len(buf: &BytesMut) -> (n: usize)
    ensures
        n == contents(*buf).len(),
{
    buf.len()
}

/// `Deref for BytesMut`: the held bytes as a slice.
#[verifier::external_body]
pub(crate) fn buffer_bytes(buf: &BytesMut) -> (bytes: &[u8])
    ensures
        bytes@ == contents(*buf),
{
    &buf[..]
}

/// `BytesMut::split_to`: the first `at` bytes leave the buffer and are
/// returned; the buffer keeps the rest. The method panics when `at` is past
/// the end, so that is required of the caller.
#[verifier::external_body]
pub(crate) fn split_front(buf: &mut BytesMut, at: usize) -> (front: BytesMut)
    requires
        at <= contents(*old(buf)).len(),
    ensures
        contents(front) == contents(*old(buf)).subrange(0, at as int),
        contents(*final(buf)) == contents(*old(buf)).skip(at as int),
{
    buf.split_to(at)
}

} // verus!
