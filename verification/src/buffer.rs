//! The byte buffer behind the frame reader, and what is trusted of it.

use crate::frame::MAX_FRAME_LEN;
use bytes::Buf;
use bytes::BytesMut;
use vstd::prelude::*;

verus! {

/// `bytes::BytesMut`, whose inside stays hidden.
#[verifier::external_type_specification]
#[verifier::external_body]
pub struct ExBytesMut(BytesMut);

/// The bytes a buffer holds, oldest first.
pub uninterp spec fn buffered(b: BytesMut) -> Seq<u8>;

/// `BytesMut::with_capacity` is trusted to return a buffer that holds no
/// bytes. It panics for a capacity that cannot be allocated, which one of
/// at most [`MAX_FRAME_LEN`] bytes is not.
#[verifier::external_body]
pub(crate) fn buffer_with_capacity(capacity: usize) -> (b: BytesMut)
    requires
        capacity <= MAX_FRAME_LEN,
    ensures
        buffered(b) =~= Seq::empty(),
{
    BytesMut::with_capacity(capacity)
}

/// A `BytesMut` read as a slice, through its `Deref`, is trusted to lend
/// the bytes it holds.
#[verifier::external_body]
pub(crate) fn buffer_bytes(b: &BytesMut) -> (bytes: &[u8])
    ensures
        bytes@ == buffered(*b),
{
    &b[..]
}

/// `BytesMut::extend_from_slice` is trusted to append `data` to the bytes
/// held. It reserves room first and panics only when the capacity to
/// reserve is beyond what `usize` can count; a buffer that holds no more
/// than [`MAX_FRAME_LEN`] bytes is trusted to stay far from that.
#[verifier::external_body]
pub(crate) fn buffer_extend(b: &mut BytesMut, data: &[u8])
    requires
        buffered(*old(b)).len() + data@.len() <= MAX_FRAME_LEN,
    ensures
        buffered(*final(b)) == buffered(*old(b)) + data@,
    no_unwind
{
    b.extend_from_slice(data)
}

/// `Buf::advance` on a `BytesMut` is trusted to drop the first `count`
/// bytes held and keep the rest. It panics only when asked to drop more
/// than is held.
#[verifier::external_body]
pub(crate) fn buffer_advance(b: &mut BytesMut, count: usize)
    requires
        count <= buffered(*old(b)).len(),
    ensures
        buffered(*final(b)) == buffered(*old(b)).skip(count as int),
    no_unwind
{
    b.advance(count)
}

} // verus!
