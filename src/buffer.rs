//! The growable byte buffer of a connection, held in a `bytes::BytesMut`.
use vstd::prelude::*;
use bytes::Buf;
use bytes::BytesMut;

verus! {

#[verifier::external_type_specification]
#[verifier::external_body]
pub struct ExBytesMut(BytesMut);

/// The bytes that a buffer holds, front first.
pub uninterp spec fn buffered(b: BytesMut) -> Seq<u8>;

/// Relies on BytesMut::with_capacity: a new buffer holds no bytes.
#[verifier::external_body]
pub(crate) fn buffer_with_capacity(capacity: usize) -> (r: BytesMut)
    ensures
        buffered(r) == Seq::<u8>::empty(),
{
    BytesMut::with_capacity(capacity)
}

/// Relies on BytesMut::extend_from_slice: the bytes are appended at the back.
#[verifier::external_body]
pub(crate) fn buffer_extend(b: &mut BytesMut, data: &[u8])
    ensures
        buffered(*final(b)) == buffered(*old(b)) + data@,
{
    b.extend_from_slice(data)
}

/// Relies on `Buf::advance` for BytesMut: the first `cnt` bytes are dropped.
/// It panics when `cnt` exceeds the length, which `requires` leaves out.
#[verifier::external_body]
pub(crate) fn buffer_advance(b: &mut BytesMut, cnt: usize)
    requires
        cnt <= buffered(*old(b)).len(),
    ensures
        buffered(*final(b)) == buffered(*old(b)).subrange(cnt as int, buffered(*old(b)).len() as int),
{
    b.advance(cnt)
}

/// Relies on `Deref<Target = [u8]>` for BytesMut: the slice of the held bytes.
#[verifier::external_body]
pub(crate) fn buffer_bytes(b: &BytesMut) -> (r: &[u8])
    ensures
        r@ == buffered(*b),
{
    &b[..]
}

} // verus!
