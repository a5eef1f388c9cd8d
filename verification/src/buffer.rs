//! The byte buffers of the `bytes` crate, in which messages are put together.
//!
//! Verus does not read that crate. What this module states of it is taken on
//! trust from its source and documentation; everything built on top is proved
//! from these statements.

use bytes::{BufMut, Bytes, BytesMut};
use vstd::prelude::*;

verus! {

/// `bytes::BytesMut`: a growable buffer of bytes.
#[verifier::external_type_specification]
#[verifier::external_body]
pub struct ExBytesMut(bytes::BytesMut);

/// `bytes::Bytes`: a buffer of bytes that no longer changes.
#[verifier::external_type_specification]
#[verifier::external_body]
pub struct ExBytes(bytes::Bytes);

/// The bytes that a `BytesMut` holds, in order: what `&buffer[..]` shows.
pub uninterp spec fn filled(buffer: BytesMut) -> Seq<u8>;

/// The bytes that a `Bytes` holds, in order: what `&bytes[..]` shows.
pub uninterp spec fn frozen(bytes: Bytes) -> Seq<u8>;

/// `BytesMut::with_capacity`: a buffer that holds no bytes yet, with room for
/// `capacity` of them. The call panics where the capacity is more than
/// `isize::MAX`, so such a capacity is not asked for.
#[verifier::external_body]
pub(crate) fn buffer_with_capacity(capacity: usize) -> (buffer: BytesMut)
    requires
        capacity <= isize::MAX,
    ensures
        filled(buffer) == Seq::<u8>::empty(),
{
    BytesMut::with_capacity(capacity)
}

/// `BufMut::put_slice` on a `BytesMut`: the bytes of `src` are appended to
/// those that the buffer holds, growing it where needed. The call panics
/// where the buffer would hold more than `isize::MAX` bytes, so no more are
/// put.
#[verifier::external_body]
pub(crate) fn put_slice(buffer: &mut BytesMut, src: &[u8])
    requires
        filled(*old(buffer)).len() + src@.len() <= isize::MAX,
    ensures
        filled(*final(buffer)) == filled(*old(buffer)) + src@,
{
    buffer.put_slice(src)
}

/// `BytesMut::freeze`: the same bytes, in a buffer that no longer changes.
#[verifier::external_body]
pub(crate) fn freeze(buffer: BytesMut) -> (bytes: Bytes)
    ensures
        frozen(bytes) == filled(buffer),
{
    buffer.freeze()
}

/// The bytes of a `Bytes`, seen through its `Deref` to a slice and copied
/// into a vector.
#[verifier::external_body]
pub(crate) fn frozen_to_vec(bytes: &Bytes) -> (copy: Vec<u8>)
    ensures
        copy@ == frozen(*bytes),
{
    bytes[..].to_vec()
}

} // verus!
