//! Trusted view of the `bytes` crate's buffers: `BytesMut` for building a
//! packet and `Bytes` for a received one, each modelled as the byte sequence
//! it holds.
use bytes::{BufMut, Bytes, BytesMut};
use vstd::prelude::*;

verus! {

#[verifier::external_type_specification]
#[verifier::external_body]
pub struct ExBytesMut(BytesMut);

#[verifier::external_type_specification]
#[verifier::external_body]
pub struct ExBytes(Bytes);

/// The bytes a `BytesMut` holds, in order.
pub uninterp spec fn buf_bytes(b: BytesMut) -> Seq<u8>;

/// The bytes a `Bytes` holds, in order.
pub uninterp spec fn bytes_view(b: Bytes) -> Seq<u8>;

/// Relies on `BufMut::put_u8`: writes one byte at the end.
#[verifier::external_body]
pub fn put_u8(b: &mut BytesMut, v: u8)
    ensures
        buf_bytes(*final(b)) == buf_bytes(*old(b)).push(v),
{
    b.put_u8(v);
}

/// Relies on `BufMut::put_u16`: writes two bytes at the end, big-endian.
#[verifier::external_body]
pub fn put_u16(b: &mut BytesMut, v: u16)
    ensures
        buf_bytes(*final(b)) == buf_bytes(*old(b)).push((v / 256) as u8).push((v % 256) as u8),
{
    b.put_u16(v);
}

/// Relies on `BufMut::put_slice`: appends the slice's bytes in order.
#[verifier::external_body]
pub fn put_slice(b: &mut BytesMut, v: &[u8])
    ensures
        buf_bytes(*final(b)) == buf_bytes(*old(b)) + v@,
{
    b.put_slice(v);
}

/// Relies on `Bytes` dereferencing to its byte slice (`AsRef<[u8]>`); the
/// copy holds the same bytes in the same order.
#[verifier::external_body]
pub fn bytes_to_vec(b: &Bytes) -> (r: Vec<u8>)
    ensures
        r@ == bytes_view(*b),
{
    b.as_ref().to_vec()
}

} // verus!
