use bytes::BufMut;
use vstd::prelude::*;

verus! {

#[verifier::external_type_specification]
#[verifier::external_body]
pub struct ExBytesMut(bytes::BytesMut);

/// The bytes that a `BytesMut` holds, front to back.
pub uninterp spec fn buf_contents(b: bytes::BytesMut) -> Seq<u8>;

/// The four bytes of `n`, least significant first.
pub open spec fn le32(n: u32) -> Seq<u8> {
    seq![
        (n & 0xff) as u8,
        ((n >> 8u32) & 0xff) as u8,
        ((n >> 16u32) & 0xff) as u8,
        ((n >> 24u32) & 0xff) as u8,
    ]
}

/// The eight bytes of `n`, least significant first.
pub open spec fn le64(n: u64) -> Seq<u8> {
    seq![
        (n & 0xff) as u8,
        ((n >> 8u64) & 0xff) as u8,
        ((n >> 16u64) & 0xff) as u8,
        ((n >> 24u64) & 0xff) as u8,
        ((n >> 32u64) & 0xff) as u8,
        ((n >> 40u64) & 0xff) as u8,
        ((n >> 48u64) & 0xff) as u8,
        ((n >> 56u64) & 0xff) as u8,
    ]
}

/// Relies on bytes::BytesMut::with_capacity: a new buffer holds no bytes.
/// It allocates through `Vec::with_capacity`, which panics past `isize::MAX`.
#[verifier::external_body]
pub(crate) fn buf_with_capacity(capacity: usize) -> (r: bytes::BytesMut)
    requires
        capacity <= isize::MAX,
    ensures
        buf_contents(r) == Seq::<u8>::empty(),
{
    bytes::BytesMut::with_capacity(capacity)
}

/// Relies on BufMut::put_slice for BytesMut: appends the slice, growing the buffer as needed.
#[verifier::external_body]
pub(crate) fn buf_put_slice(b: &mut bytes::BytesMut, src: &[u8])
    ensures
        buf_contents(*final(b)) == buf_contents(*old(b)) + src@,
{
    b.put_slice(src)
}

/// Relies on BufMut::put_u32_le for BytesMut: appends `n` as four little-endian bytes.
#[verifier::external_body]
pub(crate) fn buf_put_u32_le(b: &mut bytes::BytesMut, n: u32)
    ensures
        buf_contents(*final(b)) == buf_contents(*old(b)) + le32(n),
{
    b.put_u32_le(n)
}

/// Relies on BufMut::put_u64_le for BytesMut: appends `n` as eight little-endian bytes.
#[verifier::external_body]
pub(crate) fn buf_put_u64_le(b: &mut bytes::BytesMut, n: u64)
    ensures
        buf_contents(*final(b)) == buf_contents(*old(b)) + le64(n),
{
    b.put_u64_le(n)
}

} // verus!
