//! The byte buffers that the transport hands to the codec, with what the
//! framing logic relies on of them.

use vstd::prelude::*;

verus! {

#[verifier::external_type_specification]
#[verifier::external_body]
pub struct ExBytesMut(bytes::BytesMut);

/// The bytes that a buffer holds, front first.
pub uninterp spec fn buffer_bytes(b: bytes::BytesMut) -> Seq<u8>;

/// Relies on `BytesMut::len`: the number of bytes the buffer holds.
#[verifier::external_body]
pub(crate) fn buffer_len(b: &bytes::BytesMut) -> (r: usize)
    ensures
        r == buffer_bytes(*b).len(),
{
    b.len()
}

/// Relies on `BytesMut::split_to`: the buffer keeps the bytes from `at` on, and
/// the bytes before `at` come back in a buffer of their own.
#[verifier::external_body]
pub(crate) fn buffer_split_to(b: &mut bytes::BytesMut, at: usize) -> (r: bytes::BytesMut)
    requires
        at <= buffer_bytes(*old(b)).len(),
    ensures
        buffer_bytes(r) == buffer_bytes(*old(b)).take(at as int),
        buffer_bytes(*final(b)) == buffer_bytes(*old(b)).skip(at as int),
{
    b.split_to(at)
}

/// Relies on `BytesMut::extend_from_slice`: the slice's bytes are appended at
/// the back.
#[verifier::external_body]
pub(crate) fn buffer_extend(b: &mut bytes::BytesMut, extend: &[u8])
    requires
        buffer_bytes(*old(b)).len() + extend@.len() <= isize::MAX,
    ensures
        buffer_bytes(*final(b)) == buffer_bytes(*old(b)) + extend@,
{
    b.extend_from_slice(extend)
}

} // verus!
