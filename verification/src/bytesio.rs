use vstd::prelude::*;

use bytes::Buf;
use bytes::Bytes;

verus! {

/// Declares `bytes::Bytes`, the reference-counted byte buffer the stream
/// holds its pending message payload in, so that it can appear in
/// signatures and fields; its contents are only reachable through the
/// wrappers below.
#[verifier::external_type_specification]
#[verifier::external_body]
pub struct ExBytes(Bytes);

/// The byte contents of a `Bytes` buffer.
pub uninterp spec fn bytes_view(b: Bytes) -> Seq<u8>;

/// Relies on `bytes::Bytes::new`: a freshly created buffer is empty.
#[verifier::external_body]
pub fn bytes_new() -> (r: Bytes)
    ensures
        bytes_view(r) == Seq::<u8>::empty(),
{
    Bytes::new()
}

/// Relies on `bytes::Bytes`'s `From<Vec<u8>>`: the buffer holds exactly the
/// vector's bytes.
#[verifier::external_body]
pub fn bytes_from_vec(v: Vec<u8>) -> (r: Bytes)
    ensures
        bytes_view(r) == v@,
{
    Bytes::from(v)
}

/// Relies on `bytes::Bytes::len`: the number of bytes held.
#[verifier::external_body]
pub fn bytes_len(b: &Bytes) -> (r: usize)
    ensures
        r == bytes_view(*b).len(),
{
    b.len()
}

/// Relies on `bytes::Bytes`'s `Deref` to `[u8]`: a slice of the whole
/// contents.
#[verifier::external_body]
pub fn bytes_as_slice(b: &Bytes) -> (r: &[u8])
    ensures
        r@ == bytes_view(*b),
{
    &b[..]
}

/// Relies on `bytes::Buf::advance` for `Bytes`: drops the first `n` bytes.
/// It panics when `n` exceeds the length, so that case is required away.
#[verifier::external_body]
pub fn bytes_advance(b: &mut Bytes, n: usize)
    requires
        n <= bytes_view(*old(b)).len(),
    ensures
        bytes_view(*final(b)) == bytes_view(*old(b)).skip(n as int),
{
    b.advance(n)
}

} // verus!
