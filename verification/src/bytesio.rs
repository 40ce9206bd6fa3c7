//! Trusted boundary to the `bytes` crate.
//!
//! Records reference their payload through `bytes::Bytes`, a reference-counted
//! byte container whose `slice` is zero-copy, and serialization appends to a
//! caller-provided `bytes::BytesMut`. Both types are opaque to the verifier;
//! the spec functions [`bytes_seq`] and [`bytes_mut_seq`] name their contents,
//! and each operation the library relies on is wrapped below with a contract
//! over those names.

use vstd::prelude::*;
use bytes::BufMut;
use bytes::Bytes;
use bytes::BytesMut;

verus! {

#[verifier::external_type_specification]
#[verifier::external_body]
pub struct ExBytes(Bytes);

#[verifier::external_type_specification]
#[verifier::external_body]
pub struct ExBytesMut(BytesMut);

/// The bytes a `Bytes` container holds, in order.
pub uninterp spec fn bytes_seq(b: Bytes) -> Seq<u8>;

/// The bytes a `BytesMut` buffer holds, in order.
pub uninterp spec fn bytes_mut_seq(b: BytesMut) -> Seq<u8>;

/// Relies on `Bytes::len`: the number of bytes in the container.
#[verifier::external_body]
pub fn bytes_len(b: &Bytes) -> (n: usize)
    ensures
        n == bytes_seq(*b).len(),
{
    b.len()
}

/// Relies on the `[u8]` indexing that `Bytes` reaches through
/// `Deref<Target = [u8]>`: the byte at position `i`.
#[verifier::external_body]
pub fn bytes_at(b: &Bytes, i: usize) -> (x: u8)
    requires
        i < bytes_seq(*b).len(),
    ensures
        x == bytes_seq(*b)[i as int],
{
    b[i]
}

/// Relies on `Bytes::slice`: a zero-copy handle on the given range,
/// sharing storage with `b`.
#[verifier::external_body]
pub fn bytes_slice(b: &Bytes, start: usize, end: usize) -> (r: Bytes)
    requires
        start <= end <= bytes_seq(*b).len(),
    ensures
        bytes_seq(r) == bytes_seq(*b).subrange(start as int, end as int),
{
    b.slice(start..end)
}

/// Relies on `From<Vec<u8>> for Bytes`: the container takes over exactly the
/// vector's bytes.
#[verifier::external_body]
pub fn bytes_from_vec(v: Vec<u8>) -> (r: Bytes)
    ensures
        bytes_seq(r) == v@,
{
    Bytes::from(v)
}

/// Relies on `BufMut::put_u8` for `BytesMut`: appends one byte, growing the
/// buffer as needed.
#[verifier::external_body]
pub fn bytes_mut_put_u8(b: &mut BytesMut, x: u8)
    ensures
        bytes_mut_seq(*final(b)) == bytes_mut_seq(*old(b)).push(x),
{
    b.put_u8(x);
}

} // verus!
