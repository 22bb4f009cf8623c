//! The byte buffers of the `bytes` crate, as the codec uses them.
//!
//! `BytesMut` is the growable buffer a stream reads into and a sink writes
//! from; `Bytes` is a frozen, shareable slice of one. Each is described by
//! the bytes it holds.
use vstd::prelude::*;

use bytes::{BigEndian, ByteOrder, Bytes, BytesMut};

verus! {

/// `bytes::Bytes`, known to Verus as an opaque type.
#[verifier::external_type_specification]
#[verifier::external_body]
pub struct ExBytes(bytes::Bytes);

/// `bytes::BytesMut`, known to Verus as an opaque type.
#[verifier::external_type_specification]
#[verifier::external_body]
pub struct ExBytesMut(bytes::BytesMut);

/// The bytes a frozen buffer holds.
pub uninterp spec fn bytes_seq(b: Bytes) -> Seq<u8>;

/// The bytes a growable buffer holds (its length, not its capacity).
pub uninterp spec fn bytes_mut_seq(b: BytesMut) -> Seq<u8>;

/// `Bytes::from(Vec<u8>)`: the vector's bytes, frozen.
#[verifier::external_body]
pub fn bytes_from_vec(v: Vec<u8>) -> (b: Bytes)
    ensures
        bytes_seq(b) == v@,
{
    Bytes::from(v)
}

/// `BytesMut::len`: how many bytes the buffer holds.
#[verifier::external_body]
pub fn bytes_mut_len(b: &BytesMut) -> (n: usize)
    ensures
        n == bytes_mut_seq(*b).len(),
{
    b.len()
}

/// `BytesMut::split_to`: removes the first `at` bytes and returns them.
/// Panics when `at` exceeds the length.
#[verifier::external_body]
pub fn bytes_mut_split_to(b: &mut BytesMut, at: usize) -> (head: BytesMut)
    requires
        at <= bytes_mut_seq(*old(b)).len(),
    ensures
        bytes_mut_seq(head) == bytes_mut_seq(*old(b)).take(at as int),
        bytes_mut_seq(*final(b)) == bytes_mut_seq(*old(b)).skip(at as int),
{
    b.split_to(at)
}

/// `BytesMut::freeze`: the same bytes, as an immutable `Bytes`.
#[verifier::external_body]
pub fn bytes_mut_freeze(b: BytesMut) -> (f: Bytes)
    ensures
        bytes_seq(f) == bytes_mut_seq(b),
{
    b.freeze()
}

/// `BytesMut::reserve`: makes room for `additional` more bytes; the held
/// bytes do not change. Growing past `isize::MAX` bytes panics.
#[verifier::external_body]
pub fn bytes_mut_reserve(b: &mut BytesMut, additional: usize)
    requires
        bytes_mut_seq(*old(b)).len() + additional <= isize::MAX,
    ensures
        bytes_mut_seq(*final(b)) == bytes_mut_seq(*old(b)),
{
    b.reserve(additional)
}

/// `BytesMut::extend_from_slice`: appends the slice (growing the buffer as
/// needed; growing past `isize::MAX` bytes panics).
#[verifier::external_body]
pub fn bytes_mut_extend(b: &mut BytesMut, data: &[u8])
    requires
        bytes_mut_seq(*old(b)).len() + data@.len() <= isize::MAX,
    ensures
        bytes_mut_seq(*final(b)) == bytes_mut_seq(*old(b)) + data@,
{
    b.extend_from_slice(data)
}

/// `BigEndian::write_u16` into a fresh two-byte buffer: `n`, high byte
/// first.
#[verifier::external_body]
pub fn u16_be_bytes(n: u16) -> (r: [u8; 2])
    ensures
        r@ == seq![(n / 256) as u8, (n % 256) as u8],
{
    let mut buf = [0u8; 2];
    BigEndian::write_u16(&mut buf, n);
    buf
}

/// `BigEndian::read_u16` on the buffer's bytes: its first two bytes, high
/// byte first. Panics when the buffer holds fewer than two bytes.
#[verifier::external_body]
pub fn read_u16_be(b: &BytesMut) -> (n: u16)
    requires
        bytes_mut_seq(*b).len() >= 2,
    ensures
        n == bytes_mut_seq(*b)[0] as nat * 256 + bytes_mut_seq(*b)[1] as nat,
{
    BigEndian::read_u16(b)
}

/// `Bytes::len`.
#[verifier::external_body]
pub fn bytes_len(b: &Bytes) -> (n: usize)
    ensures
        n == bytes_seq(*b).len(),
{
    b.len()
}

/// The bytes of a `Bytes` as a slice (`Deref`).
#[verifier::external_body]
pub fn bytes_as_slice(b: &Bytes) -> (s: &[u8])
    ensures
        s@ == bytes_seq(*b),
{
    b
}

} // verus!
