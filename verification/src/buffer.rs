//! The byte buffers of the `bytes` crate, as far as the library uses them.
//!
//! `Bytes` and `BytesMut` are opaque to the verifier. What each holds is named
//! by an uninterpreted function, and every call into the crate goes through a
//! small function here whose contract is assumed, not proved.

use bytes::{Buf, BufMut, Bytes, BytesMut};
use vstd::prelude::*;

use crate::wire::{be16, be32, from_be16};

verus! {

#[verifier::external_type_specification]
#[verifier::external_body]
pub struct ExBytes(Bytes);

#[verifier::external_type_specification]
#[verifier::external_body]
pub struct ExBytesMut(BytesMut);

/// The bytes that a `Bytes` handle gives access to, first to last.
pub uninterp spec fn bytes_contents(b: Bytes) -> Seq<u8>;

/// The bytes written so far into a `BytesMut`, first to last.
pub uninterp spec fn bytes_mut_contents(b: BytesMut) -> Seq<u8>;

/// `Bytes::from(Vec<u8>)`: the handle takes over the vector and holds
/// exactly its elements.
#[verifier::external_body]
pub(crate) fn bytes_from_vec(v: Vec<u8>) -> (b: Bytes)
    ensures
        bytes_contents(b) == v@,
{
    Bytes::from(v)
}

/// `Bytes::len`: the number of bytes held.
#[verifier::external_body]
pub(crate) fn bytes_len(b: &Bytes) -> (n: usize)
    ensures
        n == bytes_contents(*b).len(),
{
    b.len()
}

/// `Bytes::split_to`: returns the first `at` bytes and leaves the rest in
/// place. The crate panics when `at` exceeds the length, so callers must
/// stay within it.
#[verifier::external_body]
pub(crate) fn bytes_split_to(b: &mut Bytes, at: usize) -> (head: Bytes)
    requires
        at <= bytes_contents(*old(b)).len(),
    ensures
        bytes_contents(head) == bytes_contents(*old(b)).subrange(0, at as int),
        bytes_contents(*final(b)) == bytes_contents(*old(b)).subrange(
            at as int,
            bytes_contents(*old(b)).len() as int,
        ),
{
    b.split_to(at)
}

/// `Buf::get_u16` on `Bytes`: reads the first two bytes as a big-endian
/// number and advances past them. The crate panics on fewer than two
/// remaining bytes.
#[verifier::external_body]
pub(crate) fn bytes_get_u16(b: &mut Bytes) -> (x: u16)
    requires
        bytes_contents(*old(b)).len() >= 2,
    ensures
        x == from_be16(bytes_contents(*old(b))[0], bytes_contents(*old(b))[1]),
        bytes_contents(*final(b)) == bytes_contents(*old(b)).subrange(
            2,
            bytes_contents(*old(b)).len() as int,
        ),
{
    b.get_u16()
}

/// `Bytes` dereferenced and copied with `to_vec`: a vector of the bytes held.
#[verifier::external_body]
pub(crate) fn bytes_to_vec(b: &Bytes) -> (v: Vec<u8>)
    ensures
        v@ == bytes_contents(*b),
{
    b.to_vec()
}

/// `BytesMut::with_capacity`: an empty buffer, whatever the capacity. The
/// vector behind it panics on a capacity beyond `isize::MAX`, so callers
/// must stay within that.
#[verifier::external_body]
pub(crate) fn bytes_mut_with_capacity(capacity: usize) -> (b: BytesMut)
    requires
        capacity <= isize::MAX,
    ensures
        bytes_mut_contents(b) == Seq::<u8>::empty(),
{
    BytesMut::with_capacity(capacity)
}

/// `BufMut::put_u8` on `BytesMut`: appends one byte, growing the buffer as
/// needed.
#[verifier::external_body]
pub(crate) fn bytes_mut_put_u8(b: &mut BytesMut, x: u8)
    ensures
        bytes_mut_contents(*final(b)) == bytes_mut_contents(*old(b)).push(x),
{
    b.put_u8(x)
}

/// `BufMut::put_u16` on `BytesMut`: appends the two bytes of `x`, most
/// significant first, growing the buffer as needed.
#[verifier::external_body]
pub(crate) fn bytes_mut_put_u16(b: &mut BytesMut, x: u16)
    ensures
        bytes_mut_contents(*final(b)) == bytes_mut_contents(*old(b)) + be16(x),
{
    b.put_u16(x)
}

/// `BytesMut::freeze`: the same bytes behind an immutable handle.
#[verifier::external_body]
pub(crate) fn bytes_mut_freeze(b: BytesMut) -> (frozen: Bytes)
    ensures
        bytes_contents(frozen) == bytes_mut_contents(b),
{
    b.freeze()
}

/// `BufMut::put_u16` on `Vec<u8>`: appends the two bytes of `x`, most
/// significant first.
#[verifier::external_body]
pub(crate) fn vec_put_u16(v: &mut Vec<u8>, x: u16)
    ensures
        final(v)@ == old(v)@ + be16(x),
{
    v.put_u16(x)
}

/// `BufMut::put_u32` on `Vec<u8>`: appends the four bytes of `x`, most
/// significant first.
#[verifier::external_body]
pub(crate) fn vec_put_u32(v: &mut Vec<u8>, x: u32)
    ensures
        final(v)@ == old(v)@ + be32(x),
{
    v.put_u32(x)
}

} // verus!
