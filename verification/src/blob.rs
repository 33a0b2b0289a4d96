//! The byte buffers that snapshot frames travel in.

use bytes::{Bytes, BytesMut};
use vstd::prelude::*;

verus! {

#[verifier::external_type_specification]
#[verifier::external_body]
pub struct ExBytes(bytes::Bytes);

#[verifier::external_type_specification]
#[verifier::external_body]
pub struct ExBytesMut(bytes::BytesMut);

/// The bytes that a shared buffer holds.
pub uninterp spec fn contents(b: Bytes) -> Seq<u8>;

/// The bytes that a buffer under construction holds so far.
pub uninterp spec fn filled(b: BytesMut) -> Seq<u8>;

/// How many bytes a buffer under construction was made to hold.
pub uninterp spec fn room(b: BytesMut) -> nat;

/// `Bytes::as_ref`: the buffer's bytes as a slice.
#[verifier::external_body]
pub(crate) fn as_slice(b: &Bytes) -> (r: &[u8])
    ensures
        r@ == contents(*b),
{
    b.as_ref()
}

/// `Bytes::from(Vec<u8>)`: a shared buffer of exactly those bytes.
#[verifier::external_body]
pub(crate) fn from_vec(v: Vec<u8>) -> (r: Bytes)
    ensures
        contents(r) == v@,
{
    Bytes::from(v)
}

/// `Bytes::slice`: a shared buffer of the bytes from `at` on, without a copy.
/// The call panics where `at` lies past the end, which `requires` leaves out.
#[verifier::external_body]
pub(crate) fn slice_from(b: &Bytes, at: usize) -> (r: Bytes)
    requires
        at <= contents(*b).len(),
    ensures
        contents(r) == contents(*b).subrange(at as int, contents(*b).len() as int),
{
    b.slice(at..)
}

/// `BytesMut::with_capacity`: an empty buffer with room for `n` bytes. More
/// than `isize::MAX` bytes cannot be allocated, and asking for them panics.
#[verifier::external_body]
pub(crate) fn with_room(n: usize) -> (r: BytesMut)
    requires
        n <= isize::MAX,
    ensures
        filled(r) == Seq::<u8>::empty(),
        room(r) == n,
{
    BytesMut::with_capacity(n)
}

/// `BytesMut::extend_from_slice`: the buffer with `s` behind what it held.
/// Within the room the buffer was made with nothing is allocated, so nothing
/// can fail; growing past it is left out.
#[verifier::external_body]
pub(crate) fn extend(b: &mut BytesMut, s: &[u8])
    requires
        filled(*old(b)).len() + s@.len() <= room(*old(b)),
    ensures
        filled(*final(b)) == filled(*old(b)) + s@,
        room(*final(b)) == room(*old(b)),
{
    b.extend_from_slice(s)
}

/// `BytesMut::freeze`: the same bytes as a shared buffer.
#[verifier::external_body]
pub(crate) fn freeze(b: BytesMut) -> (r: Bytes)
    ensures
        contents(r) == filled(b),
{
    b.freeze()
}

} // verus!
