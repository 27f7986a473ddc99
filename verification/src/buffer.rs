//! The byte containers of the `bytes` crate and a few operations of `std`, with
//! the contracts this crate relies on.
//!
//! [`Bytes`] and [`BytesMut`] are opaque to the verifier: what they hold is
//! named by [`bytes_seq`] and [`buf_seq`], and each method the crate calls has
//! one wrapper here that states its effect on those contents.

use bytes::{BufMut, Bytes, BytesMut};
use std::collections::VecDeque;
use vstd::prelude::*;

verus! {

/// `bytes::Bytes`, an immutable shared byte string.
#[verifier::external_type_specification]
#[verifier::external_body]
pub struct ExBytes(bytes::Bytes);

/// `bytes::BytesMut`, a growable byte buffer.
#[verifier::external_type_specification]
#[verifier::external_body]
pub struct ExBytesMut(bytes::BytesMut);

/// The bytes held by a [`Bytes`].
pub uninterp spec fn bytes_seq(b: Bytes) -> Seq<u8>;

/// The bytes written so far to a [`BytesMut`].
pub uninterp spec fn buf_seq(b: BytesMut) -> Seq<u8>;

/// `<Bytes as Deref>::deref`: the contents as a slice.
#[verifier::external_body]
pub(crate) fn as_slice(b: &Bytes) -> (r: &[u8])
    ensures
        r@ == bytes_seq(*b),
{
    &b[..]
}

/// `Bytes::copy_from_slice`: a new byte string with the contents of `s`.
#[verifier::external_body]
pub(crate) fn copy_from_slice(s: &[u8]) -> (r: Bytes)
    ensures
        bytes_seq(r) == s@,
{
    Bytes::copy_from_slice(s)
}

/// `<Bytes as From<Vec<u8>>>::from`: takes over the contents of `v`.
#[verifier::external_body]
pub(crate) fn from_vec(v: Vec<u8>) -> (r: Bytes)
    ensures
        bytes_seq(r) == v@,
{
    Bytes::from(v)
}

/// `<Bytes as Clone>::clone`: another handle on the same contents.
pub assume_specification[ <Bytes as Clone>::clone ](b: &Bytes) -> (r: Bytes)
    ensures
        bytes_seq(r) == bytes_seq(*b),
;

/// `Bytes::slice`: a handle on the bytes from `from` up to, not including, `to`.
/// The call panics on a range that is reversed or out of bounds.
#[verifier::external_body]
pub(crate) fn slice(b: &Bytes, from: usize, to: usize) -> (r: Bytes)
    requires
        from <= to <= bytes_seq(*b).len(),
    ensures
        bytes_seq(r) == bytes_seq(*b).subrange(from as int, to as int),
{
    b.slice(from..to)
}

/// `BytesMut::new`: an empty buffer.
#[verifier::external_body]
pub(crate) fn buf_new() -> (r: BytesMut)
    ensures
        buf_seq(r) == Seq::<u8>::empty(),
{
    BytesMut::new()
}

/// `<BytesMut as BufMut>::put_slice`: appends the bytes of `s`.
#[verifier::external_body]
pub(crate) fn put_slice(out: &mut BytesMut, s: &[u8])
    ensures
        buf_seq(*final(out)) == buf_seq(*old(out)) + s@,
{
    out.put_slice(s);
}

/// `BytesMut::freeze`: the written bytes as an immutable byte string.
#[verifier::external_body]
pub(crate) fn freeze(b: BytesMut) -> (r: Bytes)
    ensures
        bytes_seq(r) == buf_seq(b),
{
    b.freeze()
}

/// `<VecDeque<T> as IndexMut<usize>>::index_mut`: replaces the element at `i`.
/// The call panics on an index out of bounds.
#[verifier::external_body]
pub(crate) fn deque_set<T>(v: &mut VecDeque<T>, i: usize, value: T)
    requires
        i < old(v)@.len(),
    ensures
        final(v)@ == old(v)@.update(i as int, value),
{
    v[i] = value;
}

} // verus!
