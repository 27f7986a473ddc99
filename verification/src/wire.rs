//! Big-endian integers on the wire.

use crate::buffer;
use bytes::BytesMut;
use vstd::prelude::*;

verus! {

/// The two bytes of `v`, most significant first.
pub open spec fn be16(v: u16) -> Seq<u8> {
    seq![(v / 256) as u8, (v % 256) as u8]
}

/// The four bytes of `v`, most significant first.
pub open spec fn be32(v: u32) -> Seq<u8> {
    seq![(v / 0x100_0000) as u8, (v / 0x1_0000 % 256) as u8, (v / 256 % 256) as u8, (v % 256) as u8]
}

/// The big-endian 16-bit integer at position `i` of `s`.
pub open spec fn read16(s: Seq<u8>, i: int) -> u16 {
    (s[i] * 256 + s[i + 1]) as u16
}

/// The big-endian 32-bit integer at position `i` of `s`.
pub open spec fn read32(s: Seq<u8>, i: int) -> u32 {
    (s[i] * 0x100_0000 + s[i + 1] * 0x1_0000 + s[i + 2] * 256 + s[i + 3]) as u32
}

/// Reading the bytes of a 16-bit integer gives the integer back.
pub proof fn lemma_read16_be16(s: Seq<u8>, i: int, v: u16)
    requires
        0 <= i,
        i + 2 <= s.len(),
        s.subrange(i, i + 2) == be16(v),
    ensures
        read16(s, i) == v,
{
    let t = s.subrange(i, i + 2);
    assert(t[0] == s[i] && t[1] == s[i + 1]);
}

/// Reading the bytes of a 32-bit integer gives the integer back.
pub proof fn lemma_read32_be32(s: Seq<u8>, i: int, v: u32)
    requires
        0 <= i,
        i + 4 <= s.len(),
        s.subrange(i, i + 4) == be32(v),
    ensures
        read32(s, i) == v,
{
    let t = s.subrange(i, i + 4);
    assert(t[0] == s[i] && t[1] == s[i + 1] && t[2] == s[i + 2] && t[3] == s[i + 3]);
    assert(v / 256 / 256 == v / 0x1_0000);
    assert(v / 0x1_0000 / 256 == v / 0x100_0000);
    assert(v == v / 256 * 256 + v % 256);
    assert(v / 256 == v / 0x1_0000 * 256 + v / 256 % 256);
    assert(v / 0x1_0000 == v / 0x100_0000 * 256 + v / 0x1_0000 % 256);
}

/// Writing back a 32-bit integer that was read reproduces its bytes.
pub proof fn lemma_be32_read32(s: Seq<u8>, i: int)
    requires
        0 <= i,
        i + 4 <= s.len(),
    ensures
        be32(read32(s, i)) == s.subrange(i, i + 4),
{
    let v = read32(s, i);
    assert(v == s[i] * 0x100_0000 + s[i + 1] * 0x1_0000 + s[i + 2] * 256 + s[i + 3]);
    assert(v / 0x100_0000 == s[i]);
    assert(v / 0x1_0000 == s[i] * 256 + s[i + 1]);
    assert(v / 256 == s[i] * 0x1_0000 + s[i + 1] * 256 + s[i + 2]);
    assert(be32(v) =~= s.subrange(i, i + 4));
}

/// The parts one after the other.
pub open spec fn concat(parts: Seq<Seq<u8>>) -> Seq<u8>
    decreases parts.len(),
{
    if parts.len() == 0 {
        Seq::empty()
    } else {
        concat(parts.drop_last()) + parts.last()
    }
}

/// Each part lies in the concatenation right behind the parts before it.
pub proof fn lemma_concat_part(parts: Seq<Seq<u8>>, i: int)
    requires
        0 <= i < parts.len(),
    ensures
        concat(parts.take(i + 1)) == concat(parts.take(i)) + parts[i],
        concat(parts.take(i + 1)).len() <= concat(parts).len(),
        concat(parts).subrange(
            concat(parts.take(i)).len() as int,
            concat(parts.take(i + 1)).len() as int,
        ) == parts[i],
    decreases parts.len(),
{
    assert(parts.take(i + 1).drop_last() =~= parts.take(i));
    assert(parts.take(i + 1).last() == parts[i]);
    let whole = concat(parts);
    let from = concat(parts.take(i)).len() as int;
    let to = concat(parts.take(i + 1)).len() as int;
    if i == parts.len() - 1 {
        assert(parts.take(i + 1) =~= parts);
    } else {
        let rest = parts.drop_last();
        lemma_concat_part(rest, i);
        assert(rest.take(i) =~= parts.take(i));
        assert(rest.take(i + 1) =~= parts.take(i + 1));
        assert(whole.subrange(from, to) =~= concat(rest).subrange(from, to));
    }
    assert(whole.subrange(from, to) =~= parts[i]);
}

/// The four bytes of `v`.
pub fn to_be32(v: u32) -> (r: [u8; 4])
    ensures
        r@ == be32(v),
{
    let r: [u8; 4] = [
        (v / 0x100_0000) as u8,
        (v / 0x1_0000 % 256) as u8,
        (v / 256 % 256) as u8,
        (v % 256) as u8,
    ];
    assert(r@ =~= be32(v));
    r
}

/// Appends `v` as two bytes.
pub fn put_u16(out: &mut BytesMut, v: u16)
    ensures
        buffer::buf_seq(*final(out)) == buffer::buf_seq(*old(out)) + be16(v),
{
    let bytes: [u8; 2] = [(v / 256) as u8, (v % 256) as u8];
    buffer::put_slice(out, &bytes);
    assert(bytes@ =~= be16(v));
}

/// Appends `v` as four bytes.
pub fn put_u32(out: &mut BytesMut, v: u32)
    ensures
        buffer::buf_seq(*final(out)) == buffer::buf_seq(*old(out)) + be32(v),
{
    let bytes: [u8; 4] = to_be32(v);
    buffer::put_slice(out, &bytes);
}

/// The 16-bit integer at position `i`.
pub fn get_u16(s: &[u8], i: usize) -> (r: u16)
    requires
        i + 2 <= s@.len(),
    ensures
        r == read16(s@, i as int),
{
    s[i] as u16 * 256 + s[i + 1] as u16
}

/// The 32-bit integer at position `i`.
pub fn get_u32(s: &[u8], i: usize) -> (r: u32)
    requires
        i + 4 <= s@.len(),
    ensures
        r == read32(s@, i as int),
{
    s[i] as u32 * 0x100_0000 + s[i + 1] as u32 * 0x1_0000 + s[i + 2] as u32 * 256 + s[i + 3] as u32
}

/// Compares two slices.
pub(crate) fn same_bytes(a: &[u8], b: &[u8]) -> (r: bool)
    ensures
        r == (a@ == b@),
{
    if a.len() != b.len() {
        return false;
    }
    let mut i: usize = 0;
    while i < a.len()
        invariant
            a@.len() == b@.len(),
            i <= a@.len(),
            forall|k: int| 0 <= k < i ==> a@[k] == b@[k],
        decreases a@.len() - i,
    {
        if a[i] != b[i] {
            return false;
        }
        i += 1;
    }
    assert(a@ =~= b@);
    true
}

} // verus!
