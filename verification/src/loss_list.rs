//! Compressed loss lists, the body of a NAK.
//!
//! A loss list is a sequence of big-endian 32-bit words. A word with a clear top
//! bit is one lost sequence number; a word with the top bit set begins an
//! inclusive range whose end is the word that follows.

use crate::buffer;
use crate::error::LossListError;
use crate::seq::SeqNumber;
use crate::wire;
use bytes::BytesMut;
use vstd::prelude::*;

verus! {

/// The top bit of a word: the word begins a range.
pub const RANGE_FLAG: u32 = 0x8000_0000;

/// An inclusive range of lost sequence numbers. Its view is the pair of its
/// ends.
#[derive(Debug, Clone, Copy, PartialEq, Eq)]
pub struct LossRange {
    start: SeqNumber,
    end: SeqNumber,
}

impl View for LossRange {
    type V = (u32, u32);

    closed spec fn view(&self) -> (u32, u32) {
        (self.start@, self.end@)
    }
}

impl LossRange {
    /// A range that covers one sequence number.
    #[must_use]
    pub fn single(seq: SeqNumber) -> (r: Self)
        ensures
            r@ == (seq@, seq@),
    {
        LossRange { start: seq, end: seq }
    }

    /// The range from `start` to `end`, both included.
    #[must_use]
    pub fn new(start: SeqNumber, end: SeqNumber) -> (r: Self)
        ensures
            r@ == (start@, end@),
    {
        LossRange { start, end }
    }

    /// The first lost sequence number.
    #[must_use]
    pub fn start(self) -> (r: SeqNumber)
        ensures
            r@ == self@.0,
    {
        self.start
    }

    /// The last lost sequence number.
    #[must_use]
    pub fn end(self) -> (r: SeqNumber)
        ensures
            r@ == self@.1,
    {
        self.end
    }

    /// Whether the range covers exactly one sequence number.
    #[must_use]
    pub fn is_single(self) -> (r: bool)
        ensures
            r == (self@.0 == self@.1),
    {
        self.start.value() == self.end.value()
    }
}

/// The views of a sequence of ranges.
pub open spec fn views(ranges: Seq<LossRange>) -> Seq<(u32, u32)> {
    ranges.map_values(|r: LossRange| r@)
}

/// Both ends are 31-bit numbers.
pub open spec fn valid_range(r: (u32, u32)) -> bool {
    r.0 < 0x8000_0000 && r.1 < 0x8000_0000
}

/// The one or two words of a range.
pub open spec fn encode_range(r: (u32, u32)) -> Seq<u8> {
    if r.0 == r.1 {
        wire::be32(r.0)
    } else {
        wire::be32((r.0 + 0x8000_0000) as u32) + wire::be32(r.1)
    }
}

/// The words of a loss list.
pub open spec fn encode_list(ranges: Seq<(u32, u32)>) -> Seq<u8> {
    wire::concat(ranges.map_values(|r: (u32, u32)| encode_range(r)))
}

/// Reads the words of `s` from `pos` on, behind the ranges already read.
pub open spec fn decode_from(s: Seq<u8>, pos: int, read: Seq<(u32, u32)>) -> Result<
    Seq<(u32, u32)>,
    LossListError,
>
    decreases s.len() - pos,
{
    if pos < 0 || pos + 4 > s.len() {
        Ok(read)
    } else {
        let word = wire::read32(s, pos);
        if word < 0x8000_0000 {
            decode_from(s, pos + 4, read.push((word, word)))
        } else if pos + 8 > s.len() {
            Err(LossListError::TruncatedRange)
        } else {
            decode_from(
                s,
                pos + 8,
                read.push(
                    ((word - 0x8000_0000) as u32, (wire::read32(s, pos + 4) % 0x8000_0000) as u32),
                ),
            )
        }
    }
}

/// The ranges that a loss list holds.
pub open spec fn decode_list(s: Seq<u8>) -> Result<Seq<(u32, u32)>, LossListError> {
    if s.len() % 4 != 0 {
        Err(LossListError::Misaligned(s.len() as usize))
    } else {
        decode_from(s, 0, Seq::empty())
    }
}

/// Appends a loss list: one word for a single sequence number, two for a range.
pub fn encode(ranges: &[LossRange], out: &mut BytesMut)
    ensures
        buffer::buf_seq(*final(out)) == buffer::buf_seq(*old(out)) + encode_list(views(ranges@)),
{
    let ghost before = buffer::buf_seq(*out);
    let ghost parts = views(ranges@).map_values(|r: (u32, u32)| encode_range(r));
    assert(parts.take(0) =~= Seq::<Seq<u8>>::empty());
    let mut i: usize = 0;
    while i < ranges.len()
        invariant
            i <= ranges@.len(),
            parts == views(ranges@).map_values(|r: (u32, u32)| encode_range(r)),
            buffer::buf_seq(*out) == before + wire::concat(parts.take(i as int)),
        decreases ranges@.len() - i,
    {
        let range = ranges[i];
        let start: u32 = range.start().value();
        let end: u32 = range.end().value();
        if range.is_single() {
            wire::put_u32(out, start);
        } else {
            wire::put_u32(out, start + RANGE_FLAG);
            wire::put_u32(out, end);
        }
        proof {
            wire::lemma_concat_part(parts, i as int);
            assert(parts[i as int] == encode_range(range@));
            assert(buffer::buf_seq(*out) =~= before + (wire::concat(parts.take(i as int))
                + parts[i as int]));
        }
        i += 1;
    }
    assert(parts.take(i as int) =~= parts);
}

/// Decodes a loss list. The result is canonical: a two-word range with equal
/// ends reads as the single sequence number.
#[verifier::spinoff_prover]
#[verifier::rlimit(40)]
pub fn decode(buf: &[u8]) -> (r: Result<Vec<LossRange>, LossListError>)
    ensures
        match r {
            Ok(ranges) => decode_list(buf@) == Ok::<Seq<(u32, u32)>, LossListError>(views(ranges@)),
            Err(e) => decode_list(buf@) == Err::<Seq<(u32, u32)>, LossListError>(e),
        },
{
    if buf.len() % 4 != 0 {
        return Err(LossListError::Misaligned(buf.len()));
    }
    let mut ranges: Vec<LossRange> = Vec::new();
    let mut pos: usize = 0;
    assert(views(ranges@) =~= Seq::<(u32, u32)>::empty());
    while pos < buf.len()
        invariant
            buf@.len() % 4 == 0,
            pos % 4 == 0,
            pos <= buf@.len(),
            decode_list(buf@) == decode_from(buf@, pos as int, views(ranges@)),
        decreases buf@.len() - pos,
    {
        let word: u32 = wire::get_u32(buf, pos);
        let ghost read = views(ranges@);
        if word >= RANGE_FLAG {
            if buf.len() - pos < 8 {
                return Err(LossListError::TruncatedRange);
            }
            let start = SeqNumber::new(word);
            let end = SeqNumber::new(wire::get_u32(buf, pos + 4));
            ranges.push(LossRange::new(start, end));
            assert(views(ranges@) =~= read.push((start@, end@)));
            pos += 8;
        } else {
            let seq = SeqNumber::new(word);
            ranges.push(LossRange::single(seq));
            assert(views(ranges@) =~= read.push((seq@, seq@)));
            pos += 4;
        }
    }
    Ok(ranges)
}

/// One step of reading: behind the words of the first `i` ranges come the words
/// of range `i`.
#[verifier::spinoff_prover]
#[verifier::rlimit(40)]
proof fn lemma_decode_step(ranges: Seq<(u32, u32)>, i: int)
    requires
        0 <= i < ranges.len(),
        forall|k: int| 0 <= k < ranges.len() ==> valid_range(#[trigger] ranges[k]),
    ensures
        decode_from(
            encode_list(ranges),
            encode_list(ranges.take(i)).len() as int,
            ranges.take(i),
        ) == decode_from(
            encode_list(ranges),
            encode_list(ranges.take(i + 1)).len() as int,
            ranges.take(i + 1),
        ),
{
    let enc = |r: (u32, u32)| encode_range(r);
    let parts = ranges.map_values(enc);
    let s = encode_list(ranges);
    wire::lemma_concat_part(parts, i);
    assert(parts.take(i) =~= ranges.take(i).map_values(enc));
    assert(parts.take(i + 1) =~= ranges.take(i + 1).map_values(enc));
    let pos = encode_list(ranges.take(i)).len() as int;
    let r = ranges[i];
    assert(valid_range(r));
    let part = encode_range(r);
    assert(s.subrange(pos, pos + part.len()) == part);
    assert(ranges.take(i + 1) =~= ranges.take(i).push(r));
    if r.0 == r.1 {
        wire::lemma_read32_be32(s, pos, r.0);
    } else {
        assert(s.subrange(pos, pos + 4) =~= part.subrange(0, 4));
        assert(part.subrange(0, 4) =~= wire::be32((r.0 + 0x8000_0000) as u32));
        assert(s.subrange(pos + 4, pos + 8) =~= part.subrange(4, 8));
        assert(part.subrange(4, 8) =~= wire::be32(r.1));
        wire::lemma_read32_be32(s, pos, (r.0 + 0x8000_0000) as u32);
        wire::lemma_read32_be32(s, pos + 4, r.1);
    }
}

proof fn lemma_decode_prefix(ranges: Seq<(u32, u32)>, i: int)
    requires
        0 <= i <= ranges.len(),
        forall|k: int| 0 <= k < ranges.len() ==> valid_range(#[trigger] ranges[k]),
    ensures
        decode_from(encode_list(ranges), 0, Seq::empty()) == decode_from(
            encode_list(ranges),
            encode_list(ranges.take(i)).len() as int,
            ranges.take(i),
        ),
    decreases i,
{
    if i == 0 {
        assert(ranges.take(0) =~= Seq::<(u32, u32)>::empty());
        assert(ranges.take(0).map_values(|r: (u32, u32)| encode_range(r)) =~= Seq::<
            Seq<u8>,
        >::empty());
    } else {
        lemma_decode_prefix(ranges, i - 1);
        lemma_decode_step(ranges, i - 1);
    }
}

/// An encoded list is a whole number of words: one or two per range.
pub proof fn law_encoded_length(ranges: Seq<(u32, u32)>)
    ensures
        encode_list(ranges).len() % 4 == 0,
        4 * ranges.len() <= encode_list(ranges).len() <= 8 * ranges.len(),
    decreases ranges.len(),
{
    let enc = |r: (u32, u32)| encode_range(r);
    if ranges.len() > 0 {
        law_encoded_length(ranges.drop_last());
        assert(ranges.map_values(enc).drop_last() =~= ranges.drop_last().map_values(enc));
    }
}

/// Decoding an encoded list gives the list back.
pub proof fn law_decode_encode(ranges: Seq<(u32, u32)>)
    requires
        forall|k: int| 0 <= k < ranges.len() ==> valid_range(#[trigger] ranges[k]),
    ensures
        decode_list(encode_list(ranges)) == Ok::<Seq<(u32, u32)>, LossListError>(ranges),
{
    law_encoded_length(ranges);
    lemma_decode_prefix(ranges, ranges.len() as int);
    assert(ranges.take(ranges.len() as int) =~= ranges);
}

proof fn lemma_decoded_ranges(s: Seq<u8>, pos: int, read: Seq<(u32, u32)>)
    requires
        0 <= pos <= s.len(),
        4 * read.len() <= pos,
        forall|k: int| 0 <= k < read.len() ==> valid_range(#[trigger] read[k]),
    ensures
        decode_from(s, pos, read) matches Ok(ranges) ==> {
            &&& 4 * ranges.len() <= s.len()
            &&& forall|k: int| 0 <= k < ranges.len() ==> valid_range(#[trigger] ranges[k])
        },
    decreases s.len() - pos,
{
    if pos + 4 <= s.len() {
        let word = wire::read32(s, pos);
        if word < 0x8000_0000 {
            lemma_decoded_ranges(s, pos + 4, read.push((word, word)));
        } else if pos + 8 <= s.len() {
            let r = (
                (word - 0x8000_0000) as u32,
                (wire::read32(s, pos + 4) % 0x8000_0000) as u32,
            );
            lemma_decoded_ranges(s, pos + 8, read.push(r));
        }
    }
}

/// A decoded list holds at most one range per word, and its numbers are 31-bit.
pub proof fn law_decoded_ranges(s: Seq<u8>)
    ensures
        decode_list(s) matches Ok(ranges) ==> {
            &&& 4 * ranges.len() <= s.len()
            &&& forall|k: int| 0 <= k < ranges.len() ==> valid_range(#[trigger] ranges[k])
        },
{
    if s.len() % 4 == 0 {
        lemma_decoded_ranges(s, 0, Seq::empty());
    }
}

/// The decoded form is canonical: re-encoding it and decoding again changes
/// nothing.
pub proof fn law_decoding_is_canonical(s: Seq<u8>)
    ensures
        decode_list(s) matches Ok(ranges) ==> decode_list(encode_list(ranges)) == Ok::<
            Seq<(u32, u32)>,
            LossListError,
        >(ranges),
{
    law_decoded_ranges(s);
    if let Ok(ranges) = decode_list(s) {
        law_decode_encode(ranges);
    }
}

} // verus!
