use bytes::{BufMut, BytesMut};
use srt_protocol::error::LossListError;
use srt_protocol::loss_list::{decode, encode, LossRange, RANGE_FLAG};
use srt_protocol::seq::SeqNumber;

fn seq(v: u32) -> SeqNumber {
    SeqNumber::new(v)
}

#[test]
fn single_round_trips_as_one_word() {
    let list = [LossRange::single(seq(5))];
    let mut buf = BytesMut::new();
    encode(&list, &mut buf);
    assert_eq!(buf.len(), 4);
    // High bit clear => single.
    assert_eq!(buf[0] & 0x80, 0);
    assert_eq!(decode(&buf).unwrap(), list);
}

#[test]
fn range_round_trips_as_two_words() {
    let list = [LossRange::new(seq(10), seq(13))];
    let mut buf = BytesMut::new();
    encode(&list, &mut buf);
    assert_eq!(buf.len(), 8);
    // High bit of the first word set => range start.
    assert_eq!(buf[0] & 0x80, 0x80);
    assert_eq!(decode(&buf).unwrap(), list);
}

#[test]
fn mixed_list_round_trips() {
    let list = [
        LossRange::single(seq(1)),
        LossRange::new(seq(5), seq(9)),
        LossRange::single(seq(20)),
    ];
    let mut buf = BytesMut::new();
    encode(&list, &mut buf);
    assert_eq!(buf.len(), 4 + 8 + 4);
    assert_eq!(decode(&buf).unwrap(), list);
}

#[test]
fn decode_rejects_misaligned_buffer() {
    assert_eq!(decode(&[0u8; 5]), Err(LossListError::Misaligned(5)));
}

#[test]
fn decode_rejects_truncated_range() {
    // One word with the range flag set, but no end word follows.
    let mut buf = BytesMut::new();
    buf.put_u32(RANGE_FLAG | 7);
    assert_eq!(decode(&buf), Err(LossListError::TruncatedRange));
}

#[test]
fn empty_list_round_trips() {
    let mut buf = BytesMut::new();
    encode(&[], &mut buf);
    assert!(buf.is_empty());
    assert_eq!(decode(&buf).unwrap(), Vec::new());
}

#[test]
fn a_two_word_range_with_equal_ends_canonicalizes() {
    let mut crafted = BytesMut::new();
    crafted.put_u32(RANGE_FLAG | 7);
    crafted.put_u32(7);
    let decoded = decode(&crafted).unwrap();
    assert_eq!(decoded, vec![LossRange::single(seq(7))]);

    let mut reencoded = BytesMut::new();
    encode(&decoded, &mut reencoded);
    assert_eq!(reencoded.len(), 4, "canonical single-word form");
    assert_eq!(
        decode(&reencoded).unwrap(),
        decoded,
        "decode∘encode∘decode is stable"
    );
}

#[test]
fn an_encoded_list_takes_one_or_two_words_per_range() {
    let list = [
        LossRange::single(seq(0x7FFF_FFFF)),
        LossRange::new(seq(0x7FFF_FFFE), seq(1)),
        LossRange::new(seq(9), seq(9)),
    ];
    let mut buf = BytesMut::new();
    encode(&list, &mut buf);
    assert_eq!(
        &buf[..],
        &[
            0x7F, 0xFF, 0xFF, 0xFF, // a single number
            0xFF, 0xFF, 0xFF, 0xFE, 0x00, 0x00, 0x00, 0x01, // a range across the wrap
            0x00, 0x00, 0x00, 0x09, // a range of one
        ]
    );
    assert!(list[2].is_single());
    assert_eq!((list[1].start(), list[1].end()), (seq(0x7FFF_FFFE), seq(1)));
}

#[test]
fn a_decoded_list_holds_at_most_one_range_per_word() {
    // The end word's top bit is not part of the number.
    let mut buf = BytesMut::new();
    buf.put_u32(RANGE_FLAG | 3);
    buf.put_u32(RANGE_FLAG | 8);
    buf.put_u32(11);
    let decoded = decode(&buf).unwrap();
    assert_eq!(decoded, vec![LossRange::new(seq(3), seq(8)), LossRange::single(seq(11))]);
    assert!(decoded.len() <= buf.len() / 4);
}
