use bytes::Bytes;
use srt_protocol::fec::{
    decode_parity, recover_row, FecData, FecEncoder, FecReceiver, FEC_HEADER, ROW_INDEX,
};
use srt_protocol::seq::SeqNumber;

fn data(length: u16, flags: u8, timestamp: u32, payload: &[u8]) -> FecData<'_> {
    FecData {
        length,
        flags,
        timestamp,
        payload,
    }
}

#[test]
fn encoder_emits_one_parity_per_group() {
    let mut enc = FecEncoder::new(3, 8);
    assert!(enc.feed(data(4, 0, 1, b"aaaa")).is_none());
    assert!(enc.feed(data(4, 0, 2, b"bbbb")).is_none());
    let parity = enc
        .feed(data(4, 0, 3, b"cccc"))
        .expect("group of 3 emits parity");
    // length_clip = 4^4^4 = 4; timestamp_clip = 1^2^3 = 0.
    assert_eq!(parity.length_clip, 4);
    assert_eq!(parity.timestamp_clip, 0);
    assert_eq!(parity.payload_clip.len(), 8, "padded to payload_size");
    // The next packet starts a fresh group (no immediate parity).
    assert!(enc.feed(data(4, 0, 4, b"dddd")).is_none());
}

#[test]
fn recovers_a_single_lost_packet() {
    let payload_size = 8;
    let mut enc = FecEncoder::new(4, payload_size);
    let group = [
        (10u16, 1u8, 100u32, b"hello".as_slice()),
        (8, 1, 200, b"world!!!"),
        (3, 0, 300, b"hey"),
        (6, 2, 400, b"frame!"),
    ];
    let mut parity = None;
    for &(l, f, t, p) in &group {
        parity = enc.feed(data(l, f, t, p)).or(parity);
    }
    let parity = parity.expect("parity after the 4th packet");

    // Drop member index 2 ("hey"); the other three survive.
    let present: Vec<FecData> = [0usize, 1, 3]
        .iter()
        .map(|&i| {
            let (l, f, t, p) = group[i];
            data(l, f, t, p)
        })
        .collect();

    let recovered =
        recover_row(4, payload_size, &parity, &present).expect("one missing => recoverable");
    assert_eq!(recovered.length, 3);
    assert_eq!(recovered.flags, 0);
    assert_eq!(recovered.timestamp, 300);
    assert_eq!(&recovered.payload, b"hey", "exact payload rebuilt");
}

#[test]
fn cannot_recover_two_losses() {
    let mut enc = FecEncoder::new(3, 8);
    let group = [
        (4u16, 0u8, 1u32, b"aaaa".as_slice()),
        (4, 0, 2, b"bbbb"),
        (4, 0, 3, b"cccc"),
    ];
    let mut parity = None;
    for &(l, f, t, p) in &group {
        parity = enc.feed(data(l, f, t, p)).or(parity);
    }
    let parity = parity.unwrap();
    // Only one survivor (two missing) - XOR cannot solve two unknowns.
    let present = [data(4, 0, 1, b"aaaa")];
    assert!(recover_row(3, 8, &parity, &present).is_none());
}

#[test]
fn no_recovery_when_nothing_is_missing() {
    let mut enc = FecEncoder::new(2, 4);
    enc.feed(data(4, 0, 1, b"aaaa"));
    let parity = enc.feed(data(4, 0, 2, b"bbbb")).unwrap();
    let present = [data(4, 0, 1, b"aaaa"), data(4, 0, 2, b"bbbb")];
    assert!(
        recover_row(2, 4, &parity, &present).is_none(),
        "all present: nothing to rebuild"
    );
}

#[test]
fn parity_round_trips_on_the_wire() {
    let mut enc = FecEncoder::new(3, 8);
    enc.feed(data(4, 1, 10, b"aaaa"));
    enc.feed(data(4, 1, 20, b"bbbb"));
    let parity = enc.feed(data(4, 1, 30, b"cccc")).unwrap();

    let wire = parity.encode(ROW_INDEX);
    assert_eq!(wire.len(), FEC_HEADER + 8, "header + padded payload clip");
    let (index, decoded) = decode_parity(&wire, parity.timestamp_clip).unwrap();
    assert_eq!(index, ROW_INDEX);
    assert_eq!(decoded, parity, "every clip field survives the round trip");
}

#[test]
fn decode_parity_rejects_a_short_header() {
    assert!(decode_parity(&[0, 1, 2], 0).is_none(), "3 < FEC_HEADER");
}

/// Builds the wire parity for a row group of `members`, returning the bytes and
/// the `timestamp_clip` that rides in the FEC packet's timestamp field.
fn row_parity(members: &[(u16, u8, u32, &[u8])], payload_size: usize) -> (Vec<u8>, u32) {
    let mut enc = FecEncoder::new(members.len(), payload_size);
    let mut parity = None;
    for &(l, f, t, p) in members {
        parity = enc.feed(data(l, f, t, p)).or(parity);
    }
    let parity = parity.expect("a full group emits a parity");
    (parity.encode(ROW_INDEX), parity.timestamp_clip)
}

#[test]
fn receiver_recovers_a_lost_packet_from_its_parity() {
    let psize = 8;
    let members: [(u16, u8, u32, &[u8]); 3] =
        [(4, 0, 10, b"aaaa"), (3, 0, 20, b"hey"), (4, 0, 30, b"cccc")];
    let (wire, ts_clip) = row_parity(&members, psize);

    let mut rx = FecReceiver::new(3, psize);
    // Data packets occupy seqs 100, 101, 102; #101 ("hey") is lost.
    let base = SeqNumber::new(100);
    for (i, &(l, f, t, p)) in members.iter().enumerate() {
        if i == 1 {
            continue; // dropped on the wire
        }
        let r = rx.observe_data(
            base + u32::try_from(i).unwrap(),
            l,
            f,
            t,
            Bytes::copy_from_slice(p),
        );
        assert!(r.is_empty(), "no recovery before the parity arrives");
    }
    // Parity rides on the last data seq (102).
    let recovered = rx.observe_parity(base + 2, &wire, ts_clip);
    assert_eq!(recovered.len(), 1, "the one lost packet is rebuilt");
    let rp = &recovered[0];
    assert_eq!(rp.seq, base + 1);
    assert_eq!(rp.timestamp, 20);
    assert_eq!(rp.flags, 0);
    assert_eq!(&rp.payload[..], b"hey", "exact wire payload rebuilt");
}

#[test]
fn receiver_recovers_when_data_arrives_after_its_parity() {
    // Reorder: the parity is processed before the surviving members, so the
    // group is still incomplete when it lands; a later data packet completes it.
    let psize = 8;
    let members: [(u16, u8, u32, &[u8]); 3] = [
        (4, 0, 10, b"aaaa"),
        (4, 0, 20, b"bbbb"),
        (4, 0, 30, b"cccc"),
    ];
    let (wire, ts_clip) = row_parity(&members, psize);
    let base = SeqNumber::new(500);

    let mut rx = FecReceiver::new(3, psize);
    // #500 lost; parity arrives with only #501 seen so far -> 2 missing, no fix.
    let r = rx.observe_data(base + 1, 4, 0, 20, Bytes::from_static(b"bbbb"));
    assert!(r.is_empty());
    let r = rx.observe_parity(base + 2, &wire, ts_clip);
    assert!(r.is_empty(), "two still missing when the parity lands");
    // The straggler #502 arrives, leaving exactly one hole (#500) -> recover.
    let recovered = rx.observe_data(base + 2, 4, 0, 30, Bytes::from_static(b"cccc"));
    assert_eq!(recovered.len(), 1);
    assert_eq!(recovered[0].seq, base);
    assert_eq!(&recovered[0].payload[..], b"aaaa");
}

#[test]
fn receiver_cannot_recover_two_losses() {
    let psize = 8;
    let members: [(u16, u8, u32, &[u8]); 3] =
        [(4, 0, 1, b"aaaa"), (4, 0, 2, b"bbbb"), (4, 0, 3, b"cccc")];
    let (wire, ts_clip) = row_parity(&members, psize);
    let base = SeqNumber::new(7);

    let mut rx = FecReceiver::new(3, psize);
    // Only #7 survives; #8 and #9 are both lost.
    rx.observe_data(base, 4, 0, 1, Bytes::from_static(b"aaaa"));
    let recovered = rx.observe_parity(base + 2, &wire, ts_clip);
    assert!(recovered.is_empty(), "XOR cannot solve two unknowns");
}

#[test]
fn receiver_ignores_a_column_parity() {
    let psize = 8;
    let mut enc = FecEncoder::new(2, psize);
    enc.feed(data(4, 0, 1, b"aaaa"));
    let parity = enc.feed(data(4, 0, 2, b"bbbb")).unwrap();
    let column_wire = parity.encode(0); // index 0 = a column group, not row

    let mut rx = FecReceiver::new(2, psize);
    rx.observe_data(SeqNumber::new(1), 4, 0, 1, Bytes::from_static(b"aaaa"));
    let recovered = rx.observe_parity(SeqNumber::new(2), &column_wire, parity.timestamp_clip);
    assert!(recovered.is_empty(), "only row FEC is decoded in v1");
}

#[test]
fn whichever_member_is_lost_is_rebuilt() {
    let members: [(u16, u8, u32, &[u8]); 4] = [
        (5, 1, 100, b"hello"),
        (8, 2, 200, b"world!!!"),
        (0, 0, 300, b""),
        (6, 2, u32::MAX, b"frame!"),
    ];
    let mut enc = FecEncoder::new(4, 8);
    let mut parity = None;
    for &(l, f, t, p) in &members {
        parity = enc.feed(data(l, f, t, p)).or(parity);
    }
    let parity = parity.unwrap();
    for lost in 0..4 {
        let present: Vec<FecData> = (0..4)
            .filter(|&i| i != lost)
            .map(|i| data(members[i].0, members[i].1, members[i].2, members[i].3))
            .collect();
        let rebuilt = recover_row(4, 8, &parity, &present).unwrap();
        assert_eq!(rebuilt.length, members[lost].0);
        assert_eq!(rebuilt.flags, members[lost].1);
        assert_eq!(rebuilt.timestamp, members[lost].2);
        assert_eq!(rebuilt.payload, members[lost].3);
    }
}

#[test]
fn parity_has_this_form_on_the_wire() {
    let mut enc = FecEncoder::new(2, 4);
    enc.feed(data(0x0102, 1, 7, b"ab"));
    let parity = enc.feed(data(0x0404, 2, 9, b"abcd")).unwrap();
    assert_eq!(parity.timestamp_clip, 14);
    assert_eq!(parity.encode(ROW_INDEX), [0xFF, 3, 0x05, 0x06, 0, 0, b'c', b'd']);
}

#[test]
fn a_receiver_rebuilds_across_the_wraparound() {
    let members: [(u16, u8, u32, &[u8]); 3] =
        [(4, 0, 10, b"aaaa"), (4, 0, 20, b"bbbb"), (4, 0, 30, b"cccc")];
    let (wire, ts_clip) = row_parity(&members, 8);
    let base = SeqNumber::new(SeqNumber::MAX);
    let mut rx = FecReceiver::new(3, 8);
    rx.observe_data(base, 4, 0, 10, Bytes::from_static(b"aaaa"));
    rx.observe_data(base + 2, 4, 0, 30, Bytes::from_static(b"cccc"));
    let rebuilt = rx.observe_parity(base + 2, &wire, ts_clip);
    assert_eq!(rebuilt.len(), 1);
    assert_eq!(rebuilt[0].seq, SeqNumber::new(SeqNumber::ZERO));
    assert_eq!(&rebuilt[0].payload[..], b"bbbb");
    // The same parity again brings nothing back twice.
    assert!(rx.observe_parity(base + 2, &wire, ts_clip).is_empty());
}

#[test]
fn history_is_kept_by_the_newest_number_seen() {
    let members: [(u16, u8, u32, &[u8]); 2] = [(4, 0, 10, b"aaaa"), (4, 0, 20, b"bbbb")];
    let (wire, ts_clip) = row_parity(&members, 8);
    let member = || Bytes::from_static(b"aaaa");

    // Eight groups of two: fifteen behind the newest is kept, sixteen is not.
    let mut rx = FecReceiver::new(2, 8);
    rx.observe_data(SeqNumber::new(1000), 4, 0, 5, member());
    rx.observe_data(SeqNumber::new(985), 4, 0, 10, member());
    assert_eq!(rx.observe_parity(SeqNumber::new(986), &wire, ts_clip).len(), 1);

    // What comes in far behind is forgotten at once, though it came last.
    let mut rx = FecReceiver::new(2, 8);
    rx.observe_data(SeqNumber::new(1000), 4, 0, 5, member());
    rx.observe_data(SeqNumber::new(984), 4, 0, 10, member());
    assert!(rx.observe_parity(SeqNumber::new(985), &wire, ts_clip).is_empty());
}

#[test]
fn the_parity_of_a_group_is_the_sum_of_its_members() {
    let mut enc = FecEncoder::new(3, 2);
    for _ in 0..2 {
        assert!(enc.feed(data(1, 1, 7, &[0x01])).is_none());
        assert!(enc.feed(data(2, 2, 9, &[0x10, 0xF0])).is_none());
        let parity = enc.feed(data(2, 0, 1, &[0x22, 0x0F])).expect("complete");
        assert_eq!(parity.length_clip, 1);
        assert_eq!(parity.flag_clip, 3);
        assert_eq!(parity.timestamp_clip, 15);
        assert_eq!(parity.payload_clip, [0x33, 0xFF]);
    }
}
