use bytes::Bytes;
use srt_protocol::packet::{DataPacket, Encryption, MsgNumber, PacketPosition, SocketId};
use srt_protocol::recv_buffer::RecvBuffer;
use srt_protocol::seq::SeqNumber;
use srt_protocol::timestamp::Timestamp;

fn data(seq: SeqNumber) -> DataPacket {
    DataPacket {
        seq,
        position: PacketPosition::Single,
        in_order: true,
        encryption: Encryption::Unencrypted,
        retransmitted: false,
        message_number: MsgNumber::new(seq.value()),
        // Tag the timestamp with the sequence so `peek` is checkable.
        timestamp: Timestamp::from_micros(seq.value()),
        dest_socket_id: SocketId::new(0),
        payload: Bytes::from_static(b"x"),
    }
}

fn ts(seq: SeqNumber) -> Timestamp {
    Timestamp::from_micros(seq.value())
}

/// Pops every currently-buffered packet (skipping gaps), returning the seqs.
fn drain(buf: &mut RecvBuffer) -> Vec<SeqNumber> {
    let mut out = Vec::new();
    while let Some(p) = buf.pop() {
        out.push(p.seq);
    }
    out
}

#[test]
fn delivers_a_contiguous_run_in_order() {
    let base = SeqNumber::new(500);
    let mut buf = RecvBuffer::new(base);
    for i in 0..3 {
        assert!(buf.insert(data(base + i)));
    }
    assert_eq!(buf.peek(), Some((base, ts(base))));
    assert_eq!(drain(&mut buf), vec![base, base + 1, base + 2]);
    assert_eq!(buf.ack_point(), base + 3);
    assert!(buf.missing().is_empty());
}

#[test]
fn peek_finds_the_earliest_present_packet_across_a_gap() {
    let base = SeqNumber::new(500);
    let mut buf = RecvBuffer::new(base);
    // base+1 arrives before base: peek sees it, but the ACK point holds and
    // base is still a reported gap (peek does not drop anything).
    assert!(buf.insert(data(base + 1)));
    assert_eq!(buf.peek(), Some((base + 1, ts(base + 1))));
    assert_eq!(buf.ack_point(), base, "peek does not advance the ACK point");
    assert_eq!(buf.missing(), vec![(base, base)]);
    // When base arrives, peek prefers it (the lower sequence).
    assert!(buf.insert(data(base)));
    assert_eq!(buf.peek().map(|(seq, _)| seq), Some(base));
    assert_eq!(drain(&mut buf), vec![base, base + 1]);
}

#[test]
fn pop_drops_a_leading_gap_tlpktdrop() {
    let base = SeqNumber::new(500);
    let mut buf = RecvBuffer::new(base);
    // base is missing, base+1 present: popping delivers base+1 and drops base.
    assert!(buf.insert(data(base + 1)));
    assert_eq!(buf.pop().map(|p| p.seq), Some(base + 1));
    assert_eq!(buf.ack_point(), base + 2, "ACK point skips the dropped gap");
    assert!(buf.missing().is_empty());
    assert!(buf.pop().is_none());
}

#[test]
fn pop_skips_multiple_gaps() {
    let base = SeqNumber::new(500);
    let mut buf = RecvBuffer::new(base);
    buf.insert(data(base)); // present
    buf.insert(data(base + 2)); // gap at base+1
    buf.insert(data(base + 5)); // gap at base+3..=base+4
    assert_eq!(
        buf.missing(),
        vec![(base + 1, base + 1), (base + 3, base + 4)]
    );
    assert_eq!(buf.pop().map(|p| p.seq), Some(base)); // contiguous head
    assert_eq!(buf.pop().map(|p| p.seq), Some(base + 2)); // drops base+1
    assert_eq!(buf.ack_point(), base + 3);
    assert_eq!(buf.pop().map(|p| p.seq), Some(base + 5)); // drops base+3..=base+4
    assert_eq!(buf.ack_point(), base + 6);
}

#[test]
fn has_gaps_tracks_missing_in_o1() {
    let base = SeqNumber::new(500);
    let mut buf = RecvBuffer::new(base);
    assert!(!buf.has_gaps(), "empty buffer has no gaps");

    buf.insert(data(base)); // contiguous
    assert!(!buf.has_gaps());

    buf.insert(data(base + 2)); // opens a gap at base+1
    assert!(buf.has_gaps());
    // The cheap flag must agree with the authoritative (O(n)) loss list.
    assert_eq!(buf.has_gaps(), !buf.missing().is_empty());

    buf.insert(data(base + 1)); // fills the gap
    assert!(!buf.has_gaps());
    assert_eq!(buf.has_gaps(), !buf.missing().is_empty());

    // Popping a leading gap (TLPKTDROP) leaves no gap behind it.
    let mut buf = RecvBuffer::new(base);
    buf.insert(data(base + 1)); // base is missing
    assert!(buf.has_gaps());
    assert_eq!(buf.pop().map(|p| p.seq), Some(base + 1)); // drops base
    assert!(!buf.has_gaps(), "the gap was dropped, not left dangling");
    assert_eq!(buf.has_gaps(), !buf.missing().is_empty());
}

#[test]
fn missing_aged_holds_fresh_gaps_until_they_age() {
    let base = SeqNumber::new(500);
    let mut buf = RecvBuffer::new(base);
    buf.insert(data(base)); // present
    buf.insert(data(base + 5)); // gap base+1..=base+4, highest = base+5
    assert_eq!(buf.missing(), vec![(base + 1, base + 4)]);
    // tolerance 0 == missing.
    assert_eq!(buf.missing_aged(0), buf.missing());
    // tolerance 3: threshold = base+2; report [base+1, base+2], hold the rest.
    assert_eq!(buf.missing_aged(3), vec![(base + 1, base + 2)]);
    // A large tolerance holds the whole (still-fresh) gap.
    assert!(buf.missing_aged(10).is_empty());
}

#[test]
fn missing_aged_reports_a_gap_whose_top_has_aged() {
    let base = SeqNumber::new(500);
    let mut buf = RecvBuffer::new(base);
    buf.insert(data(base));
    buf.insert(data(base + 1));
    buf.insert(data(base + 8)); // gap base+2..=base+7, highest = base+8
    // tolerance 3: threshold = base+5; the gap's fresh top [base+6,base+7] is
    // held, the aged part [base+2, base+5] is reported.
    assert_eq!(buf.missing_aged(3), vec![(base + 2, base + 5)]);
}

#[test]
fn drop_range_at_the_front_advances_the_ack_point() {
    let base = SeqNumber::new(500);
    let mut buf = RecvBuffer::new(base);
    buf.insert(data(base + 3)); // base..=base+2 are a leading gap
    // The sender drops base..=base+2; we advance past them.
    buf.drop_range(base, base + 2);
    assert_eq!(buf.ack_point(), base + 3, "advanced past the dropped gap");
    assert!(!buf.has_gaps(), "no gap remains before base+3");
    assert_eq!(
        buf.pop().map(|p| p.seq),
        Some(base + 3),
        "buffered packet survives"
    );
}

#[test]
fn drop_range_past_everything_empties_the_buffer() {
    let base = SeqNumber::new(500);
    let mut buf = RecvBuffer::new(base);
    buf.insert(data(base + 1));
    buf.drop_range(base, base + 5); // beyond the highest received
    assert_eq!(buf.ack_point(), base + 6);
    assert!(!buf.has_gaps());
    assert!(buf.pop().is_none(), "everything dropped");
}

#[test]
fn drop_range_interior_is_left_to_playtime_drop() {
    let base = SeqNumber::new(500);
    let mut buf = RecvBuffer::new(base);
    buf.insert(data(base)); // present at front
    buf.insert(data(base + 4)); // gap at base+1..=base+3
    // An interior drop (not reaching base) is a deliberate no-op here; the gap
    // stays until play-time TLPKTDROP skips it. base is still expected.
    buf.drop_range(base + 1, base + 3);
    assert_eq!(buf.ack_point(), base, "base unmoved");
    assert_eq!(buf.missing(), vec![(base + 1, base + 3)], "still a gap");
}

#[test]
fn drop_range_already_behind_base_is_a_noop() {
    let base = SeqNumber::new(500);
    let mut buf = RecvBuffer::new(base);
    buf.insert(data(base));
    buf.pop(); // ack point now base+1
    buf.drop_range(base.prev(), base); // wholly below the ack point
    assert_eq!(buf.ack_point(), base + 1, "unchanged");
}

#[test]
fn ignores_duplicates_and_old_packets() {
    let base = SeqNumber::new(500);
    let mut buf = RecvBuffer::new(base);
    assert!(buf.insert(data(base)));
    assert!(!buf.insert(data(base)), "duplicate is rejected");
    assert_eq!(buf.pop().map(|p| p.seq), Some(base));
    // base has been delivered; re-receiving it is too old.
    assert!(!buf.insert(data(base)), "already-popped packet is rejected");
    assert_eq!(buf.ack_point(), base + 1);
}

#[test]
fn recv_buffer_handles_the_31_bit_wraparound() {
    let base = SeqNumber::new(SeqNumber::MAX).prev(); // MAX-1
    let mut buf = RecvBuffer::new(base);
    // Arrive out of order across the wrap: MAX, then ZERO, then MAX-1.
    buf.insert(data(SeqNumber::new(SeqNumber::MAX)));
    buf.insert(data(SeqNumber::new(SeqNumber::ZERO)));
    assert_eq!(buf.missing(), vec![(base, base)]);
    buf.insert(data(base));
    assert_eq!(drain(&mut buf), vec![base, SeqNumber::new(SeqNumber::MAX), SeqNumber::new(SeqNumber::ZERO)]);
    assert_eq!(buf.ack_point(), SeqNumber::new(1));
}

#[test]
fn any_arrival_order_reassembles_in_sequence() {
    for start in [0u32, 500, 0x7FFF_FFF0] {
        let base = SeqNumber::new(start);
        for swaps in [vec![], vec![3usize, 9, 1, 30], (0..32).rev().collect::<Vec<usize>>()] {
            let mut offsets: Vec<u32> = (0..31).collect();
            for (i, &s) in swaps.iter().enumerate() {
                offsets.swap(i % 31, s % 31);
            }
            let mut buf = RecvBuffer::new(base);
            for &off in &offsets {
                assert!(buf.insert(data(base + off)));
                assert!(!buf.insert(data(base + off)), "a repeat is refused");
            }
            assert!(buf.missing().is_empty());
            let expected: Vec<SeqNumber> = (0..31).map(|i| base + i).collect();
            assert_eq!(drain(&mut buf), expected);
            assert_eq!(buf.ack_point(), base + 31);
        }
    }
}

#[test]
fn the_acknowledged_point_stops_at_the_first_gap() {
    let base = SeqNumber::new(500);
    let mut buf = RecvBuffer::new(base);
    assert_eq!(buf.received_ack_point(), base);
    for i in [0u32, 1, 2, 5] {
        buf.insert(data(base + i));
    }
    assert_eq!(buf.received_ack_point(), base + 3);
    assert_eq!(buf.occupancy(), 4);
    assert_eq!(buf.ack_point(), base, "nothing was delivered yet");
}

#[test]
fn pop_in_order_stops_at_a_gap() {
    let base = SeqNumber::new(500);
    let mut buf = RecvBuffer::new(base);
    buf.insert(data(base));
    buf.insert(data(base + 2));
    assert_eq!(buf.pop_in_order().map(|p| p.seq), Some(base));
    assert!(buf.pop_in_order().is_none());
    assert_eq!(buf.ack_point(), base + 1);
    assert_eq!(buf.pop().map(|p| p.seq), Some(base + 2));
}

#[test]
fn a_tolerance_beyond_the_span_holds_everything_back() {
    let base = SeqNumber::new(500);
    let mut buf = RecvBuffer::new(base);
    buf.insert(data(base + 5)); // gap base..=base+4, five behind at most
    assert_eq!(buf.missing_aged(5), vec![(base, base)]);
    assert!(buf.missing_aged(6).is_empty());
    assert!(buf.missing_aged(0x7FFF_FFFF).is_empty());
    assert!(buf.missing_aged(u32::MAX).is_empty());
}
