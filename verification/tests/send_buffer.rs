use bytes::Bytes;
use srt_protocol::packet::{DataPacket, Encryption, MsgNumber, PacketPosition, SocketId};
use srt_protocol::send_buffer::SendBuffer;
use srt_protocol::seq::SeqNumber;
use srt_protocol::time::Instant;
use srt_protocol::timestamp::Timestamp;

/// Builds a minimal single-packet message at sequence `seq`.
fn data(seq: SeqNumber) -> DataPacket {
    DataPacket {
        seq,
        position: PacketPosition::Single,
        in_order: true,
        encryption: Encryption::Unencrypted,
        retransmitted: false,
        message_number: MsgNumber::new(seq.value()),
        timestamp: Timestamp::from_micros(0),
        dest_socket_id: SocketId::new(0),
        payload: Bytes::from_static(b"x"),
    }
}

fn filled(base: SeqNumber, n: u32) -> SendBuffer {
    let mut buf = SendBuffer::new();
    for i in 0..n {
        buf.push(data(base + i));
    }
    buf
}

#[test]
fn push_tracks_first_last_and_len() {
    let base = SeqNumber::new(1000);
    let buf = filled(base, 4);
    assert_eq!(buf.len(), 4);
    assert!(!buf.is_empty());
    assert_eq!(buf.first_seq(), Some(base));
    assert_eq!(buf.last_seq(), Some(base + 3));
}

#[test]
fn get_returns_stored_packets_only() {
    let base = SeqNumber::new(1000);
    let buf = filled(base, 3);
    for i in 0..3 {
        assert_eq!(buf.get(base + i), Some(&data(base + i)));
    }
    assert_eq!(buf.get(base.prev()), None, "before the front");
    assert_eq!(buf.get(base + 3), None, "after the back");
}

#[test]
fn get_on_empty_is_none() {
    let buf = SendBuffer::new();
    assert_eq!(buf.get(SeqNumber::new(5)), None);
}

#[test]
fn ack_drops_only_the_acknowledged_prefix() {
    let base = SeqNumber::new(1000);
    let mut buf = filled(base, 5);
    // ACK says "next expected is base+3", i.e. base..base+3 are acknowledged.
    let dropped = buf.ack(base + 3);
    assert_eq!(dropped, 3);
    assert_eq!(buf.len(), 2);
    assert_eq!(buf.first_seq(), Some(base + 3));
    assert_eq!(buf.get(base + 2), None, "acknowledged packet is gone");
    assert_eq!(
        buf.get(base + 4),
        Some(&data(base + 4)),
        "later packet remains"
    );
}

#[test]
fn ack_at_or_before_front_drops_nothing() {
    let base = SeqNumber::new(1000);
    let mut buf = filled(base, 3);
    assert_eq!(buf.ack(base), 0);
    assert_eq!(buf.ack(base.prev()), 0);
    assert_eq!(buf.len(), 3);
}

#[test]
fn ack_past_the_last_drops_everything() {
    let base = SeqNumber::new(1000);
    let mut buf = filled(base, 4);
    let dropped = buf.ack(base + 4); // one past the last stored seq
    assert_eq!(dropped, 4);
    assert!(buf.is_empty());
    assert_eq!(buf.first_seq(), None);
}

#[test]
fn retransmit_stamp_round_trips_and_leaves_with_the_packet() {
    let base = SeqNumber::new(1000);
    let mut buf = filled(base, 3);
    // The test only needs *an* instant to store and compare; the buffer never
    // reads a clock itself.
    let t = Instant::from_micros(1_000);

    assert_eq!(buf.last_retransmitted(base), None, "never resent yet");
    buf.mark_retransmitted(base, t);
    assert_eq!(buf.last_retransmitted(base), Some(t), "stamp recorded");
    assert_eq!(
        buf.last_retransmitted(base + 1),
        None,
        "stamp is per-packet"
    );

    // Marking a sequence we no longer hold must be a quiet no-op.
    buf.mark_retransmitted(base.prev(), t);
    assert_eq!(buf.last_retransmitted(base.prev()), None);

    // Acknowledging the front drops its stamp with the packet.
    buf.ack(base + 1);
    assert_eq!(buf.last_retransmitted(base), None, "gone with the packet");
    assert_eq!(buf.first_seq(), Some(base + 1));
}

#[test]
fn send_buffer_handles_the_31_bit_wraparound() {
    // Start two below MAX so the buffer straddles the wrap to ZERO.
    let base = SeqNumber::new(SeqNumber::MAX).prev();
    let buf = filled(base, 4); // MAX-1, MAX, 0, 1
    assert_eq!(buf.first_seq(), Some(SeqNumber::new(SeqNumber::MAX).prev()));
    assert_eq!(buf.last_seq(), Some(SeqNumber::new(1)));
    assert_eq!(buf.get(SeqNumber::new(SeqNumber::ZERO)), Some(&data(SeqNumber::new(SeqNumber::ZERO))));
    assert_eq!(buf.get(SeqNumber::new(SeqNumber::MAX)), Some(&data(SeqNumber::new(SeqNumber::MAX))));

    let mut buf = buf;
    let dropped = buf.ack(SeqNumber::new(SeqNumber::ZERO)); // acknowledge MAX-1 and MAX
    assert_eq!(dropped, 2);
    assert_eq!(buf.first_seq(), Some(SeqNumber::new(SeqNumber::ZERO)));
    assert_eq!(buf.len(), 2);
}

#[test]
fn an_acknowledgement_drops_exactly_what_lies_before_it() {
    for start in [0u32, 1000, 0x7FFF_FFFD] {
        let base = SeqNumber::new(start);
        for k in 0..=6u32 {
            let mut buf = filled(base, 6);
            assert_eq!(buf.ack(base + k), k as usize);
            assert_eq!(buf.len(), 6 - k as usize);
            for i in 0..6u32 {
                assert_eq!(buf.get(base + i).is_some(), i >= k);
            }
        }
    }
}

#[test]
fn the_front_leaves_first() {
    let base = SeqNumber::new(1000);
    let mut buf = filled(base, 2);
    assert_eq!(buf.front(), Some(&data(base)));
    assert_eq!(buf.drop_front(), Some(data(base)));
    assert_eq!(buf.drop_front(), Some(data(base + 1)));
    assert_eq!(buf.drop_front(), None);
    assert_eq!(buf.front(), None);
    assert_eq!(buf.last_seq(), None);
}

#[test]
fn a_point_half_the_number_space_ahead_still_acknowledges() {
    let base = SeqNumber::new(SeqNumber::ZERO);
    let mut buf = SendBuffer::new();
    buf.push(data(base));
    buf.push(data(base + 1));
    assert_eq!(buf.ack(SeqNumber::new(0x4000_0001)), 0, "one further is behind");
    assert_eq!(buf.ack(SeqNumber::new(0x4000_0000)), 2);
    assert!(buf.is_empty());
}
