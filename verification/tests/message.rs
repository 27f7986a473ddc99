use bytes::Bytes;
use srt_protocol::connection::message::Reassembler;
use srt_protocol::packet::{DataPacket, Encryption, MsgNumber, PacketPosition, SocketId};
use srt_protocol::seq::SeqNumber;
use srt_protocol::timestamp::Timestamp;

fn part(seq: u32, position: PacketPosition, payload: &'static [u8]) -> DataPacket {
    DataPacket {
        seq: SeqNumber::new(seq),
        position,
        in_order: true,
        encryption: Encryption::Unencrypted,
        retransmitted: false,
        message_number: MsgNumber::new(1),
        timestamp: Timestamp::from_micros(0),
        dest_socket_id: SocketId::new(0),
        payload: Bytes::from_static(payload),
    }
}

#[test]
fn parts_in_order_come_out_as_one_message() {
    let mut r = Reassembler::new();
    assert_eq!(r.push(part(SeqNumber::MAX, PacketPosition::First, b"ab")), None);
    assert_eq!(r.push(part(0, PacketPosition::Middle, b"cd")), None);
    assert_eq!(
        r.push(part(1, PacketPosition::Last, b"e")),
        Some(Bytes::from_static(b"abcde"))
    );
    assert_eq!(
        r.push(part(2, PacketPosition::Single, b"whole")),
        Some(Bytes::from_static(b"whole"))
    );
}

#[test]
fn a_gap_discards_the_message_in_progress() {
    let mut r = Reassembler::new();
    assert_eq!(r.push(part(5, PacketPosition::First, b"ab")), None);
    // 6 is lost.
    assert_eq!(r.push(part(7, PacketPosition::Middle, b"ef")), None);
    assert_eq!(r.push(part(8, PacketPosition::Last, b"gh")), None);
    assert_eq!(r.push(part(9, PacketPosition::Last, b"stray")), None);
}

#[test]
fn a_new_message_replaces_the_one_in_progress() {
    let mut r = Reassembler::new();
    assert_eq!(r.push(part(5, PacketPosition::First, b"old")), None);
    assert_eq!(r.push(part(6, PacketPosition::First, b"new")), None);
    assert_eq!(
        r.push(part(7, PacketPosition::Last, b"er")),
        Some(Bytes::from_static(b"newer"))
    );
}
