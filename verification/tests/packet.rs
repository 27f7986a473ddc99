use bytes::{BufMut, Bytes, BytesMut};
use srt_protocol::control::{Ack, AckCif, ControlBody};
use srt_protocol::error::{ControlError, PacketError};
use srt_protocol::packet::{
    ControlPacket, DataPacket, Encryption, MsgNumber, Packet, PacketPosition, SocketId, HEADER_LEN,
};
use srt_protocol::seq::SeqNumber;
use srt_protocol::timestamp::Timestamp;

const FLAG_CONTROL: u32 = 0x8000_0000;

fn sample_data() -> Packet {
    Packet::Data(DataPacket {
        seq: SeqNumber::new(12_345),
        position: PacketPosition::Single,
        in_order: true,
        encryption: Encryption::Even,
        retransmitted: false,
        message_number: MsgNumber::new(7),
        timestamp: Timestamp::from_micros(1_000_000),
        dest_socket_id: SocketId::new(0xDEAD_BEEF),
        payload: Bytes::from_static(b"hello srt"),
    })
}

fn sample_control() -> Packet {
    // A light ACK: its CIF is the single 4-byte acknowledged sequence number.
    Packet::Control(ControlPacket {
        timestamp: Timestamp::from_micros(500),
        dest_socket_id: SocketId::new(1),
        body: ControlBody::Ack(Ack {
            ack_number: 42,
            last_ack_seq: SeqNumber::new(1000),
            cif: AckCif::Light,
        }),
    })
}

#[test]
fn data_packet_round_trip() {
    let pkt = sample_data();
    let mut buf = BytesMut::new();
    pkt.encode(&mut buf);
    assert_eq!(buf.len(), HEADER_LEN + 9);
    assert_eq!(Packet::decode(&buf).unwrap(), pkt);
}

#[test]
fn control_packet_round_trip() {
    let pkt = sample_control();
    let mut buf = BytesMut::new();
    pkt.encode(&mut buf);
    assert_eq!(buf.len(), HEADER_LEN + 4);
    assert_eq!(Packet::decode(&buf).unwrap(), pkt);
}

#[test]
fn data_packet_has_clear_flag_bit() {
    let mut buf = BytesMut::new();
    sample_data().encode(&mut buf);
    // First word, MSB clear => data packet.
    assert_eq!(buf[0] & 0x80, 0);
}

#[test]
fn control_packet_has_set_flag_bit() {
    let mut buf = BytesMut::new();
    sample_control().encode(&mut buf);
    assert_eq!(buf[0] & 0x80, 0x80);
}

#[test]
fn decode_rejects_short_buffer() {
    assert_eq!(
        Packet::decode(&[0u8; 4]),
        Err(PacketError::TooShort { need: 16, got: 4 })
    );
}

#[test]
fn decode_rejects_unknown_control_type() {
    let mut buf = BytesMut::new();
    buf.put_u32(FLAG_CONTROL | (0x00FF << 16));
    buf.put_u32(0);
    buf.put_u32(0);
    buf.put_u32(0);
    assert_eq!(
        Packet::decode(&buf),
        Err(PacketError::Control(
            ControlError::UnknownType(0x00FF)
        ))
    );
}

#[test]
fn decode_rejects_both_keys_on_data_packet() {
    let mut buf = BytesMut::new();
    buf.put_u32(0); // data packet, seq 0
    buf.put_u32(0b11 << 27); // KK = 0b11
    buf.put_u32(0);
    buf.put_u32(0);
    assert_eq!(Packet::decode(&buf), Err(PacketError::InvalidKeyFlag(0b11)));
}

#[test]
fn a_data_packet_has_this_form_on_the_wire() {
    let mut buf = BytesMut::new();
    sample_data().encode(&mut buf);
    assert_eq!(
        &buf[..16],
        &[
            0x00, 0x00, 0x30, 0x39, // sequence number
            0xE8, 0x00, 0x00, 0x07, // single, in order, even key, message 7
            0x00, 0x0F, 0x42, 0x40, // timestamp
            0xDE, 0xAD, 0xBE, 0xEF, // destination
        ]
    );
    assert_eq!(&buf[16..], b"hello srt");
}

#[test]
fn decoded_data_encodes_to_the_bytes_it_came_from() {
    for flags in [0x0000_0001u32, 0x4400_0002, 0x9000_0003, 0xE3FF_FFFF, 0xFC00_0000 & !0x1800_0000]
    {
        let mut wire = BytesMut::new();
        wire.put_u32(0x7FFF_FFFF);
        wire.put_u32(flags);
        wire.put_u32(u32::MAX);
        wire.put_u32(9);
        wire.put_slice(b"payload");
        let mut again = BytesMut::new();
        Packet::decode(&wire).unwrap().encode(&mut again);
        assert_eq!(&again[..], &wire[..]);
    }
}

#[test]
fn the_authenticated_header_leaves_the_retransmission_flag_out() {
    let Packet::Data(mut d) = sample_data() else {
        unreachable!()
    };
    let first = d.header_aad();
    d.retransmitted = true;
    assert_eq!(d.header_aad(), first);
    d.timestamp = Timestamp::from_micros(1);
    assert_ne!(d.header_aad(), first);
}
