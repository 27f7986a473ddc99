use bytes::{BufMut, Bytes, BytesMut};
use srt_protocol::control::{Ack, AckCif, ControlBody, ControlType};
use srt_protocol::error::{ControlError, HandshakeError, LossListError, PacketError};
use srt_protocol::handshake::{EncryptionField, Handshake, HandshakeType};
use srt_protocol::loss_list::LossRange;
use srt_protocol::packet::{ControlPacket, Packet, SocketId};
use srt_protocol::seq::SeqNumber;
use srt_protocol::timestamp::Timestamp;

const FLAG_CONTROL: u32 = 0x8000_0000;

fn round_trip(body: ControlBody) {
    let pkt = Packet::Control(ControlPacket {
        timestamp: Timestamp::from_micros(123),
        dest_socket_id: SocketId::new(7),
        body,
    });
    let mut buf = BytesMut::new();
    pkt.encode(&mut buf);
    assert_eq!(Packet::decode(&buf).unwrap(), pkt);
}

fn seq(v: u32) -> SeqNumber {
    SeqNumber::new(v)
}

#[test]
fn keepalive_round_trips() {
    round_trip(ControlBody::Keepalive);
}

#[test]
fn shutdown_round_trips() {
    round_trip(ControlBody::Shutdown);
}

#[test]
fn congestion_warning_round_trips() {
    round_trip(ControlBody::CongestionWarning);
}

#[test]
fn ackack_round_trips() {
    round_trip(ControlBody::AckAck { ack_number: 99 });
}

#[test]
fn drop_req_round_trips() {
    round_trip(ControlBody::DropReq {
        message_number: 5,
        first: seq(100),
        last: seq(110),
    });
}

#[test]
fn peer_error_round_trips() {
    round_trip(ControlBody::PeerError { error_code: 0xDEAD });
}

#[test]
fn light_ack_round_trips() {
    round_trip(ControlBody::Ack(Ack {
        ack_number: 0,
        last_ack_seq: seq(42),
        cif: AckCif::Light,
    }));
}

#[test]
fn small_ack_round_trips() {
    round_trip(ControlBody::Ack(Ack {
        ack_number: 1,
        last_ack_seq: seq(42),
        cif: AckCif::Small {
            rtt: 100_000,
            rtt_variance: 25_000,
            avail_buffer_size: 8192,
        },
    }));
}

#[test]
fn full_ack_round_trips() {
    round_trip(ControlBody::Ack(Ack {
        ack_number: 7,
        last_ack_seq: seq(1000),
        cif: AckCif::Full {
            rtt: 100_000,
            rtt_variance: 25_000,
            avail_buffer_size: 8192,
            packets_recv_rate: 5000,
            estimated_link_capacity: 6000,
            receiving_rate: 7_000_000,
        },
    }));
}

#[test]
fn empty_nak_round_trips() {
    round_trip(ControlBody::Nak { loss: Vec::new() });
}

#[test]
fn nak_with_ranges_round_trips() {
    round_trip(ControlBody::Nak {
        loss: vec![LossRange::single(seq(3)), LossRange::new(seq(10), seq(20))],
    });
}

#[test]
fn raw_user_defined_round_trips() {
    round_trip(ControlBody::Raw {
        control_type: ControlType::UserDefined,
        subtype: 9,
        type_specific: 0,
        cif: Bytes::from_static(&[1, 2, 3, 4, 5, 6, 7, 8]),
    });
}

#[test]
fn handshake_round_trips_through_packet() {

    round_trip(ControlBody::Handshake(Handshake {
        version: 5,
        encryption: EncryptionField::Unencrypted,
        extension_field: 0x4A17,
        initial_seq: seq(1000),
        mtu: 1500,
        max_flow_window: 8192,
        handshake_type: HandshakeType::from_raw(HandshakeType::INDUCTION),
        srt_socket_id: SocketId::new(0x1234_5678),
        syn_cookie: 0xABCD,
        peer_ip: [0; 16],
        extensions: Vec::new(),
    }));
}

#[test]
fn decode_rejects_ack_with_bad_cif_length() {
    let mut buf = BytesMut::new();
    buf.put_u32(FLAG_CONTROL | (0x0002 << 16)); // ACK
    buf.put_u32(0); // type-specific
    buf.put_u32(0); // timestamp
    buf.put_u32(0); // dest socket id
    buf.put_u32(0); // 8-byte CIF - not a valid ACK length
    buf.put_u32(0);
    assert_eq!(
        Packet::decode(&buf),
        Err(PacketError::Control(
            ControlError::InvalidCifLength {
                kind: "ACK",
                len: 8
            }
        ))
    );
}

#[test]
fn decode_rejects_drop_req_with_bad_cif_length() {
    let mut buf = BytesMut::new();
    buf.put_u32(FLAG_CONTROL | (0x0007 << 16)); // DROPREQ
    buf.put_u32(0);
    buf.put_u32(0);
    buf.put_u32(0);
    buf.put_u32(0); // 4-byte CIF - DROPREQ needs 8
    assert_eq!(
        Packet::decode(&buf),
        Err(PacketError::Control(
            ControlError::InvalidCifLength {
                kind: "drop request",
                len: 4
            }
        ))
    );
}

/// A control packet of the given type and CIF, on the wire.
fn raw_control(raw_type: u32, cif: &[u8]) -> BytesMut {
    let mut buf = BytesMut::new();
    buf.put_u32(FLAG_CONTROL | (raw_type << 16));
    buf.put_u32(0);
    buf.put_u32(0);
    buf.put_u32(0);
    buf.put_slice(cif);
    buf
}

#[test]
fn a_malformed_loss_list_is_reported_as_such() {
    assert_eq!(
        Packet::decode(&raw_control(3, &[0, 0, 0, 1, 0])),
        Err(PacketError::Control(ControlError::LossList(LossListError::Misaligned(5))))
    );
    assert_eq!(
        Packet::decode(&raw_control(3, &[0x80, 0, 0, 1])),
        Err(PacketError::Control(ControlError::LossList(LossListError::TruncatedRange)))
    );
}

#[test]
fn a_malformed_handshake_is_reported_as_such() {
    assert_eq!(
        Packet::decode(&raw_control(0, &[0; 20])),
        Err(PacketError::Control(ControlError::Handshake(HandshakeError::TooShort {
            need: 48,
            got: 20
        })))
    );
}

#[test]
fn a_light_ack_has_this_form_on_the_wire() {
    let mut buf = BytesMut::new();
    Packet::Control(ControlPacket {
        timestamp: Timestamp::from_micros(2),
        dest_socket_id: SocketId::new(3),
        body: ControlBody::Ack(Ack {
            ack_number: 1,
            last_ack_seq: seq(0x0102_0304),
            cif: AckCif::Light,
        }),
    })
    .encode(&mut buf);
    assert_eq!(
        &buf[..],
        &[0x80, 2, 0, 0, 0, 0, 0, 1, 0, 0, 0, 2, 0, 0, 0, 3, 1, 2, 3, 4]
    );
}
