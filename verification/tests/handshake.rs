use bytes::{BufMut, Bytes, BytesMut};
use srt_protocol::error::HandshakeError;
use srt_protocol::handshake::{
    decode_stream_id, encode_stream_id, EncryptionField, Handshake, HandshakeExtension,
    HandshakeType, RejectReason, SrtFlags, SrtHandshake, EXT_HSREQ, EXT_SID,
};
use srt_protocol::packet::SocketId;
use srt_protocol::seq::SeqNumber;

fn sample() -> Handshake {
    Handshake {
        version: 5,
        encryption: EncryptionField::Unencrypted,
        extension_field: 0x4A17,
        initial_seq: SeqNumber::new(1000),
        mtu: 1500,
        max_flow_window: 8192,
        handshake_type: HandshakeType::from_raw(HandshakeType::INDUCTION),
        srt_socket_id: SocketId::new(0x1234_5678),
        syn_cookie: 0,
        peer_ip: [0; 16],
        extensions: Vec::new(),
    }
}

fn round_trip(hs: &Handshake) {
    let mut buf = BytesMut::new();
    hs.encode(&mut buf);
    assert_eq!(buf.len() % 4, 0);
    assert_eq!(&Handshake::decode(&buf).unwrap(), hs);
}

#[test]
fn induction_round_trips() {
    round_trip(&sample());
}

#[test]
fn conclusion_with_extensions_round_trips() {
    let mut hs = sample();
    hs.handshake_type = HandshakeType::from_raw(HandshakeType::CONCLUSION);
    hs.extensions = vec![
        HandshakeExtension::HsReq(SrtHandshake {
            srt_version: 0x0001_0501,
            flags: SrtFlags::from_bits(
                SrtFlags::TSBPD_SND | SrtFlags::TSBPD_RCV | SrtFlags::TLPKTDROP,
            ),
            recv_tsbpd_delay: 120,
            send_tsbpd_delay: 120,
        }),
        HandshakeExtension::StreamId("#!::u=alice,r=live".to_owned()),
        HandshakeExtension::Raw {
            ext_type: 3,
            content: Bytes::from_static(&[0xDE, 0xAD, 0xBE, 0xEF]),
        },
    ];
    round_trip(&hs);
}

#[test]
fn stream_id_reverses_bytes_within_each_word() {
    let mut buf = BytesMut::new();
    encode_stream_id("ABCD", &mut buf);
    // Bytes are reversed within the 4-byte block.
    assert_eq!(&buf[..], b"DCBA");
    assert_eq!(decode_stream_id(&buf).unwrap(), "ABCD");
}

#[test]
fn stream_id_round_trips_non_word_aligned() {
    for s in ["", "A", "AB", "ABC", "ABCDE", "a-longer-stream-id-value"] {
        let mut buf = BytesMut::new();
        encode_stream_id(s, &mut buf);
        assert_eq!(buf.len() % 4, 0);
        assert_eq!(decode_stream_id(&buf).unwrap(), s);
    }
}

#[test]
fn decode_rejects_short_cif() {
    assert_eq!(
        Handshake::decode(&[0u8; 16]),
        Err(HandshakeError::TooShort { need: 48, got: 16 })
    );
}

#[test]
fn decode_rejects_unknown_encryption_field() {
    let mut buf = BytesMut::new();
    sample().encode(&mut buf);
    // Overwrite the encryption field (bytes 4..6) with an invalid value.
    buf[4] = 0;
    buf[5] = 7;
    assert_eq!(
        Handshake::decode(&buf),
        Err(HandshakeError::InvalidEncryptionField(7))
    );
}

#[test]
fn decode_rejects_extension_running_past_buffer() {
    let mut buf = BytesMut::new();
    sample().encode(&mut buf);
    // Append an extension header claiming 4 words (16 bytes) with none present.
    buf.put_u16(EXT_HSREQ);
    buf.put_u16(4);
    assert_eq!(
        Handshake::decode(&buf),
        Err(HandshakeError::ExtensionLength {
            ext_type: EXT_HSREQ,
            claimed: 16,
            available: 0
        })
    );
}

/// The sample with one extension of the given type and content appended.
fn with_extension(ext_type: u16, content: &[u8]) -> BytesMut {
    let mut buf = BytesMut::new();
    sample().encode(&mut buf);
    buf.put_u16(ext_type);
    buf.put_u16((content.len() / 4) as u16);
    buf.put_slice(content);
    buf
}

#[test]
fn an_extension_of_the_wrong_size_is_rejected() {
    assert_eq!(
        Handshake::decode(&with_extension(EXT_HSREQ, &[0; 8])),
        Err(HandshakeError::ExtensionContent {
            ext_type: EXT_HSREQ,
            len: 8
        })
    );
}

#[test]
fn a_stream_id_that_is_not_utf8_is_rejected() {
    assert_eq!(
        Handshake::decode(&with_extension(EXT_SID, &[0xFF; 4])),
        Err(HandshakeError::InvalidStreamId)
    );
    assert_eq!(decode_stream_id(&[0xFF; 4]), Err(HandshakeError::InvalidStreamId));
}

#[test]
fn a_stream_id_loses_only_trailing_nuls() {
    let mut buf = BytesMut::new();
    encode_stream_id("ab\0\0", &mut buf);
    assert_eq!(&buf[..], b"\0\0ba");
    assert_eq!(decode_stream_id(&buf).unwrap(), "ab");
    let mut buf = BytesMut::new();
    encode_stream_id("gr\u{00FC}n", &mut buf);
    assert_eq!(decode_stream_id(&buf).unwrap(), "gr\u{00FC}n");
}

#[test]
fn a_decoded_handshake_encodes_again() {
    let wire = with_extension(9, &[1, 2, 3, 4, 5, 6, 7, 8]);
    let hs = Handshake::decode(&wire).unwrap();
    assert_eq!(
        hs.extensions,
        vec![HandshakeExtension::Raw {
            ext_type: 9,
            content: Bytes::from_static(&[1, 2, 3, 4, 5, 6, 7, 8]),
        }]
    );
    let mut again = BytesMut::new();
    hs.encode(&mut again);
    assert_eq!(&again[..], &wire[..]);
}

#[test]
fn a_handshake_has_this_form_on_the_wire() {
    let mut buf = BytesMut::new();
    sample().encode(&mut buf);
    assert_eq!(
        &buf[..32],
        &[
            0, 0, 0, 5, // version
            0, 0, 0x4A, 0x17, // encryption and extension fields
            0, 0, 0x03, 0xE8, // initial sequence number
            0, 0, 0x05, 0xDC, // MTU
            0, 0, 0x20, 0, // flow window
            0, 0, 0, 1, // type
            0x12, 0x34, 0x56, 0x78, // socket id
            0, 0, 0, 0, // cookie
        ]
    );
    assert_eq!(buf.len(), 48);
}

#[test]
fn reject_codes_follow_the_reasons() {
    assert_eq!(HandshakeType::rejection(RejectReason::BadSecret).to_raw(), 1010);
    assert_eq!(HandshakeType::rejection(RejectReason::Unsecure).to_raw(), 1011);
    assert_eq!(HandshakeType::rejection(RejectReason::Version).to_raw(), 1008);
    assert_eq!(HandshakeType::rejection(RejectReason::Other(1403)).to_raw(), 2403);
}
