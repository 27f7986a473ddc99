use bytes::{Bytes, BytesMut};
use srt_protocol::connection::{Config, Connection, Output};
use srt_protocol::control::ControlBody;
use srt_protocol::error::ConnectionError;
use srt_protocol::handshake::{
    EncryptionField, Handshake, HandshakeExtension, HandshakeType, RejectReason, SrtFlags,
    SrtHandshake,
};
use srt_protocol::listener::{Listener, PeerAddr};
use srt_protocol::packet::{ControlPacket, Packet, SocketId};
use srt_protocol::seq::SeqNumber;
use srt_protocol::time::{Duration, Instant};
use srt_protocol::timestamp::Timestamp;

fn start() -> Instant {
    Instant::from_micros(5_000_000)
}

fn after(d: Duration) -> Instant {
    start().saturating_add(d)
}

fn listener() -> Listener {
    Listener::new(
        Config::default(),
        SocketId::new(0x22),
        SeqNumber::new(9000),
        0xC0FF_EE12,
        start(),
    )
}

fn addr() -> PeerAddr {
    PeerAddr::v4([192, 0, 2, 1], 7000)
}

fn hello(handshake_type: u32, cookie: u32) -> Bytes {
    let second = handshake_type == HandshakeType::CONCLUSION;
    let mut buf = BytesMut::new();
    Packet::Control(ControlPacket {
        timestamp: Timestamp::from_micros(0),
        dest_socket_id: SocketId::new(0),
        body: ControlBody::Handshake(Handshake {
            version: if second { 5 } else { 4 },
            encryption: EncryptionField::Unencrypted,
            extension_field: if second { 1 } else { 2 },
            initial_seq: SeqNumber::new(1000),
            mtu: 1500,
            max_flow_window: 8192,
            handshake_type: HandshakeType::from_raw(handshake_type),
            srt_socket_id: SocketId::new(0x11),
            syn_cookie: cookie,
            peer_ip: [0; 16],
            extensions: if second {
                vec![HandshakeExtension::HsReq(SrtHandshake {
                    srt_version: 0x0001_0501,
                    flags: SrtFlags::from_bits(0),
                    recv_tsbpd_delay: 120,
                    send_tsbpd_delay: 120,
                })]
            } else {
                Vec::new()
            },
        }),
    })
    .encode(&mut buf);
    buf.freeze()
}

fn answer(datagram: &[u8]) -> Handshake {
    match Packet::decode(datagram) {
        Ok(Packet::Control(ControlPacket {
            body: ControlBody::Handshake(hs),
            ..
        })) => hs,
        other => panic!("a handshake, not {other:?}"),
    }
}

fn cookie(listener: &mut Listener, from: PeerAddr, now: Instant) -> u32 {
    listener.feed_recv_buf(&hello(HandshakeType::INDUCTION, 0), from, now);
    let (to, datagram) = listener.poll_response().expect("an answer");
    assert_eq!(to, from);
    answer(&datagram).syn_cookie
}

fn first_datagram(conn: &mut Connection) -> Bytes {
    loop {
        match conn.poll_output().expect("a datagram") {
            Output::SendDatagram(datagram) => return datagram,
            _ => continue,
        }
    }
}

#[test]
fn a_first_handshake_is_answered_and_leaves_nothing_behind() {
    let mut l = listener();
    l.feed_recv_buf(&hello(HandshakeType::INDUCTION, 0), addr(), start());
    let (to, datagram) = l.poll_response().expect("an answer");
    assert_eq!(to, addr());
    let hs = answer(&datagram);
    assert_eq!(hs.version, 5);
    assert_eq!(hs.extension_field, 0x4A17);
    assert_eq!(hs.srt_socket_id, SocketId::new(0x22));
    assert!(l.poll_response().is_none());
    assert!(l.poll_accept().is_none());
    assert!(l.poll_request().is_none());
}

#[test]
fn a_cookie_is_good_for_this_span_and_the_next() {
    for (age, good) in [(0u64, true), (59, true), (61, true), (119, true), (120, false), (600, false)] {
        let mut l = listener();
        let cookie = cookie(&mut l, addr(), start());
        l.feed_recv_buf(
            &hello(HandshakeType::CONCLUSION, cookie),
            addr(),
            after(Duration::from_secs(age)),
        );
        assert_eq!(l.poll_accept().is_some(), good, "{age} s later");
        assert!(l.poll_response().is_none());
    }
}

#[test]
fn a_cookie_is_good_for_its_own_address_alone() {
    let mut l = listener();
    let cookie = cookie(&mut l, addr(), start());
    for other in [
        PeerAddr::v4([192, 0, 2, 1], 7001),
        PeerAddr::v4([192, 0, 2, 2], 7000),
        PeerAddr::v6([0; 16], 7000, 0, 0),
    ] {
        l.feed_recv_buf(&hello(HandshakeType::CONCLUSION, cookie), other, start());
        assert!(l.poll_accept().is_none());
        assert!(l.poll_response().is_none());
    }
}

#[test]
fn what_does_not_decode_or_is_no_handshake_is_ignored() {
    let mut l = listener();
    l.feed_recv_buf(b"garbage", addr(), start());
    let mut buf = BytesMut::new();
    Packet::Control(ControlPacket {
        timestamp: Timestamp::from_micros(0),
        dest_socket_id: SocketId::new(0),
        body: ControlBody::Keepalive,
    })
    .encode(&mut buf);
    l.feed_recv_buf(&buf, addr(), start());
    assert!(l.poll_response().is_none());
    assert!(l.poll_accept().is_none());
}

#[test]
fn socket_ids_follow_the_listener_and_skip_zero() {
    let mut l = Listener::new(
        Config::default(),
        SocketId::new(u32::MAX),
        SeqNumber::new(9000),
        1,
        start(),
    );
    let mut seen = Vec::new();
    for port in 1..=5u16 {
        let from = PeerAddr::v4([192, 0, 2, 1], port);
        let cookie = cookie(&mut l, from, start());
        l.feed_recv_buf(&hello(HandshakeType::CONCLUSION, cookie), from, start());
        let mut conn = l.poll_accept().expect("accepted");
        let id = conn.local_socket_id();
        assert_eq!(answer(&first_datagram(&mut conn)).srt_socket_id, id);
        assert_ne!(id, SocketId::new(0));
        assert_ne!(id, SocketId::new(u32::MAX));
        assert!(!seen.contains(&id));
        seen.push(id);
    }
}

#[test]
fn a_waiting_caller_is_asked_about_once_until_it_is_decided() {
    let mut l = listener();
    l.defer_accepts();
    let cookie = cookie(&mut l, addr(), start());
    let second = hello(HandshakeType::CONCLUSION, cookie);
    l.feed_recv_buf(&second, addr(), start());
    l.feed_recv_buf(&second, addr(), after(Duration::from_millis(250)));
    assert_eq!(l.poll_request().expect("asked").remote_addr(), addr());
    assert!(l.poll_request().is_none());
    assert!(l.poll_accept().is_none());

    let unknown = PeerAddr::v4([192, 0, 2, 9], 7000);
    assert_eq!(
        l.accept_pending(unknown, start()).err(),
        Some(ConnectionError::InvalidState)
    );
    assert!(!l.reject_pending(unknown, RejectReason::Unknown, start()));

    assert!(l.reject_pending(addr(), RejectReason::Other(1404), start()));
    let (to, datagram) = l.poll_response().expect("a refusal");
    assert_eq!(to, addr());
    assert_eq!(
        answer(&datagram).handshake_type.reject_reason(),
        Some(RejectReason::Other(1404))
    );
    assert!(!l.reject_pending(addr(), RejectReason::Unknown, start()), "decided");

    // A retransmission after the decision asks anew.
    l.feed_recv_buf(&second, addr(), start());
    assert!(l.poll_request().is_some());
}

#[test]
fn a_caller_that_waits_too_long_is_forgotten() {
    let mut l = listener();
    l.defer_accepts();
    let from = addr();
    let cookie = cookie(&mut l, from, start());
    l.feed_recv_buf(&hello(HandshakeType::CONCLUSION, cookie), from, start());
    assert!(l.poll_request().is_some());
    // Any datagram lets time pass.
    l.feed_recv_buf(b"", from, after(Duration::from_secs(31)));
    assert_eq!(
        l.accept_pending(from, after(Duration::from_secs(31))).err(),
        Some(ConnectionError::InvalidState)
    );
}

#[test]
fn a_decision_that_comes_too_late_finds_nobody() {
    for secs in [29, 30] {
        let mut l = listener();
        l.defer_accepts();
        let cookie = cookie(&mut l, addr(), start());
        l.feed_recv_buf(&hello(HandshakeType::CONCLUSION, cookie), addr(), start());
        assert!(l.poll_request().is_some());
        // No datagram comes in between.
        let late = after(Duration::from_secs(secs));
        if secs < 30 {
            assert!(l.accept_pending(addr(), late).is_ok());
        } else {
            assert!(!l.reject_pending(addr(), RejectReason::Unknown, late));
            assert_eq!(
                l.accept_pending(addr(), late).err(),
                Some(ConnectionError::InvalidState)
            );
            assert_eq!(
                l.accept_pending(addr(), start()).err(),
                Some(ConnectionError::InvalidState),
                "forgotten for good"
            );
        }
    }
}
