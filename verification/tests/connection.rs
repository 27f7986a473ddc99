use bytes::{Bytes, BytesMut};
use srt_protocol::connection::config::{EncryptionSettings, FecConfig, KeySize};
use srt_protocol::connection::setup::{millis_u16, negotiate};
use srt_protocol::connection::{Config, Connection, Event, Output, TimerId};
use srt_protocol::control::{Ack, AckCif, ControlBody};
use srt_protocol::crypto::key_material::{CipherMode, KeyFlags, KeyMaterial};
use srt_protocol::error::ConnectionError;
use srt_protocol::handshake::{
    EncryptionField, Handshake, HandshakeExtension, HandshakeType, RejectReason, SrtFlags,
    SrtHandshake,
};
use srt_protocol::listener::{Listener, PeerAddr};
use srt_protocol::loss_list::LossRange;
use srt_protocol::packet::{
    ControlPacket, DataPacket, Encryption, MsgNumber, Packet, PacketPosition, SocketId,
};
use srt_protocol::seq::SeqNumber;
use srt_protocol::time::{Duration, Instant};
use srt_protocol::timestamp::Timestamp;

fn start() -> Instant {
    Instant::from_micros(1_000_000)
}

fn at_ms(ms: u64) -> Instant {
    start().saturating_add(Duration::from_millis(ms))
}

fn config() -> Config {
    Config::default().with_latency(Duration::from_millis(100))
}

/// Everything the connection wants sent, in order.
fn datagrams(conn: &mut Connection) -> Vec<Bytes> {
    let mut out = Vec::new();
    while let Some(output) = conn.poll_output() {
        if let Output::SendDatagram(datagram) = output {
            out.push(datagram);
        }
    }
    out
}

fn events(conn: &mut Connection) -> Vec<Event> {
    let mut out = Vec::new();
    while let Some(event) = conn.poll_event() {
        out.push(event);
    }
    out
}

fn data(datagram: &[u8]) -> DataPacket {
    match Packet::decode(datagram) {
        Ok(Packet::Data(d)) => d,
        other => panic!("a data packet, not {other:?}"),
    }
}

fn control(body: ControlBody) -> Bytes {
    let mut buf = BytesMut::new();
    Packet::Control(ControlPacket {
        timestamp: Timestamp::from_micros(0),
        dest_socket_id: SocketId::new(0x11),
        body,
    })
    .encode(&mut buf);
    buf.freeze()
}

/// A caller and the listener's end of it, both up, nothing queued.
fn connected(config: Config, salt: [u8; 16], sek: &[u8]) -> (Connection, Connection) {
    let from = PeerAddr::v4([127, 0, 0, 1], 5000);
    let mut caller = Connection::connect(
        config.clone(),
        SocketId::new(0x11),
        SeqNumber::new(1000),
        start(),
        salt,
        sek,
    );
    let mut listener = Listener::new(
        config,
        SocketId::new(0x22),
        SeqNumber::new(9000),
        0xCAFE,
        start(),
    );
    let first = datagrams(&mut caller);
    listener.feed_recv_buf(&first[0], from, start());
    let (_, answer) = listener.poll_response().expect("an answer");
    caller.feed_recv_buf(&answer, start());
    let second = datagrams(&mut caller);
    listener.feed_recv_buf(&second[0], from, start());
    let mut accepted = listener.poll_accept().expect("accepted");
    for datagram in datagrams(&mut accepted) {
        caller.feed_recv_buf(&datagram, start());
    }
    assert!(matches!(events(&mut caller)[..], [Event::Connected(_)]));
    assert!(matches!(events(&mut accepted)[..], [Event::Connected(_)]));
    datagrams(&mut caller);
    (caller, accepted)
}

fn plain() -> (Connection, Connection) {
    connected(config(), [0; 16], &[])
}

#[test]
fn what_does_not_decode_changes_nothing() {
    let (mut caller, _) = plain();
    let before = caller.stats();
    caller.feed_recv_buf(b"", at_ms(1));
    caller.feed_recv_buf(b"too short", at_ms(1));
    caller.feed_recv_buf(&[0xFF; 40], at_ms(1));
    assert_eq!(caller.stats(), before);
    assert!(caller.poll_output().is_none());
    assert!(caller.poll_event().is_none());
}

#[test]
fn data_is_refused_before_the_connection_is_up() {
    let mut caller = Connection::connect(
        config(),
        SocketId::new(0x11),
        SeqNumber::new(1000),
        start(),
        [0; 16],
        &[],
    );
    assert_eq!(
        caller.send(Bytes::from_static(b"early"), start()),
        Err(ConnectionError::InvalidState)
    );
}

#[test]
fn a_message_comes_out_as_it_went_in_once_its_time_has_come() {
    let (mut caller, mut accepted) = plain();
    let message: Vec<u8> = (0..4000u32).map(|i| (i % 251) as u8).collect();
    caller.send(Bytes::from(message.clone()), at_ms(5)).unwrap();
    let mut packets = datagrams(&mut caller);
    assert_eq!(packets.len(), 3);
    let positions: Vec<PacketPosition> = packets.iter().map(|d| data(d).position).collect();
    assert_eq!(
        positions,
        [PacketPosition::First, PacketPosition::Middle, PacketPosition::Last]
    );
    let numbers: Vec<u32> = packets.iter().map(|d| data(d).seq.value()).collect();
    assert_eq!(numbers, [1000, 1001, 1002]);
    assert_eq!(data(&packets[0]).payload.len(), 1456);

    // In any order, and twice.
    packets.reverse();
    for datagram in packets.iter().chain(packets.iter()) {
        accepted.feed_recv_buf(datagram, at_ms(10));
    }
    assert_eq!(accepted.stats().packets_received, 3);
    assert_eq!(accepted.stats().packets_duplicate, 3);
    assert!(events(&mut accepted).is_empty(), "held until it is due");
    accepted.handle_timer(TimerId::Tsbpd, at_ms(109));
    assert!(events(&mut accepted).is_empty(), "one millisecond early");
    accepted.handle_timer(TimerId::Tsbpd, at_ms(110));
    assert_eq!(events(&mut accepted), [Event::DataReceived(Bytes::from(message))]);
}

#[test]
fn a_retransmission_differs_in_its_flag_alone() {
    let (mut caller, _) = plain();
    caller.send(Bytes::from_static(b"one"), at_ms(5)).unwrap();
    let first = data(&datagrams(&mut caller)[0]);
    assert!(!first.retransmitted);

    let nak = control(ControlBody::Nak {
        loss: vec![LossRange::single(first.seq)],
    });
    caller.feed_recv_buf(&nak, at_ms(50));
    let again = datagrams(&mut caller);
    assert_eq!(again.len(), 1);
    assert_eq!(
        data(&again[0]),
        DataPacket {
            retransmitted: true,
            ..first
        }
    );
    assert_eq!(caller.stats().packets_retransmitted, 1);

    // Another report within a round trip is not answered again.
    caller.feed_recv_buf(&nak, at_ms(51));
    assert!(datagrams(&mut caller).is_empty());
    caller.feed_recv_buf(&nak, at_ms(2_000));
    assert_eq!(datagrams(&mut caller).len(), 1);
}

#[test]
fn an_acknowledgement_frees_what_lies_before_it() {
    let (mut caller, _) = plain();
    for _ in 0..3 {
        caller.send(Bytes::from_static(b"x"), at_ms(5)).unwrap();
    }
    assert_eq!(caller.stats().flight_size, 3);
    let ack = |next: u32| {
        control(ControlBody::Ack(Ack {
            ack_number: 1,
            last_ack_seq: SeqNumber::new(next),
            cif: AckCif::Light,
        }))
    };
    caller.feed_recv_buf(&ack(1002), at_ms(20));
    assert_eq!(caller.stats().flight_size, 1);
    caller.feed_recv_buf(&ack(1001), at_ms(21));
    assert_eq!(caller.stats().flight_size, 1, "an older one changes nothing");
    caller.feed_recv_buf(&ack(1003), at_ms(22));
    assert_eq!(caller.stats().flight_size, 0);
    assert_eq!(caller.stats().acks_received, 3);
}

#[test]
fn closing_twice_is_closing_once() {
    let (mut caller, _) = plain();
    caller.close(at_ms(5));
    caller.close(at_ms(6));
    assert_eq!(events(&mut caller), [Event::Closed]);
    assert_eq!(
        caller.send(Bytes::from_static(b"late"), at_ms(7)),
        Err(ConnectionError::InvalidState)
    );
}

#[test]
fn a_closed_connection_stays_as_it_is() {
    let (mut caller, _) = plain();
    caller.close(at_ms(5));
    datagrams(&mut caller);
    events(&mut caller);
    let before = caller.stats();
    caller.feed_recv_buf(
        &control(ControlBody::Nak {
            loss: vec![LossRange::single(SeqNumber::new(1000))],
        }),
        at_ms(6),
    );
    caller.feed_recv_buf(&control(ControlBody::Shutdown), at_ms(7));
    assert_eq!(caller.stats(), before);
    assert!(caller.poll_output().is_none());
    assert!(caller.poll_event().is_none());
}

#[test]
fn a_close_waits_until_everything_is_acknowledged() {
    let (mut caller, _) = plain();
    caller.send(Bytes::from_static(b"last words"), at_ms(5)).unwrap();
    caller.close(at_ms(6));
    assert!(events(&mut caller).is_empty());
    caller.feed_recv_buf(
        &control(ControlBody::Ack(Ack {
            ack_number: 1,
            last_ack_seq: SeqNumber::new(1001),
            cif: AckCif::Light,
        })),
        at_ms(20),
    );
    assert_eq!(events(&mut caller), [Event::Closed]);
}

#[test]
fn the_end_of_the_peer_hands_over_what_is_complete() {
    let (mut caller, mut accepted) = plain();
    for text in [&b"first"[..], b"second", b"third", b"fourth"] {
        caller.send(Bytes::copy_from_slice(text), at_ms(5)).unwrap();
    }
    let packets = datagrams(&mut caller);
    for i in [0usize, 1, 3] {
        accepted.feed_recv_buf(&packets[i], at_ms(10));
    }
    accepted.feed_recv_buf(&control(ControlBody::Shutdown), at_ms(11));
    assert_eq!(
        events(&mut accepted),
        [
            Event::DataReceived(Bytes::from_static(b"first")),
            Event::DataReceived(Bytes::from_static(b"second")),
            Event::Closed
        ]
    );
}

#[test]
fn a_packet_that_does_not_decrypt_is_counted_and_dropped() {
    let config = config().with_passphrase(b"correct horse");
    let (mut caller, mut accepted) = connected(config, [3; 16], &[7; 16]);
    caller.send(Bytes::from_static(b"secret"), at_ms(5)).unwrap();
    let datagram = datagrams(&mut caller).remove(0);
    assert_ne!(&data(&datagram).payload[..], b"secret");

    // The same packet, flagged for the slot that has no key.
    let mut other = datagram.to_vec();
    other[4] ^= 0x18;
    accepted.feed_recv_buf(&other, at_ms(10));
    assert_eq!(accepted.stats().packets_undecryptable, 1);
    assert_eq!(accepted.stats().packets_received, 0);

    accepted.feed_recv_buf(&datagram, at_ms(10));
    accepted.handle_timer(TimerId::Tsbpd, at_ms(200));
    assert_eq!(
        events(&mut accepted),
        [Event::DataReceived(Bytes::from_static(b"secret"))]
    );
}

#[test]
fn a_full_window_refuses_the_next_packet() {
    let (mut caller, mut accepted) = connected(config().with_flow_window(32), [0; 16], &[]);
    for _ in 0..33 {
        caller.send(Bytes::from_static(b"x"), at_ms(5)).unwrap();
    }
    for datagram in datagrams(&mut caller) {
        accepted.feed_recv_buf(&datagram, at_ms(10));
    }
    assert_eq!(accepted.stats().packets_received, 32);
    assert_eq!(accepted.stats().packets_dropped_full, 1);
    assert_eq!(accepted.stats().recv_buffer_packets, 32);
}

#[test]
fn a_refusal_ends_the_attempt_at_once() {
    let mut caller = Connection::connect(
        config(),
        SocketId::new(0x11),
        SeqNumber::new(1000),
        start(),
        [0; 16],
        &[],
    );
    datagrams(&mut caller);
    caller.feed_recv_buf(
        &control(ControlBody::Handshake(Handshake {
            version: 5,
            encryption: EncryptionField::Unencrypted,
            extension_field: 0,
            initial_seq: SeqNumber::new(1),
            mtu: 1500,
            max_flow_window: 8192,
            handshake_type: HandshakeType::rejection(RejectReason::Version),
            srt_socket_id: SocketId::new(0x22),
            syn_cookie: 0,
            peer_ip: [0; 16],
            extensions: Vec::new(),
        })),
        at_ms(1),
    );
    assert_eq!(
        events(&mut caller),
        [Event::Failed(ConnectionError::Rejected(RejectReason::Version))]
    );
}

#[test]
fn the_longer_latency_is_agreed_on() {
    let peer = |recv: u16, send: u16| Handshake {
        version: 5,
        encryption: EncryptionField::Aes256,
        extension_field: 1,
        initial_seq: SeqNumber::new(77),
        mtu: 1500,
        max_flow_window: 8192,
        handshake_type: HandshakeType::from_raw(HandshakeType::CONCLUSION),
        srt_socket_id: SocketId::new(0x33),
        syn_cookie: 0,
        peer_ip: [0; 16],
        extensions: vec![HandshakeExtension::HsReq(SrtHandshake {
            srt_version: 0x0001_0501,
            flags: SrtFlags::from_bits(0),
            recv_tsbpd_delay: recv,
            send_tsbpd_delay: send,
        })],
    };
    let agreed = negotiate(Duration::from_millis(120), &peer(250, 80));
    assert_eq!(agreed.latency, Duration::from_millis(250));
    assert_eq!(agreed.peer_socket_id, SocketId::new(0x33));
    assert_eq!(agreed.peer_initial_seq, SeqNumber::new(77));
    assert_eq!(agreed.encryption, EncryptionField::Aes256);
    let agreed = negotiate(Duration::from_millis(120), &peer(20, 20));
    assert_eq!(agreed.latency, Duration::from_millis(120));
    assert_eq!(millis_u16(Duration::from_micros(1_999)), 1);
    assert_eq!(millis_u16(Duration::from_secs(1_000)), u16::MAX);
}

fn plain_data(seq: u32, timestamp: u32, payload: &'static [u8]) -> Bytes {
    let mut buf = BytesMut::new();
    Packet::Data(DataPacket {
        seq: SeqNumber::new(seq),
        position: PacketPosition::Single,
        in_order: true,
        encryption: Encryption::Unencrypted,
        retransmitted: false,
        message_number: MsgNumber::new(1),
        timestamp: Timestamp::from_micros(timestamp),
        dest_socket_id: SocketId::new(0x22),
        payload: Bytes::from_static(payload),
    })
    .encode(&mut buf);
    buf.freeze()
}

#[test]
fn what_was_due_before_the_clock_began_is_due_at_once() {
    let (_, mut accepted) = plain();
    accepted.feed_recv_buf(&plain_data(1001, 5_000_000, b"later"), start());
    assert!(events(&mut accepted).is_empty());
    // Five seconds older than a packet that came one second after the first
    // instant there is.
    accepted.feed_recv_buf(&plain_data(1000, 0, b"earlier"), at_ms(1));
    assert_eq!(
        events(&mut accepted),
        vec![Event::DataReceived(Bytes::from_static(b"earlier"))]
    );
    accepted.handle_timer(TimerId::Tsbpd, at_ms(100));
    assert_eq!(
        events(&mut accepted),
        vec![Event::DataReceived(Bytes::from_static(b"later"))]
    );
}

/// Everything that a scripted exchange produces, begun at the given instant.
fn transcript(origin: Instant) -> Vec<String> {
    let at = |ms: u64| origin.saturating_add(Duration::from_millis(ms));
    let from = PeerAddr::v4([127, 0, 0, 1], 5000);
    let config = config().with_passphrase(b"a long passphrase").with_max_bw(200_000);
    let mut caller = Connection::connect(
        config.clone(),
        SocketId::new(0x11),
        SeqNumber::new(1000),
        origin,
        [5; 16],
        &[6; 16],
    );
    let mut listener = Listener::new(config, SocketId::new(0x22), SeqNumber::new(9), 0xCAFE, origin);
    let mut lines = Vec::new();
    let mut note = |who: &str, conn: &mut Connection| {
        let mut sent = Vec::new();
        while let Some(output) = conn.poll_output() {
            lines.push(format!("{who} {output:?}"));
            if let Output::SendDatagram(datagram) = output {
                sent.push(datagram);
            }
        }
        while let Some(event) = conn.poll_event() {
            lines.push(format!("{who} {event:?}"));
        }
        sent
    };
    caller.handle_timer(TimerId::Handshake, at(250));
    let first = note("caller", &mut caller);
    listener.feed_recv_buf(&first[0], from, at(260));
    let (_, answer) = listener.poll_response().expect("an answer");
    caller.feed_recv_buf(&answer, at(270));
    let second = note("caller", &mut caller);
    listener.feed_recv_buf(&second[0], from, at(280));
    let mut accepted = listener.poll_accept().expect("accepted");
    for datagram in note("acceptor", &mut accepted) {
        caller.feed_recv_buf(&datagram, at(290));
    }
    note("caller", &mut caller);
    for i in 0..10u8 {
        caller.send(Bytes::from(vec![i; 900]), at(300)).unwrap();
    }
    for step in 0..60u64 {
        let now = at(305 + 5 * step);
        for id in [TimerId::SndPacing, TimerId::Exp, TimerId::Keepalive] {
            caller.handle_timer(id, now);
        }
        for (i, datagram) in note("caller", &mut caller).iter().enumerate() {
            if (step + i as u64) % 4 != 0 {
                accepted.feed_recv_buf(datagram, now);
            }
        }
        for id in [TimerId::Ack, TimerId::Nak, TimerId::Tsbpd] {
            accepted.handle_timer(id, now);
        }
        for datagram in note("acceptor", &mut accepted) {
            caller.feed_recv_buf(&datagram, now);
        }
    }
    caller.close(at(900));
    note("caller", &mut caller);
    lines.push(format!("{:?} {:?}", caller.stats(), accepted.stats()));
    lines
}

#[test]
fn only_the_time_since_the_start_counts() {
    let here = transcript(start());
    assert!(here.iter().any(|line| line.contains("DataReceived")));
    assert!(here.len() > 100);
    for origin in [0, 1, 12_345_678, 1_000_000_000_000] {
        assert_eq!(transcript(Instant::from_micros(origin)), here);
    }
}

#[test]
fn parity_brings_back_what_was_encrypted() {
    let config = config()
        .with_passphrase(b"a long passphrase")
        .with_fec(FecConfig { group_size: 3 });
    for lost in 0..3 {
        let (mut caller, mut accepted) = connected(config.clone(), [1; 16], &[2; 16]);
        let messages: [&'static [u8]; 3] = [b"one", b"and two", b"and three"];
        for message in messages {
            caller.send(Bytes::from_static(message), start()).unwrap();
        }
        let sent = datagrams(&mut caller);
        assert_eq!(sent.len(), 4, "three packets and their parity");
        for (i, datagram) in sent.iter().enumerate() {
            if i != lost {
                accepted.feed_recv_buf(datagram, start());
            }
        }
        assert_eq!(accepted.stats().packets_recovered, 1);
        accepted.handle_timer(TimerId::Tsbpd, at_ms(200));
        let expected: Vec<Event> = messages
            .iter()
            .map(|m| Event::DataReceived(Bytes::from_static(m)))
            .collect();
        assert_eq!(events(&mut accepted), expected);
    }
}

#[test]
fn whatever_else_happens_a_flood_stays_within_the_window() {
    let (_, mut accepted) = connected(config().with_flow_window(4), [0; 16], &[]);
    for i in 0..50 {
        accepted.feed_recv_buf(&plain_data(1000 + i, i, b"flood"), at_ms(u64::from(i) * 10));
        for id in [TimerId::Ack, TimerId::Nak, TimerId::Tsbpd, TimerId::Keepalive] {
            accepted.handle_timer(id, at_ms(u64::from(i) * 10));
        }
        assert!(accepted.stats().packets_received <= 4);
    }
    assert_eq!(accepted.stats().packets_received, 4);
    assert_eq!(accepted.stats().packets_dropped_full, 46);
}

#[test]
fn a_key_is_taken_as_soon_as_it_is_asked_for() {
    let config = config().with_passphrase(b"a long passphrase").with_km_refresh_rate(4);
    let (mut caller, _) = connected(config, [1; 16], &[2; 16]);
    assert!(!caller.rekey_pending());
    caller.provide_rekey(&[3; 16], start());
    assert!(datagrams(&mut caller).is_empty(), "nobody asked");
    for _ in 0..3 {
        caller.send(Bytes::from_static(b"counted"), start()).unwrap();
    }
    assert!(caller.rekey_pending());
    assert_eq!(datagrams(&mut caller).len(), 3);
    // The event need not have been fetched.
    caller.provide_rekey(&[3; 16], start());
    assert!(!caller.rekey_pending());
    assert_eq!(datagrams(&mut caller).len(), 1, "the announcement");
    assert_eq!(events(&mut caller), vec![Event::KeyRefreshNeeded { key_size: 16 }]);
}

/// A caller and an acceptor with configurations of their own, both up.
fn connected_with(caller: Config, acceptor: Config, sek: &[u8]) -> (Connection, Connection) {
    let from = PeerAddr::v4([127, 0, 0, 1], 5000);
    let mut caller = Connection::connect(
        caller,
        SocketId::new(0x11),
        SeqNumber::new(1000),
        start(),
        [7; 16],
        sek,
    );
    let mut listener = Listener::new(
        acceptor,
        SocketId::new(0x22),
        SeqNumber::new(9000),
        0xCAFE,
        start(),
    );
    let first = datagrams(&mut caller);
    listener.feed_recv_buf(&first[0], from, start());
    let (_, answer) = listener.poll_response().expect("an answer");
    caller.feed_recv_buf(&answer, start());
    let second = datagrams(&mut caller);
    listener.feed_recv_buf(&second[0], from, start());
    let mut accepted = listener.poll_accept().expect("let in");
    for datagram in datagrams(&mut accepted) {
        caller.feed_recv_buf(&datagram, start());
    }
    events(&mut caller);
    events(&mut accepted);
    datagrams(&mut caller);
    (caller, accepted)
}

fn encrypted(key_size: KeySize, cipher: CipherMode) -> Config {
    config()
        .with_encryption(EncryptionSettings {
            passphrase: b"one passphrase".to_vec(),
            key_size,
            cipher,
        })
        .with_km_refresh_rate(4)
}

fn send_over(from: &mut Connection, to: &mut Connection, message: &'static [u8], ms: u64) {
    from.send(Bytes::from_static(message), at_ms(ms)).unwrap();
    for datagram in datagrams(from) {
        to.feed_recv_buf(&datagram, at_ms(ms));
    }
    to.handle_timer(TimerId::Tsbpd, at_ms(ms + 500));
    let expected = Event::DataReceived(Bytes::from_static(message));
    assert!(events(to).contains(&expected));
}

#[test]
fn one_passphrase_makes_one_key_whatever_the_acceptor_is_set_to() {
    let (mut caller, mut accepted) = connected_with(
        encrypted(KeySize::Aes256, CipherMode::Gcm),
        encrypted(KeySize::Aes128, CipherMode::Ctr),
        &[8; 32],
    );
    send_over(&mut caller, &mut accepted, b"there", 0);
    send_over(&mut accepted, &mut caller, b"and back", 0);
}

#[test]
fn the_acceptor_keeps_the_callers_cipher_when_it_rotates() {
    let (mut caller, mut accepted) = connected_with(
        encrypted(KeySize::Aes128, CipherMode::Gcm),
        encrypted(KeySize::Aes128, CipherMode::Ctr),
        &[8; 16],
    );
    for i in 0..3 {
        send_over(&mut accepted, &mut caller, b"before", i);
    }
    accepted.provide_rekey(&[9; 16], at_ms(3));
    let announced = datagrams(&mut accepted);
    assert_eq!(announced.len(), 1);
    let cif = match Packet::decode(&announced[0]) {
        Ok(Packet::Control(ControlPacket { body: ControlBody::Raw { cif, .. }, .. })) => cif,
        other => panic!("an announcement, not {other:?}"),
    };
    let km = KeyMaterial::decode(&cif).unwrap();
    assert_eq!(km.cipher, CipherMode::Gcm);
    assert_eq!(km.key_flags, KeyFlags::Odd);

    // The peer installs and echoes it; the switch follows, and nothing is lost.
    caller.feed_recv_buf(&announced[0], at_ms(4));
    for datagram in datagrams(&mut caller) {
        accepted.feed_recv_buf(&datagram, at_ms(4));
    }
    for i in 5..9 {
        send_over(&mut accepted, &mut caller, b"across", i);
    }
    accepted.send(Bytes::from_static(b"after"), at_ms(9)).unwrap();
    let last = datagrams(&mut accepted);
    assert_eq!(data(&last[0]).encryption, Encryption::Odd);
    assert_eq!(caller.stats().packets_undecryptable, 0);
}
