//! How a connection comes up, stays up and ends: what its handshakes say, when its
//! timers fire, and what it tells the peer.

use crate::arith;
use crate::connection::config::{ConfigView, EncryptionView, KeySize, NegotiatedView};
use crate::connection::event::{EventView, OutputView, TimerId};
use crate::connection::model;
use crate::connection::model::ConnView;
use crate::connection::recovery::{brings, covers, lemma_control_heard, lemma_told, told};
use crate::connection::{Side, State};
use crate::control::{AckCif, ControlType, ControlView};
use crate::crypto::kek;
use crate::crypto::key_material::{KeyFlags, KmView};
use crate::crypto::wrap;
use crate::crypto::{CryptoView, KeysView, SlotsView};
use crate::error::{ConnectionError, CryptoError, PacketError};
use crate::fec::FecFields;
use crate::handshake::{
    EncryptionField, ExtensionView, HandshakeType, HandshakeView, RejectReason, SrtFlags,
    SrtHandshake,
};
use crate::live_cc::LiveCcView;
use crate::packet::{DataView, Encryption, PacketView, SocketId};
use crate::rate;
use crate::recv_buffer;
use crate::recv_buffer::RecvView;
use crate::rtt::RttView;
use crate::send_buffer;
use crate::stats::Stats;
use vstd::prelude::*;

verus! {

// ---- coming up ----

/// A handshake on the wire.
pub open spec fn hello(dest: SocketId, timestamp: u32, hs: HandshakeView) -> Seq<u8> {
    (PacketView::Control {
        timestamp,
        dest_socket_id: dest,
        body: ControlView::Handshake(hs),
    }).bytes()
}

/// The microseconds from the start, as they are stamped on packets.
pub open spec fn stamp(start: u64, now: u64) -> u32 {
    (if now >= start {
        (now - start) / 1_000 % 0x1_0000_0000
    } else {
        0
    }) as u32
}

/// The handshake extension of this library: version 1.5.4, timed delivery both ways,
/// dropping what is too late, periodic loss reports and the retransmission flag, and the
/// latency in whole milliseconds both ways.
pub open spec fn capabilities(latency: int) -> SrtHandshake {
    SrtHandshake {
        srt_version: 0x0001_0504,
        flags: SrtFlags(0x3B),
        recv_tsbpd_delay: arith::clamp_u16(latency / 1_000_000),
        send_tsbpd_delay: arith::clamp_u16(latency / 1_000_000),
    }
}

/// A caller starts by sending its first handshake, to socket id 0, and by setting the
/// timer that sends it again after 250 ms. The handshake is of version 4, asks for
/// induction, advertises no encryption, and names the caller's socket id, its initial
/// sequence number, its packet size and its window.
pub proof fn law_callers_start_with_induction(
    config: ConfigView,
    id: SocketId,
    initial_seq: u32,
    now: u64,
    salt: Seq<u8>,
    sek: Seq<u8>,
)
    ensures
        ({
            let conn = ConnView::calling(config, id, initial_seq, now, salt, sek);
            let first = hello(
                SocketId(0),
                0,
                HandshakeView {
                    version: 4,
                    encryption: EncryptionField::Unencrypted,
                    extension_field: 2,
                    initial_seq,
                    mtu: config.mtu,
                    max_flow_window: config.flow_window,
                    handshake_type: HandshakeType(1),
                    srt_socket_id: id,
                    syn_cookie: 0,
                    peer_ip: Seq::new(16, |i: int| 0u8),
                    extensions: Seq::empty(),
                },
            );
            &&& conn.outputs == seq![
                OutputView::SendDatagram(first),
                OutputView::SetTimer { id: TimerId::Handshake, after: 250_000_000 },
            ]
            &&& conn.last_handshake == Some(first)
            &&& conn.state == State::Induction
            &&& conn.side == Side::Caller
            &&& starts(conn, config, id, initial_seq, now)
        }),
{
    reveal(ConnView::calling);
    reveal(ConnView::inducted);
    reveal(ConnView::induction_hs);
    reveal(ConnView::handshake_sent);
    reveal(ConnView::fresh);
    let conn = ConnView::calling(config, id, initial_seq, now, salt, sek);
    let first = conn.induction_hs();
    assert(first.peer_ip =~= Seq::new(16, |i: int| 0u8));
    lemma_hello(SocketId(0), 0, first);
    assert(conn.outputs =~= seq![conn.outputs[0], conn.outputs[1]]);
}

/// Packets per parity group: as configured, and at least two.
pub open spec fn group_of(config: ConfigView) -> int {
    match config.fec {
        Some(f) => if f.group_size < 2 {
            2
        } else {
            f.group_size as int
        },
        None => 0,
    }
}

/// The bytes of payload that parity covers: what a packet has room for behind 44 bytes of
/// headers.
pub open spec fn covered_by_parity(config: ConfigView) -> int {
    if config.mtu <= 44 {
        1
    } else {
        config.mtu - 44
    }
}

/// What every connection starts with: nothing sent or received, numbers from one on, an
/// assumed round trip of 100 ms with a variance of 50 ms, the peer's window taken to be
/// the own one, and the counters at zero.
pub open spec fn starts(
    conn: ConnView,
    config: ConfigView,
    id: SocketId,
    initial_seq: u32,
    now: u64,
) -> bool {
    &&& conn.config == config
    &&& conn.local_socket_id == id
    &&& conn.initial_seq == initial_seq
    &&& conn.next_send_seq == initial_seq
    &&& conn.start == now
    &&& conn.last_sent == now
    &&& conn.last_recv_any == now
    &&& conn.send_buffer.len() == 0
    &&& conn.send_queue.len() == 0
    &&& conn.recv_buffer.slots.len() == 0
    &&& conn.pending_acks.len() == 0
    &&& conn.reported_loss.len() == 0
    &&& conn.tsbpd_base is None
    &&& conn.ts_wrap is None
    &&& conn.drift.correction_us == 0
    &&& conn.drift.sum_us == 0
    &&& conn.drift.count == 0
    &&& conn.drift.first_rtt_us is None
    &&& conn.rtt == (RttView { rtt: 100_000_000, var: 50_000_000, sampled: false })
    &&& conn.next_message == 1
    &&& conn.next_ack_number == 1
    &&& conn.exp_count == 1
    &&& conn.packets_on_key == 0
    &&& conn.packets_since_ack == 0
    &&& conn.reorder_tolerance == 0
    &&& conn.orderly_streak == 0
    &&& conn.last_acked_point is None
    &&& conn.last_acked_avail is None
    &&& conn.last_nak is None
    &&& conn.last_recv is None
    &&& conn.highest_recv_seq is None
    &&& conn.next_send is None
    &&& !conn.closing
    &&& !conn.rekey_pending
    &&& !conn.next_key_ready
    &&& conn.pending_km is None
    &&& conn.peer_avail_window == config.flow_window
    &&& conn.live_cc is Some <==> config.max_bw > 0
    &&& conn.live_cc matches Some(cc) ==> cc == LiveCcView::starting(config.max_bw)
    &&& conn.fec_send is Some <==> config.fec is Some
    &&& conn.fec_recv is Some <==> config.fec is Some
    &&& conn.fec_send matches Some(fec) ==> {
        &&& fec.group_size == group_of(config)
        &&& fec.collected == 0
        &&& fec.clip == FecFields::zero(covered_by_parity(config) as nat)
    }
    &&& conn.fec_recv matches Some(fec) ==> {
        &&& fec.group_size == group_of(config)
        &&& fec.payload_size == covered_by_parity(config)
        &&& fec.data == Map::<u32, FecFields>::empty()
        &&& fec.parities == Map::<u32, FecFields>::empty()
        &&& fec.newest is None
    }
    &&& conn.rate.intervals.len() == 0
    &&& conn.rate.sizes.len() == 0
    &&& conn.reassembler.fragments.len() == 0
    &&& conn.reassembler.next_seq is None
    &&& conn.stats == Stats::zero()
}

/// A caller's second handshake: of version 5, asking for conclusion, with the listener's
/// cookie, its own capabilities, and the Stream ID and the announcement of its key if it has
/// them.
pub open spec fn second_handshake(conn: ConnView, cookie: u32) -> HandshakeView {
    let keyed = conn.key_material is Some && conn.config.encryption is Some;
    let named = conn.config.stream_id is Some;
    HandshakeView {
        version: 5,
        encryption: if keyed {
            match conn.config.encryption->0.key_size {
                KeySize::Aes128 => EncryptionField::Aes128,
                KeySize::Aes192 => EncryptionField::Aes192,
                KeySize::Aes256 => EncryptionField::Aes256,
            }
        } else {
            EncryptionField::Unencrypted
        },
        extension_field: if named && keyed {
            7
        } else if named {
            5
        } else if keyed {
            3
        } else {
            1
        },
        initial_seq: conn.initial_seq,
        mtu: conn.config.mtu,
        max_flow_window: conn.config.flow_window,
        handshake_type: HandshakeType(0xFFFF_FFFF),
        srt_socket_id: conn.local_socket_id,
        syn_cookie: cookie,
        peer_ip: Seq::new(16, |i: int| 0u8),
        extensions: seq![ExtensionView::HsReq(capabilities(conn.config.latency))] + (if named {
            seq![ExtensionView::StreamId(conn.config.stream_id->0)]
        } else {
            Seq::empty()
        }) + (if keyed {
            seq![ExtensionView::Raw { ext_type: 3, content: conn.key_material->0 }]
        } else {
            Seq::empty()
        }),
    }
}

proof fn lemma_second_handshake(conn: ConnView)
    ensures
        conn.conclusion_hs() == second_handshake(conn, conn.syn_cookie),
{
    reveal(ConnView::conclusion_hs);
    reveal(ConnView::conclusion_exts);
    let second = second_handshake(conn, conn.syn_cookie);
    assert(conn.conclusion_exts() =~= second.extensions);
    assert(conn.conclusion_hs().peer_ip =~= second.peer_ip);
}

proof fn lemma_hello(dest: SocketId, timestamp: u32, hs: HandshakeView)
    ensures
        model::control_bytes(dest, timestamp, ControlView::Handshake(hs)) == hello(
            dest,
            timestamp,
            hs,
        ),
{
    reveal(model::control_bytes);
}

/// A caller answers the listener's first handshake, if that is one, with its second, and
/// goes on sending that one; any other handshake changes nothing.
pub proof fn law_callers_go_on_with_conclusion(
    conn: ConnView,
    datagram: Seq<u8>,
    timestamp: u32,
    dest: SocketId,
    hs: HandshakeView,
    now: u64,
)
    requires
        conn.state == State::Induction,
        0 <= conn.config.latency,
        brings(datagram, timestamp, dest, ControlView::Handshake(hs)),
        hs.handshake_type.reason() is None,
    ensures
        ({
            let after = conn.fed(datagram, now);
            let second = hello(
                SocketId(0),
                stamp(conn.start, now),
                second_handshake(conn, hs.syn_cookie),
            );
            let meant = hs.version == 5 && hs.extension_field == 0x4A17 && hs.handshake_type.0 == 1;
            &&& !meant ==> after == conn
            &&& meant ==> after == (ConnView {
                state: State::Conclusion,
                peer_socket_id: hs.srt_socket_id,
                syn_cookie: hs.syn_cookie,
                last_handshake: Some(second),
                outputs: conn.outputs.push(OutputView::SendDatagram(second)).push(
                    OutputView::SetTimer { id: TimerId::Handshake, after: 250_000_000 },
                ),
                ..conn
            })
        }),
{
    assert(conn.fed(datagram, now) == conn.induction_answered(hs, now)) by {
        reveal(brings);
        reveal(ConnView::fed);
    }
    reveal(ConnView::induction_answered);
    reveal(ConnView::handshake_sent);
    let s = ConnView {
        peer_socket_id: hs.srt_socket_id,
        syn_cookie: hs.syn_cookie,
        state: State::Conclusion,
        ..conn
    };
    lemma_second_handshake(s);
    lemma_hello(SocketId(0), stamp(conn.start, now), s.conclusion_hs());
}

/// The timers of a connection that has come up: reports every 10 ms, loss reports every
/// half timeout or 20 ms, a sign of life every second, and the watch on the peer.
pub open spec fn running_timers(conn: ConnView) -> Seq<OutputView> {
    let half = (conn.rtt.rtt + 4 * conn.rtt.var) / 2;
    seq![
        OutputView::SetTimer { id: TimerId::Ack, after: 10_000_000 },
        OutputView::SetTimer {
            id: TimerId::Nak,
            after: if half > 20_000_000 {
                half
            } else {
                20_000_000
            },
        },
        OutputView::SetTimer { id: TimerId::Keepalive, after: 1_000_000_000 },
        OutputView::SetTimer { id: TimerId::PeerIdle, after: conn.config.peer_idle_timeout },
    ]
}

/// The longer of the own latency and the one that the peer asks for in its handshake
/// extension, in milliseconds.
pub open spec fn agreed_latency(own: int, asked_ms: int) -> int {
    if asked_ms * 1_000_000 > own {
        asked_ms * 1_000_000
    } else {
        own
    }
}

proof fn lemma_connected(conn: ConnView, agreed: NegotiatedView, now: u64)
    requires
        0 <= conn.rtt.rtt <= u64::MAX,
        0 <= conn.rtt.var <= u64::MAX,
    ensures
        conn.connected(agreed, now) == (ConnView {
            state: State::Connected,
            peer_socket_id: agreed.peer_socket_id,
            latency: agreed.latency,
            recv_buffer: RecvView { base: agreed.peer_initial_seq, slots: Seq::empty() },
            last_sent: now,
            last_recv_any: now,
            outputs: conn.outputs + running_timers(conn),
            events: conn.events.push(EventView::Connected(agreed)),
            ..conn
        }),
{
    reveal(ConnView::connected);
    assert(conn.connected(agreed, now).outputs =~= conn.outputs + running_timers(conn));
}

/// The answer to the second handshake brings a caller up: with the longer of the two
/// latencies, expecting the peer's initial sequence number, with its timers running, and
/// with the application told. A handshake that is no such answer changes nothing.
pub proof fn law_conclusion_brings_the_caller_up(
    conn: ConnView,
    datagram: Seq<u8>,
    timestamp: u32,
    dest: SocketId,
    hs: HandshakeView,
    now: u64,
)
    requires
        conn.state == State::Conclusion,
        0 <= conn.rtt.rtt <= u64::MAX,
        0 <= conn.rtt.var <= u64::MAX,
        brings(datagram, timestamp, dest, ControlView::Handshake(hs)),
        hs.handshake_type.reason() is None,
    ensures
        ({
            let after = conn.fed(datagram, now);
            let latency = agreed_latency(
                conn.config.latency,
                model::peer_delay(hs.extensions) as int,
            );
            let meant = hs.version == 5 && hs.handshake_type.0 == 0xFFFF_FFFF;
            &&& !meant ==> after == conn
            &&& meant ==> after == (ConnView {
                state: State::Connected,
                peer_socket_id: hs.srt_socket_id,
                latency,
                recv_buffer: RecvView { base: hs.initial_seq, slots: Seq::empty() },
                last_sent: now,
                last_recv_any: now,
                outputs: conn.outputs.push(OutputView::ClearTimer { id: TimerId::Handshake })
                    + running_timers(conn),
                events: conn.events.push(
                    EventView::Connected(
                        NegotiatedView {
                            peer_socket_id: hs.srt_socket_id,
                            peer_initial_seq: hs.initial_seq,
                            latency,
                            encryption: hs.encryption,
                        },
                    ),
                ),
                ..conn
            })
        }),
{
    assert(conn.fed(datagram, now) == conn.conclusion_answered(hs, now)) by {
        reveal(brings);
        reveal(ConnView::fed);
    }
    reveal(ConnView::conclusion_answered);
    lemma_connected(
        conn.untimed(TimerId::Handshake),
        model::negotiated(conn.config.latency, hs),
        now,
    );
}

/// What the first handshake extension asks for is what counts: the delay that the peer
/// wants as a receiver.
pub proof fn law_first_extension_names_the_delay(exts: Seq<ExtensionView>, i: int)
    requires
        0 <= i < exts.len(),
        forall|j: int|
            0 <= j < i ==> !((#[trigger] exts[j]) is HsReq) && !(exts[j] is HsRsp),
        exts[i] is HsReq || exts[i] is HsRsp,
    ensures
        exts[i] matches ExtensionView::HsReq(hs) ==> model::peer_delay(exts)
            == hs.recv_tsbpd_delay,
        exts[i] matches ExtensionView::HsRsp(hs) ==> model::peer_delay(exts)
            == hs.recv_tsbpd_delay,
    decreases exts.len(),
{
    if i > 0 {
        assert(!(exts[0] is HsReq) && !(exts[0] is HsRsp));
        let rest = exts.skip(1);
        assert forall|j: int| 0 <= j < i - 1 implies !((#[trigger] rest[j]) is HsReq) && !(
        rest[j] is HsRsp) by {
            assert(rest[j] == exts[j + 1]);
        }
        assert(rest[i - 1] == exts[i]);
        law_first_extension_names_the_delay(rest, i - 1);
    }
}

/// A listener's end comes up with its answer: of version 5, concluding, with the agreed
/// latency and the caller's key announcement given back, under the caller's initial
/// sequence number and encryption.
pub proof fn law_acceptors_answer_with_conclusion(
    config: ConfigView,
    id: SocketId,
    hs: HandshakeView,
    now: u64,
)
    requires
        0 <= config.latency,
    ensures
        ({
            let latency = agreed_latency(config.latency, model::peer_delay(hs.extensions) as int);
            ConnView::accepted(config, id, hs, now) matches Ok(conn) ==> {
                let km = conn.key_material;
                let answer = hello(
                    hs.srt_socket_id,
                    0,
                    HandshakeView {
                        version: 5,
                        encryption: hs.encryption,
                        extension_field: if km is Some {
                            3
                        } else {
                            1
                        },
                        initial_seq: hs.initial_seq,
                        mtu: config.mtu,
                        max_flow_window: config.flow_window,
                        handshake_type: HandshakeType(0xFFFF_FFFF),
                        srt_socket_id: id,
                        syn_cookie: 0,
                        peer_ip: Seq::new(16, |i: int| 0u8),
                        extensions: seq![ExtensionView::HsRsp(capabilities(latency))] + (
                        if km is Some {
                            seq![ExtensionView::Raw { ext_type: 4, content: km->0 }]
                        } else {
                            Seq::empty()
                        }),
                    },
                );
                &&& km is Some <==> config.encryption is Some
                &&& km == model::km_request(hs.extensions)
                &&& conn.crypto is Some <==> config.encryption is Some
                &&& conn.outputs == seq![OutputView::SendDatagram(answer)] + running_timers(conn)
                &&& conn.last_handshake == Some(answer)
                &&& conn.state == State::Connected
                &&& conn.side == Side::Acceptor
                &&& conn.latency == latency
                &&& conn.peer_socket_id == hs.srt_socket_id
                &&& conn.recv_buffer == (RecvView { base: hs.initial_seq, slots: Seq::empty() })
                &&& conn.events == seq![
                    EventView::Connected(
                        NegotiatedView {
                            peer_socket_id: hs.srt_socket_id,
                            peer_initial_seq: hs.initial_seq,
                            latency,
                            encryption: hs.encryption,
                        },
                    ),
                ]
                &&& starts(conn, config, id, hs.initial_seq, now)
            }
        }),
{
    reveal(ConnView::accepted);
    reveal(ConnView::fresh);
    match ConnView::accepted(config, id, hs, now) {
        Ok(conn) => {
            let base = ConnView::fresh(
                config,
                id,
                hs.initial_seq,
                now,
                Side::Acceptor,
                State::Conclusion,
            );
            let latency = agreed_latency(config.latency, model::peer_delay(hs.extensions) as int);
            let km = conn.key_material;
            reveal(ConnView::connected);
            let hello_ext = seq![ExtensionView::HsRsp(capabilities(latency))];
            assert(hello_ext + Seq::empty() =~= hello_ext);
            if km is Some {
                let back = ExtensionView::Raw { ext_type: 4, content: km->0 };
                assert(hello_ext + seq![back] =~= hello_ext.push(back));
            }
            let answer = model::response_to(config, id, hs, latency, km);
            assert(answer.peer_ip =~= Seq::new(16, |i: int| 0u8));
            lemma_hello(hs.srt_socket_id, 0, answer);
            assert(conn.outputs =~= seq![OutputView::SendDatagram(conn.last_handshake->0)]
                + running_timers(conn));
            assert(conn.events =~= seq![conn.events[0]]);
        },
        Err(_) => {},
    }
}

/// A handshake that was not answered is sent again every 250 ms as it was, until the
/// connect timeout has passed since the start.
pub proof fn law_handshakes_are_repeated(conn: ConnView, now: u64)
    requires
        conn.state == State::Induction || conn.state == State::Conclusion,
        conn.last_handshake is Some,
        conn.start <= now,
    ensures
        now - conn.start < conn.config.connect_timeout ==> conn.fired(TimerId::Handshake, now) == (
        ConnView {
            outputs: conn.outputs.push(OutputView::SendDatagram(conn.last_handshake->0)).push(
                OutputView::SetTimer { id: TimerId::Handshake, after: 250_000_000 },
            ),
            ..conn
        }),
        now - conn.start >= conn.config.connect_timeout ==> conn.fired(TimerId::Handshake, now)
            == (ConnView {
            state: State::Failed,
            outputs: conn.outputs.push(OutputView::ClearTimer { id: TimerId::Handshake }),
            events: conn.events.push(EventView::Failed(ConnectionError::HandshakeTimeout)),
            ..conn
        }),
{
    reveal(ConnView::fired);
    reveal(ConnView::handshake_fired);
}

/// A caller that asks again because the answer was lost is answered as before, and by
/// nobody but a listener's end.
pub proof fn law_repeated_conclusions_are_answered_again(
    conn: ConnView,
    datagram: Seq<u8>,
    timestamp: u32,
    dest: SocketId,
    hs: HandshakeView,
    now: u64,
)
    requires
        conn.state == State::Connected,
        conn.last_handshake is Some,
        brings(datagram, timestamp, dest, ControlView::Handshake(hs)),
    ensures
        conn.side == Side::Acceptor && hs.handshake_type.0 == 0xFFFF_FFFF ==> conn.fed(
            datagram,
            now,
        ) == (ConnView {
            last_recv_any: now,
            outputs: conn.outputs.push(OutputView::SendDatagram(conn.last_handshake->0)),
            ..conn
        }),
        conn.side != Side::Acceptor || hs.handshake_type.0 != 0xFFFF_FFFF ==> conn.fed(
            datagram,
            now,
        ) == (ConnView { last_recv_any: now, ..conn }),
{
    lemma_control_heard(conn, datagram, timestamp, dest, ControlView::Handshake(hs), now);
    reveal(ConnView::heard);
}

/// While a connection is coming up, nothing but handshakes counts.
pub proof fn law_only_handshakes_count_before_a_connection_is_up(
    conn: ConnView,
    datagram: Seq<u8>,
    p: PacketView,
    now: u64,
)
    requires
        conn.state == State::Induction || conn.state == State::Conclusion,
        PacketView::of_bytes(datagram) == Ok::<PacketView, PacketError>(p),
        !(p matches PacketView::Control { body, .. } && body is Handshake),
    ensures
        conn.fed(datagram, now) == conn,
{
    reveal(ConnView::fed);
}

/// The timers of a connection that is up rest while it is not, and the handshake timer
/// rests once it is.
pub proof fn law_timers_rest_out_of_their_time(conn: ConnView, now: u64)
    ensures
        conn.state != State::Connected ==> {
            &&& conn.fired(TimerId::Ack, now) == conn
            &&& conn.fired(TimerId::Nak, now) == conn
            &&& conn.fired(TimerId::Exp, now) == conn
            &&& conn.fired(TimerId::Keepalive, now) == conn
            &&& conn.fired(TimerId::PeerIdle, now) == conn
        },
        conn.state == State::Connected || conn.state == State::Failed ==> conn.fired(
            TimerId::Handshake,
            now,
        ) == conn,
        !conn.closing ==> conn.fired(TimerId::Linger, now) == conn,
{
    reveal(ConnView::fired);
    reveal(ConnView::ack_fired);
    reveal(ConnView::nak_fired);
    reveal(ConnView::exp_fired);
    reveal(ConnView::keepalive_fired);
    reveal(ConnView::peer_idle_fired);
    reveal(ConnView::handshake_fired);
    reveal(ConnView::linger_fired);
}

/// A refusal ends the attempt at once: the timer is cleared and the application is told
/// the reason, whether it answers the first handshake or the second.
pub proof fn law_refused_callers_fail(
    conn: ConnView,
    datagram: Seq<u8>,
    timestamp: u32,
    dest: SocketId,
    hs: HandshakeView,
    code: u32,
    now: u64,
)
    requires
        conn.state == State::Induction || conn.state == State::Conclusion,
        brings(datagram, timestamp, dest, ControlView::Handshake(hs)),
        hs.handshake_type.0 == 1000 + code,
        1000 + code < 0x8000_0000,
    ensures
        conn.fed(datagram, now) == (ConnView {
            state: State::Failed,
            outputs: conn.outputs.push(OutputView::ClearTimer { id: TimerId::Handshake }),
            events: conn.events.push(
                EventView::Failed(
                    ConnectionError::Rejected(
                        if code == 0 {
                            RejectReason::Unknown
                        } else if code == 8 {
                            RejectReason::Version
                        } else if code == 10 {
                            RejectReason::BadSecret
                        } else if code == 11 {
                            RejectReason::Unsecure
                        } else {
                            RejectReason::Other(code)
                        },
                    ),
                ),
            ),
            ..conn
        }),
{
    assert(conn.state == State::Induction ==> conn.fed(datagram, now) == conn.induction_answered(
        hs,
        now,
    )) by {
        reveal(brings);
        reveal(ConnView::fed);
    }
    assert(conn.state == State::Conclusion ==> conn.fed(datagram, now)
        == conn.conclusion_answered(hs, now)) by {
        reveal(brings);
        reveal(ConnView::fed);
    }
    reveal(ConnView::induction_answered);
    reveal(ConnView::conclusion_answered);
    reveal(ConnView::refused);
}

// ---- staying up ----

/// Every second a connection looks whether it was silent for a second; if so it sends a
/// sign of life. An announced key that the peer has not confirmed is announced again
/// first, sixty times at most.
pub proof fn law_signs_of_life(conn: ConnView, now: u64)
    requires
        conn.state == State::Connected,
        conn.km_retries <= 60,
    ensures
        ({
            let after = conn.fired(TimerId::Keepalive, now);
            let timer = OutputView::SetTimer { id: TimerId::Keepalive, after: 1_000_000_000 };
            let silent = now >= conn.last_sent && now - conn.last_sent >= 1_000_000_000;
            let announced = conn.pending_km is Some && conn.km_retries < 60;
            let again = OutputView::SendDatagram(
                told(
                    conn,
                    ControlView::Raw {
                        control_type: ControlType::UserDefined,
                        subtype: 3,
                        type_specific: 0,
                        cif: conn.pending_km->0,
                    },
                    now,
                ),
            );
            let alive = OutputView::SendDatagram(told(conn, ControlView::Keepalive, now));
            &&& announced ==> after == (ConnView {
                km_retries: (conn.km_retries + 1) as u32,
                last_sent: now,
                outputs: conn.outputs.push(again).push(timer),
                ..conn
            })
            &&& !announced && silent ==> after == (ConnView {
                pending_km: None,
                last_sent: now,
                outputs: conn.outputs.push(alive).push(timer),
                ..conn
            })
            &&& !announced && !silent ==> after == (ConnView {
                pending_km: None,
                outputs: conn.outputs.push(timer),
                ..conn
            })
        }),
{
    reveal(ConnView::fired);
    reveal(ConnView::keepalive_fired);
    reveal(ConnView::km_resent);
    lemma_told(conn, ControlView::Keepalive, now);
    lemma_told(
        conn,
        ControlView::Raw {
            control_type: ControlType::UserDefined,
            subtype: 3,
            type_specific: 0,
            cif: conn.pending_km->0,
        },
        now,
    );
    let s = conn.km_resent(now);
    assert(s.control(ControlView::Keepalive, now) == conn.control(ControlView::Keepalive, now));
}

/// The timers that a connection runs are cleared when it ends.
pub open spec fn stopped_timers() -> Seq<OutputView> {
    seq![
        OutputView::ClearTimer { id: TimerId::Ack },
        OutputView::ClearTimer { id: TimerId::Nak },
        OutputView::ClearTimer { id: TimerId::Exp },
        OutputView::ClearTimer { id: TimerId::Tsbpd },
        OutputView::ClearTimer { id: TimerId::SndPacing },
        OutputView::ClearTimer { id: TimerId::Keepalive },
        OutputView::ClearTimer { id: TimerId::PeerIdle },
    ]
}

/// A peer that was silent for the whole idle timeout is given up: the connection fails,
/// its timers are cleared, and the application is told. Until then the watch is set for
/// the rest of the time.
pub proof fn law_idle_peers_are_given_up(conn: ConnView, now: u64)
    requires
        conn.state == State::Connected,
        conn.last_recv_any <= now,
    ensures
        ({
            let after = conn.fired(TimerId::PeerIdle, now);
            let idle = now - conn.last_recv_any;
            &&& idle >= conn.config.peer_idle_timeout ==> after == (ConnView {
                state: State::Failed,
                outputs: conn.outputs + stopped_timers(),
                events: conn.events.push(EventView::Failed(ConnectionError::Timeout)),
                ..conn
            })
            &&& idle < conn.config.peer_idle_timeout ==> after == (ConnView {
                outputs: conn.outputs.push(
                    OutputView::SetTimer {
                        id: TimerId::PeerIdle,
                        after: conn.config.peer_idle_timeout - idle,
                    },
                ),
                ..conn
            })
        }),
{
    reveal(ConnView::fired);
    reveal(ConnView::peer_idle_fired);
    lemma_timers_cleared(ConnView { state: State::Failed, ..conn });
}

proof fn lemma_timers_cleared(conn: ConnView)
    ensures
        conn.timers_cleared() == (ConnView { outputs: conn.outputs + stopped_timers(), ..conn }),
{
    reveal(ConnView::timers_cleared);
    assert(conn.timers_cleared().outputs =~= conn.outputs + stopped_timers());
}

// ---- ending ----

/// A connection once it has ended on its own account: the peer is told, every timer is
/// cleared, and the application is told.
pub open spec fn ended(conn: ConnView, now: u64) -> ConnView {
    ConnView {
        state: State::Failed,
        closing: false,
        outputs: conn.outputs + seq![
            OutputView::SendDatagram(told(conn, ControlView::Shutdown, now)),
        ] + stopped_timers() + seq![OutputView::ClearTimer { id: TimerId::Linger }],
        events: conn.events.push(EventView::Closed),
        ..conn
    }
}

proof fn lemma_shut_down(conn: ConnView, now: u64)
    ensures
        conn.shut_down(now) == ended(conn, now),
{
    reveal(ConnView::shut_down);
    lemma_told(conn, ControlView::Shutdown, now);
    lemma_timers_cleared(conn.datagram(conn.control(ControlView::Shutdown, now)));
    assert(conn.shut_down(now).outputs =~= ended(conn, now).outputs);
}

/// A close ends a connection at once if everything sent is acknowledged and nothing is
/// queued; otherwise it waits for that, for the linger time at most. A connection that
/// is not up ends without telling the peer.
pub proof fn law_close_ends_the_connection(conn: ConnView, now: u64)
    requires
        !conn.closing,
    ensures
        ({
            let after = conn.close_asked(now);
            let idle = conn.send_buffer.len() == 0 && conn.send_queue.len() == 0;
            &&& conn.state == State::Connected && idle ==> after == ended(conn, now)
            &&& conn.state == State::Connected && !idle ==> after == (ConnView {
                closing: true,
                outputs: conn.outputs.push(
                    OutputView::SetTimer { id: TimerId::Linger, after: conn.config.linger },
                ),
                ..conn
            })
            &&& conn.state == State::Induction || conn.state == State::Conclusion ==> after == (
            ConnView {
                state: State::Failed,
                events: conn.events.push(EventView::Closed),
                ..conn
            })
            &&& conn.state == State::Failed ==> after == conn
        }),
{
    reveal(ConnView::close_asked);
    lemma_shut_down(conn, now);
}

/// A waiting close ends the connection when the linger time is over, and before that as
/// soon as the last packet is acknowledged.
pub proof fn law_waiting_closes_end(conn: ConnView, now: u64)
    requires
        conn.closing,
    ensures
        conn.fired(TimerId::Linger, now) == ended(conn, now),
        conn.send_buffer.len() == 0 && conn.send_queue.len() == 0 ==> conn.closed_if_drained(now)
            == ended(conn, now),
        conn.send_buffer.len() > 0 || conn.send_queue.len() > 0 ==> conn.closed_if_drained(now)
            == conn,
{
    reveal(ConnView::fired);
    reveal(ConnView::linger_fired);
    reveal(ConnView::closed_if_drained);
    lemma_shut_down(conn, now);
}

/// When the peer ends the connection, everything up to the first gap is handed over in
/// order, whether it is due or not, the timers are cleared, and the application is told.
pub proof fn law_peer_ends_the_connection(
    conn: ConnView,
    datagram: Seq<u8>,
    timestamp: u32,
    dest: SocketId,
    now: u64,
)
    requires
        conn.state == State::Connected,
        brings(datagram, timestamp, dest, ControlView::Shutdown),
    ensures
        ({
            let after = conn.fed(datagram, now);
            let flushed = (ConnView { last_recv_any: now, ..conn }).flushed();
            after == (ConnView {
                state: State::Failed,
                outputs: flushed.outputs + stopped_timers(),
                events: flushed.events.push(EventView::Closed),
                ..flushed
            })
        }),
{
    lemma_control_heard(conn, datagram, timestamp, dest, ControlView::Shutdown, now);
    reveal(ConnView::heard);
    reveal(ConnView::peer_closed);
    let flushed = (ConnView { last_recv_any: now, ..conn }).flushed();
    lemma_timers_cleared(ConnView { state: State::Failed, ..flushed });
}

/// Flushing hands over the packet at the front and goes on, or stops at a gap.
pub proof fn law_flushing_hands_over_the_front(conn: ConnView)
    requires
        conn.recv_buffer.wf(),
    ensures
        conn.recv_buffer.slots.len() == 0 || conn.recv_buffer.slots[0] is None ==> conn.flushed()
            == conn,
        conn.recv_buffer.slots.len() > 0 && conn.recv_buffer.slots[0] is Some ==> conn.flushed()
            == (ConnView {
            recv_buffer: RecvView {
                base: ((conn.recv_buffer.base + 1) % 0x8000_0000) as u32,
                slots: conn.recv_buffer.slots.skip(1),
            },
            ..conn
        }).handed(conn.recv_buffer.slots[0]->0).flushed(),
{
    reveal(ConnView::flushed);
}

// ---- what the application sees ----

/// The gauges say what is there: the round trip and its variance in microseconds, how
/// many packets are unacknowledged, how many wait for delivery, the rates, how many wait
/// to be sent or acknowledged, and the agreed latency in milliseconds.
pub proof fn law_gauges_say_what_is_there(conn: ConnView)
    ensures
        ({
            let s = conn.snapshot();
            let (packets, bytes) = rate::rate_of(conn.rate.intervals, conn.rate.sizes);
            s == (Stats {
                rtt_us: arith::clamp_u32(conn.rtt.rtt / 1_000),
                rtt_var_us: arith::clamp_u32(conn.rtt.var / 1_000),
                flight_size: arith::clamp_u32(conn.send_buffer.len() as int),
                recv_buffer_packets: arith::clamp_u32(
                    recv_buffer::present(conn.recv_buffer.slots) as int,
                ),
                recv_rate_pps: packets,
                recv_rate_bps: bytes,
                link_capacity_pps: rate::peak_of(conn.rate.intervals),
                send_buffer_packets: arith::clamp_u32(
                    (conn.send_buffer.len() + conn.send_queue.len()) as int,
                ),
                latency_ms: arith::clamp_u32(conn.latency / 1_000_000),
                ..conn.stats
            })
        }),
{
    reveal(ConnView::snapshot);
}

/// A packet handed over adds to the message in progress, and the message that it
/// completes, if any, is an event behind the others.
pub proof fn law_completed_messages_are_events(conn: ConnView, p: DataView)
    ensures
        conn.handed(p) == (ConnView {
            reassembler: conn.reassembler.pushed(p),
            events: match conn.reassembler.completes(p) {
                Some(message) => conn.events.push(EventView::DataReceived(message)),
                None => conn.events,
            },
            ..conn
        }),
{
    reveal(ConnView::handed);
}

/// The delivery timer delivers whatever is due, and nothing while nothing is.
pub proof fn law_delivery_timer_delivers(conn: ConnView, p: DataView, at: u64, now: u64)
    requires
        conn.recv_buffer.next() == Some(p),
        conn.play_time(p.timestamp) == Some(at),
    ensures
        conn.fired(TimerId::Tsbpd, now) == conn.delivered(now),
        now < at ==> conn.fired(TimerId::Tsbpd, now) == (ConnView {
            outputs: conn.outputs.push(
                OutputView::SetTimer { id: TimerId::Tsbpd, after: at - now },
            ),
            ..conn
        }),
{
    reveal(ConnView::fired);
    reveal(ConnView::delivered);
}

// ---- messages about keys ----

/// A control datagram about a key.
pub open spec fn key_message(conn: ConnView, subtype: u16, km: Seq<u8>, now: u64) -> OutputView {
    OutputView::SendDatagram(
        told(
            conn,
            ControlView::Raw {
                control_type: ControlType::UserDefined,
                subtype,
                type_specific: 0,
                cif: km,
            },
            now,
        ),
    )
}

/// A fresh key from the application is taken once it was asked for: it is announced under
/// the connection's passphrase, cipher and salt for the slot that is not in use, is
/// installed there, and waits for the peer's confirmation. Without a request it changes
/// nothing.
pub proof fn law_fresh_keys_are_announced(conn: ConnView, sek: Seq<u8>, now: u64)
    ensures
        ({
            let after = conn.rekeyed(sek, now);
            let wanted = conn.rekey_pending && conn.config.encryption is Some && conn.crypto is Some;
            let c = conn.crypto->0;
            let km = KmView {
                key_flags: if c.active == Encryption::Odd {
                    KeyFlags::Even
                } else {
                    KeyFlags::Odd
                },
                cipher: c.slot(c.active)->0.mode,
                key_length: sek.len() as u8,
                salt: c.salt()->0,
                wrapped: wrap::aes_wrap(
                    kek::kek_of(conn.config.encryption->0.passphrase, c.salt()->0, sek.len()),
                    sek,
                ),
            };
            let keys = KeysView { salt: c.salt()->0, sek, mode: c.slot(c.active)->0.mode };
            &&& !wanted ==> after == conn
            &&& wanted ==> after == (ConnView {
                crypto: Some(
                    CryptoView {
                        even: if c.active == Encryption::Odd {
                            Some(keys)
                        } else {
                            c.even
                        },
                        odd: if c.active == Encryption::Odd {
                            c.odd
                        } else {
                            Some(keys)
                        },
                        active: c.active,
                    },
                ),
                rekey_pending: false,
                pending_km: Some(km.bytes()),
                km_retries: 0,
                last_sent: now,
                outputs: conn.outputs.push(key_message(conn, 3, km.bytes(), now)),
                ..conn
            })
        }),
{
    reveal(ConnView::rekeyed);
    reveal(ConnView::next_km);
    lemma_told(
        conn,
        ControlView::Raw {
            control_type: ControlType::UserDefined,
            subtype: 3,
            type_specific: 0,
            cif: conn.next_km(sek),
        },
        now,
    );
}

/// A key that the peer announces is installed if it opens with the passphrase, and is
/// confirmed by giving the announcement back; what does not open changes nothing. The
/// peer's confirmation of the key that was announced makes it ready; any other echo
/// changes nothing.
pub proof fn law_announced_keys_are_confirmed(
    conn: ConnView,
    datagram: Seq<u8>,
    timestamp: u32,
    dest: SocketId,
    subtype: u16,
    type_specific: u32,
    cif: Seq<u8>,
    now: u64,
)
    requires
        conn.state == State::Connected,
        brings(
            datagram,
            timestamp,
            dest,
            ControlView::Raw {
                control_type: ControlType::UserDefined,
                subtype,
                type_specific,
                cif,
            },
        ),
    ensures
        ({
            let after = conn.fed(datagram, now);
            let heard = ConnView { last_recv_any: now, ..conn };
            let able = conn.config.encryption is Some && conn.crypto is Some;
            let km = KmView::of_bytes(cif);
            let slots = SlotsView::unwrapped(km->Ok_0, conn.config.encryption->0.passphrase);
            &&& subtype != 3 && subtype != 4 ==> after == heard
            &&& subtype == 3 && !(able && km is Ok && slots is Ok) ==> after == heard
            &&& subtype == 3 && able && km is Ok && slots is Ok ==> after == (ConnView {
                crypto: Some(
                    CryptoView {
                        even: if slots->Ok_0.even is Some {
                            slots->Ok_0.even
                        } else {
                            conn.crypto->0.even
                        },
                        odd: if slots->Ok_0.odd is Some {
                            slots->Ok_0.odd
                        } else {
                            conn.crypto->0.odd
                        },
                        active: conn.crypto->0.active,
                    },
                ),
                last_sent: now,
                outputs: conn.outputs.push(key_message(conn, 4, cif, now)),
                ..heard
            })
            &&& subtype == 4 && conn.pending_km == Some(cif) ==> after == (ConnView {
                pending_km: None,
                next_key_ready: true,
                ..heard
            })
            &&& subtype == 4 && conn.pending_km != Some(cif) ==> after == heard
        }),
{
    let body = ControlView::Raw {
        control_type: ControlType::UserDefined,
        subtype,
        type_specific,
        cif,
    };
    lemma_control_heard(conn, datagram, timestamp, dest, body, now);
    reveal(ConnView::heard);
    reveal(ConnView::km_requested);
    reveal(ConnView::km_confirmed);
    lemma_told(
        conn,
        ControlView::Raw {
            control_type: ControlType::UserDefined,
            subtype: 4,
            type_specific: 0,
            cif,
        },
        now,
    );
}

/// Of the key announcements in a handshake the first one counts, which has extension type
/// 3; without one there is none.
pub proof fn law_first_key_announcement_counts(exts: Seq<ExtensionView>, i: int)
    requires
        0 <= i <= exts.len(),
        forall|j: int|
            0 <= j < i ==> !((#[trigger] exts[j]) matches ExtensionView::Raw { ext_type, .. }
                && ext_type == 3),
        i < exts.len() ==> (exts[i] matches ExtensionView::Raw { ext_type, .. } && ext_type == 3),
    ensures
        i < exts.len() ==> model::km_request(exts) == Some(exts[i]->content),
        i == exts.len() ==> model::km_request(exts) is None,
    decreases exts.len(),
{
    if i > 0 {
        assert(!(exts[0] matches ExtensionView::Raw { ext_type, .. } && ext_type == 3));
        let rest = exts.skip(1);
        assert forall|j: int| 0 <= j < i - 1 implies !((
        #[trigger] rest[j]) matches ExtensionView::Raw { ext_type, .. } && ext_type == 3) by {
            assert(rest[j] == exts[j + 1]);
        }
        if i < exts.len() {
            assert(rest[i - 1] == exts[i]);
        }
        law_first_key_announcement_counts(rest, i - 1);
    }
}

// ---- what is only a sign of life ----

/// Keepalives, congestion warnings and peer errors are signs of life and nothing else.
pub proof fn law_some_packets_are_only_signs_of_life(
    conn: ConnView,
    datagram: Seq<u8>,
    timestamp: u32,
    dest: SocketId,
    body: ControlView,
    now: u64,
)
    requires
        conn.state == State::Connected,
        body is Keepalive || body is CongestionWarning || body is PeerError,
        brings(datagram, timestamp, dest, body),
    ensures
        conn.fed(datagram, now) == (ConnView { last_recv_any: now, ..conn }),
{
    lemma_control_heard(conn, datagram, timestamp, dest, body, now);
    reveal(ConnView::heard);
}

/// The acknowledgement of the last packets ends a connection whose close waits for it: the
/// timer is cleared, the peer and the application are told, and the acknowledgement is
/// answered unless it is a light one.
pub proof fn law_last_acknowledgement_ends_a_waiting_close(
    conn: ConnView,
    datagram: Seq<u8>,
    timestamp: u32,
    dest: SocketId,
    ack_number: u32,
    last_ack_seq: u32,
    cif: AckCif,
    now: u64,
)
    requires
        conn.wf(),
        conn.state == State::Connected,
        conn.closing,
        conn.send_queue.len() == 0,
        last_ack_seq < 0x8000_0000,
        conn.send_buffer.len() <= 0x3FFF_FFFF,
        covers(conn.send_buffer, last_ack_seq, conn.send_buffer.len() as int),
        brings(datagram, timestamp, dest, ControlView::Ack { ack_number, last_ack_seq, cif }),
    ensures
        ({
            let after = conn.fed(datagram, now);
            let idle = ConnView {
                outputs: conn.outputs.push(OutputView::ClearTimer { id: TimerId::Exp }),
                ..conn
            };
            let answer = OutputView::SendDatagram(
                told(conn, ControlView::AckAck { ack_number }, now),
            );
            &&& after.state == State::Failed
            &&& !after.closing
            &&& after.send_buffer.len() == 0
            &&& after.events == conn.events.push(EventView::Closed)
            &&& after.outputs == (if cif is Light {
                ended(idle, now).outputs
            } else {
                ended(idle, now).outputs.push(answer)
            })
        }),
{
    lemma_control_heard(
        conn,
        datagram,
        timestamp,
        dest,
        ControlView::Ack { ack_number, last_ack_seq, cif },
        now,
    );
    reveal(ConnView::heard);
    reveal(ConnView::ack_heard);
    reveal(ConnView::released);
    reveal(ConnView::exp_restarted);
    reveal(ConnView::closed_if_drained);
    let s = conn.send_buffer;
    let alive = ConnView { last_recv_any: now, ..conn };
    let freed = alive.released(last_ack_seq, cif);
    assert(send_buffer::contiguous(s)) by {
        reveal(model::buffer_ok);
    }
    send_buffer::law_ack_releases_all_before(s, last_ack_seq);
    assert(freed.send_buffer.len() == 0) by {
        if s.len() > 0 {
            let n = send_buffer::acked_count(s, last_ack_seq);
            if n < s.len() {
                assert(crate::seq::seq_offset(s[n].packet.seq, last_ack_seq) < 0);
            }
        }
    }
    assert(freed.late_dropped(now) == freed) by {
        reveal(ConnView::late_dropped);
    }
    let t = freed.exp_restarted();
    lemma_shut_down(t, now);
    lemma_told(conn, ControlView::AckAck { ack_number }, now);
    let idle = ConnView {
        outputs: conn.outputs.push(OutputView::ClearTimer { id: TimerId::Exp }),
        ..conn
    };
    assert(told(t, ControlView::Shutdown, now) == told(idle, ControlView::Shutdown, now));
    assert(ended(t, now).outputs == ended(idle, now).outputs);
}

/// Either both ends encrypt or neither does: a caller without a key is let in where none is
/// asked for, and one with a key where it opens with the passphrase; every other one is
/// turned away for what is wrong with it.
pub proof fn law_both_ends_encrypt_or_neither(
    encryption: Option<EncryptionView>,
    exts: Seq<ExtensionView>,
)
    ensures
        ({
            let sent = model::km_request(exts);
            let km = KmView::of_bytes(sent->0);
            let slots = SlotsView::unwrapped(km->Ok_0, encryption->0.passphrase);
            let admitted = model::admission(encryption, exts);
            &&& encryption is None && sent is None ==> admitted == Ok::<
                Option<(SlotsView, Seq<u8>)>,
                CryptoError,
            >(None)
            &&& encryption is None && sent is Some ==> admitted == Err::<
                Option<(SlotsView, Seq<u8>)>,
                CryptoError,
            >(CryptoError::UnexpectedKeyMaterial)
            &&& encryption is Some && sent is None ==> admitted == Err::<
                Option<(SlotsView, Seq<u8>)>,
                CryptoError,
            >(CryptoError::MissingKeyMaterial)
            &&& encryption is Some && sent is Some && km is Err ==> admitted is Err
                && admitted->Err_0 == km->Err_0
            &&& encryption is Some && sent is Some && km is Ok && slots is Err ==> admitted is Err
                && admitted->Err_0 == slots->Err_0
            &&& encryption is Some && sent is Some && km is Ok && slots is Ok ==> admitted is Ok
                && admitted->Ok_0 == Some((slots->Ok_0, sent->0))
        }),
{
}

} // verus!
