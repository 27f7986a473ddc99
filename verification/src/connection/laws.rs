//! What holds of a connection across its steps.

use crate::connection::config::ConfigView;
use crate::connection::event::{EventView, OutputView, TimerId};
use crate::connection::message;
use crate::connection::message::FragmentView;
use crate::connection::model;
use crate::connection::model::ConnView;
use crate::connection::{Connection, State};
use crate::control::{AckCif, ControlType, ControlView};
use crate::crypto;
use crate::crypto::key_material;
use crate::crypto::key_material::KeyFlags;
use crate::crypto::{CryptoView, KeysView, SlotsView};
use crate::error::{ConnectionError, PacketError};
use crate::fec;
use crate::fec::{FecFields, RecoveredView};
use crate::handshake::{ExtensionView, HandshakeView};
use crate::packet;
use crate::packet::{DataView, Encryption, PacketPosition, PacketView, SocketId};
use crate::recv_buffer;
use crate::recv_buffer::RecvView;
use crate::send_buffer;
use crate::send_buffer::SentView;
use crate::stats::Stats;
use crate::timestamp;
use vstd::prelude::*;

verus! {

// ---- setting up ----

/// The agreed latency is the longer of the two, so it is never shorter than what
/// either end asked for.
pub proof fn law_agreed_latency_is_the_longer(local: int, hs: HandshakeView)
    ensures
        model::negotiated(local, hs).latency >= local,
        model::negotiated(local, hs).latency >= model::peer_delay(hs.extensions) * 1_000_000,
        model::negotiated(local, hs).latency == local || model::negotiated(local, hs).latency
            == model::peer_delay(hs.extensions) * 1_000_000,
{
}

proof fn lemma_conclusion(caller: ConnView)
    ensures
        model::peer_delay(caller.conclusion_exts()) == model::latency_ms(caller.config.latency),
        caller.config.encryption is None ==> model::km_request(caller.conclusion_exts()) is None,
        caller.config.encryption is Some ==> model::km_request(caller.conclusion_exts())
            == caller.key_material,
{
    reveal(ConnView::conclusion_exts);
    reveal_with_fuel(model::km_request, 4);
    let exts = caller.conclusion_exts();
    if exts.len() > 1 {
        assert(exts.skip(1)[0] == exts[1]);
        assert(exts.skip(1).skip(1) =~= exts.skip(2));
    }
    if exts.len() > 2 {
        assert(exts.skip(2)[0] == exts[2]);
        assert(exts.skip(2).skip(1) =~= exts.skip(3));
    }
}

/// A caller and a listener that lets it in agree: both ends are up, each knows
/// the other's socket id, both number their packets from the caller's first
/// sequence number, and the listener's end has the longer of the two latencies.
/// What the caller answers with is the listener's answer to it.
pub proof fn law_handshake_brings_both_ends_up(
    caller: ConnView,
    config: ConfigView,
    id: SocketId,
    now: u64,
    then: u64,
)
    requires
        model::admission(config.encryption, caller.conclusion_exts()) is Ok,
    ensures
        ({
            let hs = caller.conclusion_hs();
            let asked = model::latency_ms(caller.config.latency) * 1_000_000;
            let end = ConnView::accepted(config, id, hs, now)->Ok_0;
            let km = match model::admission(config.encryption, hs.extensions)->Ok_0 {
                Some((_, content)) => Some(content),
                None => None,
            };
            let response = model::response_to(config, id, hs, end.latency, km);
            let up = caller.conclusion_answered(response, then);
            &&& ConnView::accepted(config, id, hs, now) is Ok
            &&& end.state == State::Connected
            &&& end.peer_socket_id == caller.local_socket_id
            &&& end.next_send_seq == caller.initial_seq
            &&& end.recv_buffer.base == caller.initial_seq
            &&& end.latency == (if asked > config.latency {
                asked
            } else {
                config.latency
            })
            &&& end.outputs[0] == OutputView::SendDatagram(
                model::control_bytes(
                    caller.local_socket_id,
                    model::wire_ts(now, now),
                    ControlView::Handshake(response),
                ),
            )
            &&& up.state == State::Connected
            &&& up.peer_socket_id == id
            &&& up.recv_buffer.base == caller.initial_seq
            &&& up.latency >= caller.config.latency
            &&& up.latency >= model::latency_ms(end.latency) * 1_000_000
        }),
{
    reveal(ConnView::accepted);
    reveal(ConnView::fresh);
    reveal(ConnView::connected);
    reveal(ConnView::conclusion_hs);
    reveal(ConnView::conclusion_answered);
    lemma_conclusion(caller);
    let hs = caller.conclusion_hs();
    let end = ConnView::accepted(config, id, hs, now)->Ok_0;
    let km = match model::admission(config.encryption, hs.extensions)->Ok_0 {
        Some((_, content)) => Some(content),
        None => None,
    };
    let response = model::response_to(config, id, hs, end.latency, km);
    assert(response.extensions[0] == ExtensionView::HsRsp(
        model::srt_ext(model::latency_ms(end.latency)),
    ));
    assert(model::peer_delay(response.extensions) == model::latency_ms(end.latency));
}

/// Whether a caller announces the keys that it uses, and the passphrase opens the
/// announcement.
pub open spec fn announces(caller: ConnView, keys: KeysView) -> bool {
    &&& caller.config.encryption matches Some(enc) && {
        &&& model::announcement_opens(enc.passphrase, KeyFlags::Even, keys)
        &&& caller.key_material == Some(
            crypto::announced(
                enc.passphrase,
                KeyFlags::Even,
                keys.mode,
                keys.salt,
                keys.sek,
            ).bytes(),
        )
    }
    &&& caller.crypto == Some(CryptoView::starting(SlotsView::single(KeyFlags::Even, keys)))
}

/// A caller that encrypts announces its keys from the start, and still does when it
/// sends its second handshake.
pub proof fn law_callers_announce_their_key(
    config: ConfigView,
    id: SocketId,
    initial_seq: u32,
    start: u64,
    salt: Seq<u8>,
    sek: Seq<u8>,
    hs: HandshakeView,
    now: u64,
)
    requires
        config.encryption is Some,
        model::announcement_opens(
            config.encryption->0.passphrase,
            KeyFlags::Even,
            (KeysView { salt, sek, mode: config.encryption->0.cipher }),
        ),
    ensures
        ({
            let keys = KeysView { salt, sek, mode: config.encryption->0.cipher };
            let caller = ConnView::calling(config, id, initial_seq, start, salt, sek);
            &&& announces(caller, keys)
            &&& announces(caller.induction_answered(hs, now), keys)
            &&& announces(caller.fired(TimerId::Handshake, now), keys)
        }),
{
    reveal(ConnView::calling);
    reveal(ConnView::fresh);
    reveal(ConnView::inducted);
    reveal(ConnView::handshake_sent);
    reveal(ConnView::induction_answered);
    reveal(ConnView::refused);
    reveal(ConnView::fired);
    reveal(ConnView::handshake_fired);
}

/// A listener with the caller's passphrase lets it in, whatever cipher and key size
/// the listener itself is configured for, and the two ends hold the same key: each
/// can read what the other sends.
pub proof fn law_one_passphrase_makes_one_key(
    caller: ConnView,
    keys: KeysView,
    config: ConfigView,
    id: SocketId,
    now: u64,
    then: u64,
)
    requires
        announces(caller, keys),
        config.encryption is Some,
        config.encryption->0.passphrase == caller.config.encryption->0.passphrase,
    ensures
        ({
            let hs = caller.conclusion_hs();
            let end = ConnView::accepted(config, id, hs, now)->Ok_0;
            let response = model::response_to(config, id, hs, end.latency, caller.key_material);
            let up = caller.conclusion_answered(response, then);
            &&& model::admission(config.encryption, caller.conclusion_exts()) is Ok
            &&& ConnView::accepted(config, id, hs, now) is Ok
            &&& end.crypto == caller.crypto
            &&& end.crypto->0.mode() == keys.mode
            &&& shares_the_key(caller, end) && shares_the_key(end, caller)
            &&& up.state == State::Connected
            &&& shares_the_key(up, end) && shares_the_key(end, up)
        }),
{
    let enc = caller.config.encryption->0;
    let km = crypto::announced(enc.passphrase, KeyFlags::Even, keys.mode, keys.salt, keys.sek);
    key_material::law_key_material_round_trips(km);
    lemma_conclusion(caller);
    law_handshake_brings_both_ends_up(caller, config, id, now, then);
    reveal(ConnView::accepted);
    reveal(ConnView::fresh);
    reveal(ConnView::connected);
    reveal(ConnView::conclusion_hs);
    reveal(ConnView::conclusion_answered);
}

/// A refusal ends the attempt at once, and the application learns the reason.
pub proof fn law_refusal_fails_fast(caller: ConnView, hs: HandshakeView, now: u64)
    requires
        hs.handshake_type.reason() is Some,
    ensures
        caller.induction_answered(hs, now) == caller.refused(hs.handshake_type.reason()->0),
        caller.conclusion_answered(hs, now) == caller.refused(hs.handshake_type.reason()->0),
        caller.refused(hs.handshake_type.reason()->0).state == State::Failed,
        caller.refused(hs.handshake_type.reason()->0).events == caller.events.push(
            EventView::Failed(
                crate::error::ConnectionError::Rejected(hs.handshake_type.reason()->0),
            ),
        ),
{
    reveal(ConnView::induction_answered);
    reveal(ConnView::conclusion_answered);
    reveal(ConnView::refused);
}

/// A datagram that does not decode changes nothing.
pub proof fn law_malformed_datagrams_are_dropped(conn: ConnView, datagram: Seq<u8>, now: u64)
    requires
        PacketView::of_bytes(datagram) is Err,
    ensures
        conn.fed(datagram, now) == conn,
{
    reveal(ConnView::fed);
}

/// Once a connection has failed or is closed, nothing that arrives changes it, and
/// a close does not either.
pub proof fn law_failed_is_final(conn: ConnView, datagram: Seq<u8>, now: u64)
    requires
        conn.state == State::Failed,
    ensures
        conn.fed(datagram, now) == conn,
        conn.close_asked(now) == conn,
        conn.fired(TimerId::Handshake, now) == conn,
        conn.fired(TimerId::Ack, now) == conn,
        conn.fired(TimerId::Nak, now) == conn,
        conn.fired(TimerId::Exp, now) == conn,
        conn.fired(TimerId::Keepalive, now) == conn,
        conn.fired(TimerId::PeerIdle, now) == conn,
{
    reveal(ConnView::fed);
    reveal(ConnView::close_asked);
    reveal(ConnView::fired);
    reveal(ConnView::handshake_fired);
    reveal(ConnView::ack_fired);
    reveal(ConnView::nak_fired);
    reveal(ConnView::exp_fired);
    reveal(ConnView::keepalive_fired);
    reveal(ConnView::peer_idle_fired);
}

/// Every connection keeps its bounds: the retransmission timeout grows no more
/// than eightfold, at most sixteen acknowledgements wait for their answer, the
/// reorder tolerance never exceeds its limit, and the packets held are
/// consecutive up to the next one.
pub proof fn law_connections_keep_their_bounds(conn: Connection)
    requires
        conn.wf(),
    ensures
        conn@.wf(),
        1 <= conn@.exp_count <= model::MAX_EXP_COUNT,
        conn@.pending_acks.len() <= model::MAX_PENDING_ACKS,
        conn@.reorder_tolerance <= model::MAX_REORDER_TOLERANCE,
        conn@.km_retries <= model::MAX_KM_RETRIES,
        crate::send_buffer::contiguous(conn@.send_buffer),
        conn@.recv_buffer.wf(),
{
    reveal(model::buffer_ok);
    conn.lemma_parts();
}

// ---- sending ----

/// Every packet that is held was sent in a form that decodes to it, and so does
/// its retransmission, which differs in the flag alone.
pub proof fn law_held_packets_decode(conn: ConnView, i: int)
    requires
        conn.wf(),
        0 <= i < conn.send_buffer.len(),
    ensures
        ({
            let p = conn.send_buffer[i].packet;
            let again = DataView { retransmitted: true, ..p };
            &&& PacketView::of_bytes(PacketView::Data(p).bytes()) == Ok::<PacketView, PacketError>(
                PacketView::Data(p),
            )
            &&& PacketView::of_bytes(PacketView::Data(again).bytes()) == Ok::<
                PacketView,
                PacketError,
            >(PacketView::Data(again))
        }),
{
    reveal(model::buffer_ok);
    let p = conn.send_buffer[i].packet;
    assert(p.in_range());
    packet::law_packet_round_trips(PacketView::Data(p));
    packet::law_packet_round_trips(PacketView::Data(DataView { retransmitted: true, ..p }));
}

/// A retransmission decrypts as the original does: what is authenticated leaves
/// the flag out.
pub proof fn law_retransmission_decrypts_as_the_original(peer: ConnView, p: DataView)
    ensures
        peer.clear_payload(DataView { retransmitted: true, ..p }) == peer.clear_payload(
            DataView { retransmitted: false, ..p },
        ),
{
    reveal(ConnView::clear_payload);
}

/// A retransmission keeps everything of the packet but its flag, its timestamp
/// included, and is counted.
pub proof fn law_retransmission_keeps_the_packet(conn: ConnView, i: int, now: u64)
    requires
        0 <= i < conn.send_buffer.len(),
    ensures
        ({
            let p = conn.send_buffer[i].packet;
            let after = conn.resent_at(i, now);
            &&& after.outputs == conn.outputs.push(
                OutputView::SendDatagram(
                    PacketView::Data(DataView { retransmitted: true, ..p }).bytes(),
                ),
            )
            &&& after.send_buffer.len() == conn.send_buffer.len()
            &&& after.send_buffer[i].packet == p
            &&& after.next_send_seq == conn.next_send_seq
        }),
{
    reveal(ConnView::resent_at);
}

/// A full acknowledgement is answered under its number, a light one is not.
pub proof fn law_full_acknowledgements_are_answered(
    conn: ConnView,
    ack_number: u32,
    last_ack_seq: u32,
    cif: AckCif,
    now: u64,
)
    ensures
        ({
            let light = conn.ack_heard(ack_number, last_ack_seq, AckCif::Light, now);
            let after = conn.ack_heard(ack_number, last_ack_seq, cif, now);
            &&& !(cif is Light) ==> after.outputs.len() > 0 && after.outputs.last()
                == OutputView::SendDatagram(after.control(ControlView::AckAck { ack_number }, now))
            &&& cif is Light ==> after == light
        }),
{
    reveal(ConnView::ack_heard);
}

/// The window closes with as many packets outstanding as it is wide, or as the
/// peer has room for.
pub proof fn law_full_window_stops_the_sender(conn: ConnView)
    ensures
        conn.send_buffer.len() >= conn.config.flow_window ==> !conn.window_open(),
        conn.send_buffer.len() >= conn.peer_avail_window ==> !conn.window_open(),
        conn.peer_avail_window == 0 ==> !conn.window_open(),
{
}

/// What the sender gives up is older than the age at which it may, is counted,
/// and is named to the peer; everything younger is kept.
pub proof fn law_given_up_packets_are_announced(conn: ConnView, now: u64)
    ensures
        ({
            let n = model::late_count(conn.send_buffer, conn.ts(now), conn.drop_budget()) as int;
            let after = conn.late_dropped(now);
            &&& 0 <= n <= conn.send_buffer.len()
            &&& forall|i: int|
                0 <= i < n ==> timestamp::ts_diff(
                    conn.ts(now),
                    (#[trigger] conn.send_buffer[i]).packet.timestamp,
                ) > conn.drop_budget()
            &&& after.send_buffer == conn.send_buffer.skip(n)
            &&& after.stats.packets_dropped_sent == model::bump(conn.stats.packets_dropped_sent, n)
            &&& n == 0 ==> after == conn
            &&& n > 0 ==> after.outputs.len() > conn.outputs.len()
                && after.outputs[conn.outputs.len() as int] == OutputView::SendDatagram(
                conn.control(
                    ControlView::DropReq {
                        message_number: conn.send_buffer[n - 1].packet.message_number,
                        first: conn.send_buffer[0].packet.seq,
                        last: conn.send_buffer[n - 1].packet.seq,
                    },
                    now,
                ),
            )
        }),
{
    reveal(ConnView::late_dropped);
    reveal(ConnView::shed);
    lemma_late_count(conn.send_buffer, conn.ts(now), conn.drop_budget());
    assert(conn.send_buffer.skip(0) =~= conn.send_buffer);
}

proof fn lemma_late_count(s: Seq<SentView>, ts: u32, budget: int)
    ensures
        model::late_count(s, ts, budget) <= s.len(),
        forall|i: int|
            0 <= i < model::late_count(s, ts, budget) ==> timestamp::ts_diff(
                ts,
                (#[trigger] s[i]).packet.timestamp,
            ) > budget,
    decreases s.len(),
{
    if s.len() > 0 && timestamp::ts_diff(ts, s[0].packet.timestamp) > budget {
        let rest = s.skip(1);
        lemma_late_count(rest, ts, budget);
        assert forall|i: int| 0 <= i < model::late_count(s, ts, budget) implies timestamp::ts_diff(
            ts,
            (#[trigger] s[i]).packet.timestamp,
        ) > budget by {
            if i > 0 {
                assert(rest[i - 1] == s[i]);
            }
        }
    }
}

proof fn lemma_resend_one(conn: ConnView, i: int, k: nat, now: u64)
    requires
        conn.wf(),
        0 <= i < conn.send_buffer.len() <= 0x3FFF_FFFF,
        k <= conn.send_buffer.len(),
        conn.resend_due(i, now),
    ensures
        ({
            let first = conn.send_buffer[0].packet.seq;
            let n = conn.send_buffer[i].packet.seq;
            conn.resent_from(first, k, n, n, now) == (if k <= i {
                conn
            } else {
                conn.resent_at(i, now)
            })
        }),
    decreases k,
{
    reveal(model::buffer_ok);
    reveal(ConnView::resent_from);
    reveal(ConnView::resent_if_due);
    if k > 0 {
        let first = conn.send_buffer[0].packet.seq;
        let n = conn.send_buffer[i].packet.seq;
        let j = k - 1;
        lemma_resend_one(conn, i, j as nat, now);
        assert(conn.send_buffer[0].packet.in_range());
        assert(conn.send_buffer[i].packet.in_range());
        crate::seq::lemma_offset_of_step(first, i);
        crate::seq::lemma_offset_of_step(first, j);
        if j == i {
            send_buffer::law_stored_packets_are_found(conn.send_buffer, i);
        } else {
            let m = crate::seq::seq_add(first, j);
            crate::seq::lemma_steps(first, i, j - i);
            crate::seq::lemma_steps(first, j, i - j);
            crate::seq::lemma_offset_of_step(n, j - i);
            crate::seq::lemma_offset_of_step(m, i - j);
            assert(!model::in_range(m, n, n));
        }
    }
}

/// A loss that is reported is made good: the packet, if it is held and due, is
/// sent again, and no other.
pub proof fn law_reported_loss_is_sent_again(conn: ConnView, i: int, now: u64)
    requires
        conn.wf(),
        0 <= i < conn.send_buffer.len() <= 0x3FFF_FFFF,
        conn.resend_due(i, now),
    ensures
        ({
            let n = conn.send_buffer[i].packet.seq;
            conn.retransmitted_all(seq![(n, n)], now) == conn.resent_at(i, now)
        }),
{
    reveal(model::buffer_ok);
    reveal(ConnView::retransmitted_all);
    reveal(ConnView::retransmitted);
    let n = conn.send_buffer[i].packet.seq;
    let len = conn.send_buffer.len();
    let loss = seq![(n, n)];
    assert(loss.drop_last() =~= Seq::<(u32, u32)>::empty());
    assert(conn.retransmitted_all(loss.drop_last(), now) == conn);
    assert(conn.send_buffer[0].packet.in_range());
    assert(conn.send_buffer.last() == conn.send_buffer[len - 1]);
    assert(conn.send_buffer[len - 1].packet.in_range());
    lemma_resend_one(conn, i, len, now);
}

/// A packet that was just sent again is not due before a round trip has passed,
/// and is due then.
pub proof fn law_retransmissions_are_a_round_trip_apart(
    conn: ConnView,
    i: int,
    now: u64,
    then: u64,
)
    requires
        0 <= i < conn.send_buffer.len(),
        now <= then,
    ensures
        conn.resent_at(i, now).resend_due(i, then) <==> then - now >= conn.rtt.rtt,
{
    reveal(ConnView::resent_at);
    reveal(ConnView::resend_due);
}

/// The pacer's turns follow one another by one period, whenever the packets
/// actually leave.
pub proof fn law_turns_are_one_period_apart(conn: ConnView, period: int, now: u64)
    requires
        conn.next_send is Some,
        conn.send_queue.len() > 0,
    ensures
        conn.released_one(period, now).next_send == Some(
            model::later(conn.next_send->0, period),
        ),
{
    reveal(ConnView::released_one);
    reveal(ConnView::slot_used);
    let f = conn.send_queue[0];
    lemma_sending_keeps_the_schedule(
        ConnView { send_queue: conn.send_queue.skip(1), ..conn },
        f,
        now,
    );
}

proof fn lemma_sending_keeps_the_schedule(conn: ConnView, f: FragmentView, now: u64)
    ensures
        conn.sent(f, now).next_send == conn.next_send,
        conn.sent(f, now).send_queue == conn.send_queue,
        conn.sent(f, now).state == conn.state,
        conn.sent(f, now).next_send_seq == crate::seq::seq_add(conn.next_send_seq, 1),
        conn.sent(f, now).send_buffer.len() == conn.send_buffer.len() + 1,
{
    reveal(ConnView::sent);
    reveal(ConnView::sent_now);
    reveal(ConnView::accounted);
    reveal(ConnView::rotated);
    reveal(ConnView::kept);
    reveal(ConnView::plain_packet);
    reveal(ConnView::wire_packet);
    reveal(ConnView::parity_sent);
    reveal(ConnView::exp_armed);
}

/// Sending a fragment takes one sequence number and holds one more packet.
pub proof fn law_every_fragment_takes_one_number(conn: ConnView, f: FragmentView, now: u64)
    ensures
        conn.sent(f, now).next_send_seq == crate::seq::seq_add(conn.next_send_seq, 1),
        conn.sent(f, now).send_buffer.len() == conn.send_buffer.len() + 1,
{
    lemma_sending_keeps_the_schedule(conn, f, now);
}

/// Message number 0 marks parity packets and is never given to a message.
pub proof fn law_message_numbers_leave_zero_out(n: u32)
    ensures
        model::following_message(n) % 0x400_0000 != 0,
{
}

// ---- receiving ----

/// A packet against a full window is dropped: it is counted, and nothing else
/// changes.
pub proof fn law_full_window_drops_the_packet(conn: ConnView, p: DataView, now: u64)
    requires
        conn.available() == 0,
    ensures
        conn.inserted(p, now) == (ConnView {
            stats: Stats {
                packets_dropped_full: model::bump(conn.stats.packets_dropped_full, 1),
                ..conn.stats
            },
            ..conn
        }),
{
    reveal(ConnView::inserted);
    reveal(ConnView::full_counted);
}

proof fn lemma_full_window_keeps_rebuilt_out(conn: ConnView, rs: Seq<RecoveredView>, now: u64)
    requires
        conn.available() == 0,
    ensures
        ({
            let after = conn.injected_all(rs, now);
            &&& after.available() == 0
            &&& after.recv_buffer == conn.recv_buffer
            &&& after.events == conn.events
            &&& after.outputs == conn.outputs
            &&& after.stats.packets_received == conn.stats.packets_received
            &&& after.stats.packets_dropped_full >= conn.stats.packets_dropped_full
        }),
    decreases rs.len(),
{
    reveal(ConnView::injected_all);
    if rs.len() > 0 {
        let before = conn.injected_all(rs.drop_last(), now);
        lemma_full_window_keeps_rebuilt_out(conn, rs.drop_last(), now);
        reveal(ConnView::injected);
        reveal(ConnView::available);
        reveal(ConnView::inserted);
        reveal(ConnView::full_counted);
    }
}

/// A datagram with data against a full window reaches neither the buffer nor the
/// application and is not answered, whatever parity makes of it: what comes of it
/// is one more packet counted as dropped, and more where parity has brought others
/// back.
pub proof fn law_full_window_keeps_data_out(conn: ConnView, datagram: Seq<u8>, now: u64)
    requires
        conn.state == State::Connected,
        conn.available() == 0,
        PacketView::of_bytes(datagram) matches Ok(PacketView::Data(_)),
    ensures
        ({
            let p = PacketView::of_bytes(datagram)->Ok_0->Data_0;
            let after = conn.fed(datagram, now);
            let counted = model::bump(conn.stats.packets_dropped_full, 1);
            &&& after.recv_buffer == conn.recv_buffer
            &&& after.events == conn.events
            &&& after.outputs == conn.outputs
            &&& after.stats.packets_received == conn.stats.packets_received
            &&& conn.fec_recv is None || p.message_number != 0
                ==> after.stats.packets_dropped_full >= counted
            &&& conn.fec_recv is None ==> after == (ConnView {
                last_recv_any: now,
                stats: Stats { packets_dropped_full: counted, ..conn.stats },
                ..conn
            })
        }),
{
    let p = PacketView::of_bytes(datagram)->Ok_0->Data_0;
    reveal(ConnView::fed);
    reveal(ConnView::heard);
    reveal(ConnView::data_heard);
    reveal(ConnView::available);
    if let Some(decoder) = conn.fec_recv {
        if p.message_number == 0 {
            let heard = ConnView {
                last_recv_any: now,
                fec_recv: Some(decoder.after_parity(p.seq, p.payload, p.timestamp)),
                ..conn
            };
            lemma_full_window_keeps_rebuilt_out(
                heard,
                decoder.from_parity(p.seq, p.payload, p.timestamp),
                now,
            );
        } else {
            let heard = watching(conn, p, now);
            law_full_window_drops_the_packet(heard, p, now);
            lemma_full_window_keeps_rebuilt_out(
                heard.inserted(p, now),
                decoder.from_data(p.seq, model::parity_fields(p)),
                now,
            );
        }
    } else {
        law_full_window_drops_the_packet(ConnView { last_recv_any: now, ..conn }, p, now);
    }
}

/// A parity packet is no data: it reaches neither the buffer nor the application,
/// unless it brings lost packets back.
pub proof fn law_parity_is_not_delivered(conn: ConnView, p: DataView, now: u64)
    requires
        conn.fec_recv is Some,
        p.message_number == 0,
        conn.fec_recv->0.from_parity(p.seq, p.payload, p.timestamp).len() == 0,
    ensures
        conn.data_heard(p, now).recv_buffer == conn.recv_buffer,
        conn.data_heard(p, now).events == conn.events,
        conn.data_heard(p, now).outputs == conn.outputs,
        conn.data_heard(p, now).stats == conn.stats,
{
    reveal(ConnView::data_heard);
    reveal(ConnView::injected_all);
}

/// A packet that does not decrypt reaches neither the buffer nor the application:
/// it is counted, and nothing else changes.
pub proof fn law_undecryptable_packets_are_dropped(conn: ConnView, p: DataView, now: u64)
    requires
        conn.available() > 0,
        conn.clear_payload(p) is None,
    ensures
        conn.inserted(p, now) == (ConnView {
            stats: Stats {
                packets_undecryptable: model::bump(conn.stats.packets_undecryptable, 1),
                ..conn.stats
            },
            ..conn
        }),
{
    reveal(ConnView::inserted);
    reveal(ConnView::undecryptable_counted);
}

/// An encrypted packet for a slot without a key does not decrypt.
pub proof fn law_unknown_keys_do_not_decrypt(conn: ConnView, p: DataView)
    requires
        p.encryption != Encryption::Unencrypted,
        conn.crypto is None || conn.crypto->0.slot(p.encryption) is None,
    ensures
        conn.clear_payload(p) is None,
{
    reveal(ConnView::clear_payload);
}

/// Nothing is delivered before its time: while the next packet is not due, the
/// timer is set for when it is, and nothing else changes.
pub proof fn law_delivery_waits_for_its_time(conn: ConnView, now: u64)
    requires
        conn.recv_buffer.next() is Some,
        conn.play_time(conn.recv_buffer.next()->0.timestamp) is Some,
        now < conn.play_time(conn.recv_buffer.next()->0.timestamp)->0,
    ensures
        conn.delivered(now) == conn.timer(
            TimerId::Tsbpd,
            conn.play_time(conn.recv_buffer.next()->0.timestamp)->0 - now,
        ),
{
    reveal(ConnView::delivered);
}

/// The receiver once a packet has been shown to its parity decoder, if it has one.
pub open spec fn watching(conn: ConnView, p: DataView, now: u64) -> ConnView {
    ConnView {
        last_recv_any: now,
        fec_recv: match conn.fec_recv {
            Some(fec) => Some(fec.after_data(p.seq, model::parity_fields(p))),
            None => None,
        },
        ..conn
    }
}

/// The packets that a packet lets the receiver's parity decoder bring back.
pub open spec fn brought_back(conn: ConnView, p: DataView) -> Seq<RecoveredView> {
    match conn.fec_recv {
        Some(fec) => fec.from_data(p.seq, model::parity_fields(p)),
        None => Seq::empty(),
    }
}

/// Whether the peer can read what the connection sends: neither encrypts, or the
/// peer holds the same key in the slot in use.
pub open spec fn shares_the_key(conn: ConnView, peer: ConnView) -> bool {
    conn.crypto matches Some(c) ==> peer.crypto matches Some(d) && d.slot(c.active) == c.slot(
        c.active,
    )
}

/// What a fragment is sent as reaches the peer as it was given: the datagram goes
/// out, a peer with the same key reads the payload, as every fragment sent is
/// readable, and a peer that has room and does not hold the packet yet stores the
/// fragment under its sequence number. Where parity is in use, the packet also
/// brings back those that it lets the peer rebuild.
pub proof fn law_sent_fragment_arrives(
    conn: ConnView,
    peer: ConnView,
    f: FragmentView,
    sent: u64,
    now: u64,
)
    requires
        conn.next_send_seq < 0x8000_0000,
        conn.readable(f, sent),
        shares_the_key(conn, peer),
        peer.state == State::Connected,
        peer.fec_recv is Some ==> f.message % 0x400_0000 != 0,
    ensures
        ({
            let p = conn.wire_packet(f, sent);
            let q = DataView { payload: f.payload, ..p };
            let datagram = PacketView::Data(p).bytes();
            let heard = watching(peer, p, now);
            &&& conn.sent_now(f, sent).outputs.len() > conn.outputs.len()
            &&& conn.sent_now(f, sent).outputs[conn.outputs.len() as int]
                == OutputView::SendDatagram(datagram)
            &&& p.seq == conn.next_send_seq
            &&& p.position == f.position
            &&& peer.clear_payload(p) == Some(f.payload)
            &&& peer.available() > 0 ==> peer.fed(datagram, now) == (
            match peer.recv_buffer.inserted(q) {
                Some(buffer) => heard.stored(q, buffer, now).delivered(now).arrival_counted(
                    now,
                ).loss_checked(now),
                None => heard.duplicate_counted(),
            }).injected_all(brought_back(peer, p), now)
        }),
{
    let p = conn.wire_packet(f, sent);
    let heard = watching(peer, p, now);
    reveal(ConnView::plain_packet);
    reveal(ConnView::wire_packet);
    packet::law_packet_round_trips(PacketView::Data(p));
    assert(peer.clear_payload(p) == Some(f.payload)) by {
        reveal(ConnView::clear_payload);
        reveal(ConnView::readable);
    }
    assert(conn.sent_now(f, sent).outputs.len() > conn.outputs.len() && conn.sent_now(
        f,
        sent,
    ).outputs[conn.outputs.len() as int] == OutputView::SendDatagram(PacketView::Data(p).bytes())) by {
        reveal(ConnView::sent_now);
        reveal(ConnView::kept);
        reveal(ConnView::parity_sent);
        reveal(ConnView::exp_armed);
    }
    assert(heard.clear_payload(p) == peer.clear_payload(p)) by {
        reveal(ConnView::clear_payload);
    }
    assert(heard.available() == peer.available()) by {
        reveal(ConnView::available);
    }
    reveal(ConnView::fed);
    reveal(ConnView::heard);
    reveal(ConnView::data_heard);
    reveal(ConnView::inserted);
    reveal(ConnView::injected_all);
}

/// What parity covers of a group of packets.
pub open spec fn group_fields(ps: Seq<DataView>) -> Seq<FecFields> {
    ps.map_values(|p: DataView| model::parity_fields(p))
}

/// The loss of any one packet of a group is made good by the group's parity: the
/// peer, which has seen the others, takes in a packet with the lost one's sequence
/// number, timestamp, key and payload.
pub proof fn law_parity_brings_the_lost_packet_back(
    conn: ConnView,
    peer: ConnView,
    ps: Seq<DataView>,
    k: int,
    now: u64,
)
    requires
        peer.state == State::Connected,
        peer.fec_recv is Some,
        ps.len() == peer.fec_recv->0.group_size,
        0 <= k < ps.len(),
        ps[0].seq < 0x8000_0000,
        forall|i: int|
            0 <= i < ps.len() ==> (#[trigger] ps[i]).seq == crate::seq::seq_add(ps[0].seq, i),
        fec::lacks_only(peer.fec_recv->0.data, ps[0].seq, group_fields(ps), k),
        ps[k].payload.len() <= peer.fec_recv->0.payload_size,
        ps[k].payload.len() <= u16::MAX,
    ensures
        ({
            let decoder = peer.fec_recv->0;
            let parity = FecFields::zero(decoder.payload_size).added_all(group_fields(ps));
            let p = conn.parity_packet(ps.last().seq, parity);
            let heard = ConnView {
                last_recv_any: now,
                fec_recv: Some(decoder.after_parity(p.seq, p.payload, p.timestamp)),
                ..peer
            };
            let back = DataView {
                position: PacketPosition::Single,
                in_order: true,
                retransmitted: true,
                message_number: 1,
                dest_socket_id: peer.peer_socket_id,
                ..ps[k]
            };
            peer.fed(PacketView::Data(p).bytes(), now) == heard.rebuilt_counted().inserted(
                back,
                now,
            )
        }),
{
    let decoder = peer.fec_recv->0;
    let group = group_fields(ps);
    let parity = FecFields::zero(decoder.payload_size).added_all(group);
    let p = conn.parity_packet(ps.last().seq, parity);
    let rebuilt = fec::put_back(ps[k].seq, group[k]);
    assert(ps[ps.len() - 1].seq == crate::seq::seq_add(ps[0].seq, ps.len() - 1));
    crate::seq::lemma_steps(ps[0].seq, ps.len() - 1, 0);
    fec::law_parity_puts_the_lost_member_back(decoder, ps[0].seq, group, k);
    packet::law_packet_round_trips(PacketView::Data(p));
    let heard = ConnView {
        last_recv_any: now,
        fec_recv: Some(decoder.after_parity(p.seq, p.payload, p.timestamp)),
        ..peer
    };
    assert(ConnView { last_recv_any: now, ..peer }.data_heard(p, now) == heard.injected_all(
        seq![rebuilt],
        now,
    )) by {
        reveal(ConnView::data_heard);
    }
    assert(heard.injected_all(seq![rebuilt], now) == heard.injected(rebuilt, now)) by {
        reveal_with_fuel(ConnView::injected_all, 2);
        assert(seq![rebuilt].drop_last() =~= Seq::<RecoveredView>::empty());
    }
    reveal(ConnView::fed);
    reveal(ConnView::heard);
    reveal(ConnView::injected);
}

/// Storing a packet keeps what is held and what was raised otherwise.
pub proof fn law_storing_raises_nothing(conn: ConnView, p: DataView, buffer: RecvView, now: u64)
    ensures
        conn.stored(p, buffer, now).recv_buffer == buffer,
        conn.stored(p, buffer, now).events == conn.events,
        conn.stored(p, buffer, now).reassembler == conn.reassembler,
{
    reveal(ConnView::stored);
    reveal(ConnView::buffered);
    reveal(ConnView::reorder_tracked);
    reveal(ConnView::rate_tracked);
    reveal(ConnView::anchored);
    reveal(ConnView::drift_tracked);
}

/// The events that hand over messages.
pub open spec fn handed_over(messages: Seq<Seq<u8>>) -> Seq<EventView> {
    messages.map_values(|m: Seq<u8>| EventView::DataReceived(m))
}

/// Packets without a gap that are due are played out in order: the application
/// gets the messages that they complete, and nothing else.
pub proof fn law_due_packets_are_delivered_in_order(conn: ConnView, run: Seq<DataView>, now: u64)
    requires
        conn.recv_buffer.slots == recv_buffer::filled(run),
        forall|i: int|
            0 <= i < run.len() ==> conn.play_time((#[trigger] run[i]).timestamp) is Some
                && conn.play_time(run[i].timestamp)->0 <= now,
    ensures
        conn.delivered(now).events == conn.events + handed_over(conn.reassembler.completes_all(run)),
        conn.delivered(now).reassembler == conn.reassembler.pushed_all(run),
        conn.delivered(now).recv_buffer.slots.len() == 0,
    decreases run.len(),
{
    reveal(ConnView::delivered);
    if run.len() == 0 {
        assert(conn.recv_buffer.next() is None);
        assert(handed_over(conn.reassembler.completes_all(run)) =~= Seq::<EventView>::empty());
        assert(conn.delivered(now).events =~= conn.events + handed_over(
            conn.reassembler.completes_all(run),
        ));
    } else {
        let next = conn.played();
        let rest = run.skip(1);
        assert(conn.recv_buffer.slots[0] == Some(run[0]));
        assert(conn.recv_buffer.next() == Some(run[0]));
        assert(conn.play_time(run[0].timestamp)->0 <= now);
        reveal(ConnView::played);
        reveal(ConnView::handed);
        assert(next.recv_buffer.slots =~= recv_buffer::filled(rest));
        assert forall|i: int| 0 <= i < rest.len() implies next.play_time(
            (#[trigger] rest[i]).timestamp,
        ) is Some && next.play_time(rest[i].timestamp)->0 <= now by {
            assert(rest[i] == run[i + 1]);
            reveal(ConnView::play_time);
            reveal(ConnView::expected_arrival);
        }
        law_due_packets_are_delivered_in_order(next, rest, now);
        message::lemma_run_front(conn.reassembler, run);
        assert(conn.delivered(now) == next.delivered(now));
        assert(next.delivered(now).events =~= conn.events + handed_over(
            conn.reassembler.completes_all(run),
        ));
    }
}

/// A message whose packets are all there and due comes out as it was sent,
/// exactly once.
pub proof fn law_message_is_delivered_as_sent(
    conn: ConnView,
    ps: Seq<DataView>,
    payload: Seq<u8>,
    max: int,
    number: u32,
    now: u64,
)
    requires
        0 < max,
        message::carry(ps, payload, max, number),
        conn.recv_buffer.slots == recv_buffer::filled(ps),
        forall|i: int|
            0 <= i < ps.len() ==> conn.play_time((#[trigger] ps[i]).timestamp) is Some
                && conn.play_time(ps[i].timestamp)->0 <= now,
    ensures
        conn.delivered(now).events == conn.events.push(EventView::DataReceived(payload)),
{
    law_due_packets_are_delivered_in_order(conn, ps, now);
    message::law_fragments_come_back_as_the_message(conn.reassembler, ps, payload, max, number);
    assert(conn.delivered(now).events =~= conn.events.push(EventView::DataReceived(payload)));
}

/// The first packet is due the latency after it arrived.
pub proof fn law_first_packet_is_due_after_the_latency(conn: ConnView, ts: u32, now: u64)
    requires
        conn.tsbpd_base is None,
        conn.drift.correction_us == 0,
    ensures
        conn.anchored(ts, now).expected_arrival(ts) == Some(now),
        conn.anchored(ts, now).play_time(ts) == Some(model::later(now, conn.latency)),
{
    reveal(ConnView::anchored);
    reveal(ConnView::expected_arrival);
    reveal(ConnView::play_time);
}

/// The tolerance grows to what was seen, up to its limit, and shrinks by one at a
/// time.
pub proof fn law_reorder_tolerance_follows_the_link(
    conn: ConnView,
    seq: u32,
    retransmitted: bool,
)
    requires
        conn.reorder_tolerance <= model::MAX_REORDER_TOLERANCE,
    ensures
        ({
            let after = conn.reorder_tracked(seq, retransmitted);
            &&& after.reorder_tolerance <= model::MAX_REORDER_TOLERANCE
            &&& after.reorder_tolerance + 1 >= conn.reorder_tolerance
            &&& retransmitted ==> after == conn
            &&& !retransmitted && conn.highest_recv_seq is Some && crate::seq::seq_offset(
                seq,
                conn.highest_recv_seq->0,
            ) < 0 ==> after.reorder_tolerance >= conn.reorder_tolerance
        }),
{
    reveal(ConnView::reorder_tracked);
}

// ---- keys ----

/// Without the peer's confirmation the key in use stays in use.
pub proof fn law_key_switch_waits_for_confirmation(conn: ConnView, f: FragmentView, now: u64)
    requires
        !conn.next_key_ready,
    ensures
        conn.accounted().crypto == conn.crypto,
        conn.sent(f, now).crypto == conn.crypto,
{
    reveal(ConnView::accounted);
    reveal(ConnView::sent);
    reveal(ConnView::sent_now);
    reveal(ConnView::kept);
    reveal(ConnView::parity_sent);
    reveal(ConnView::exp_armed);
}

/// Only the echo of the announcement confirms a key.
pub proof fn law_only_the_echo_confirms(conn: ConnView, cif: Seq<u8>)
    requires
        conn.pending_km != Some(cif),
    ensures
        conn.km_confirmed(cif) == conn,
{
    reveal(ConnView::km_confirmed);
}

/// Announcing a key, on either end, leaves the key in use as it is.
pub proof fn law_announcing_keeps_the_key_in_use(
    conn: ConnView,
    sek: Seq<u8>,
    cif: Seq<u8>,
    now: u64,
)
    requires
        conn.crypto is Some,
    ensures
        conn.rekeyed(sek, now).crypto->0.active == conn.crypto->0.active,
        conn.rekeyed(sek, now).next_key_ready == conn.next_key_ready,
        conn.km_requested(cif, now).crypto->0.active == conn.crypto->0.active,
        conn.km_requested(cif, now).next_key_ready == conn.next_key_ready,
        conn.km_resent(now).crypto == conn.crypto,
        conn.km_resent(now).next_key_ready == conn.next_key_ready,
{
    reveal(ConnView::rekeyed);
    reveal(ConnView::km_requested);
    reveal(ConnView::km_resent);
}

/// A rotation brings both ends the same key. The announcement goes out; a peer with
/// the same passphrase installs the announced key in the same slot and echoes the
/// announcement; the echo clears the way for the switch, and once switched the peer
/// can read what is sent. Until then the key in use is shared as before.
pub proof fn law_rotation_brings_one_key(
    conn: ConnView,
    peer: ConnView,
    sek: Seq<u8>,
    now: u64,
    then: u64,
)
    requires
        conn.rekey_pending,
        conn.config.encryption is Some,
        conn.crypto is Some,
        conn.crypto->0.wf(),
        model::announcement_opens(
            conn.config.encryption->0.passphrase,
            conn.crypto->0.next_flags(),
            conn.crypto->0.next_keys(sek),
        ),
        peer.config.encryption is Some,
        peer.config.encryption->0.passphrase == conn.config.encryption->0.passphrase,
        peer.crypto is Some,
    ensures
        ({
            let km = conn.next_km(sek);
            let slot = conn.crypto->0.next_slot();
            let told = conn.rekeyed(sek, now);
            let heard = peer.km_requested(km, then);
            let ready = told.km_confirmed(km);
            &&& told.outputs.last() == OutputView::SendDatagram(
                conn.km_control(model::EXT_KMREQ, km, now),
            )
            &&& told.crypto->0.slot(slot) == Some(conn.crypto->0.next_keys(sek))
            &&& heard.crypto->0.slot(slot) == Some(conn.crypto->0.next_keys(sek))
            &&& heard.outputs.last() == OutputView::SendDatagram(
                peer.km_control(model::EXT_KMRSP, km, then),
            )
            &&& shares_the_key(conn, peer) ==> shares_the_key(told, heard)
            &&& ready.next_key_ready
            &&& ready.rotated().crypto->0.active == slot
            &&& shares_the_key(ready.rotated(), heard)
        }),
{
    let c = conn.crypto->0;
    let km = crypto::announced(
        conn.config.encryption->0.passphrase,
        c.next_flags(),
        c.mode(),
        c.salt()->0,
        sek,
    );
    key_material::law_key_material_round_trips(km);
    reveal(ConnView::next_km);
    reveal(ConnView::rekeyed);
    reveal(ConnView::km_requested);
    reveal(ConnView::km_confirmed);
    reveal(ConnView::rotated);
}

/// Switching to a confirmed key that the peer holds keeps the two ends on one key,
/// packet by packet.
pub proof fn law_switching_keeps_the_key_shared(
    conn: ConnView,
    peer: ConnView,
    f: FragmentView,
    now: u64,
)
    requires
        shares_the_key(conn, peer),
        conn.crypto is Some && conn.next_key_ready ==> peer.crypto->0.slot(
            conn.crypto->0.next_slot(),
        ) == conn.crypto->0.slot(conn.crypto->0.next_slot()),
    ensures
        shares_the_key(conn.accounted(), peer),
        shares_the_key(conn.sent(f, now), peer),
{
    reveal(ConnView::accounted);
    reveal(ConnView::rotated);
    reveal(ConnView::sent);
    reveal(ConnView::sent_now);
    reveal(ConnView::kept);
    reveal(ConnView::parity_sent);
    reveal(ConnView::exp_armed);
}

/// An announcement and its echo reach the other end as they were sent.
pub proof fn law_key_messages_arrive(
    conn: ConnView,
    peer: ConnView,
    km: Seq<u8>,
    now: u64,
    then: u64,
)
    requires
        peer.state == State::Connected,
    ensures
        peer.fed(conn.km_control(model::EXT_KMREQ, km, now), then) == (ConnView {
            last_recv_any: then,
            ..peer
        }).km_requested(km, then),
        peer.fed(conn.km_control(model::EXT_KMRSP, km, now), then) == (ConnView {
            last_recv_any: then,
            ..peer
        }).km_confirmed(km),
{
    lemma_key_message(conn, km, model::EXT_KMREQ, now);
    lemma_key_message(conn, km, model::EXT_KMRSP, now);
    reveal(ConnView::fed);
    reveal(ConnView::heard);
}

proof fn lemma_key_message(conn: ConnView, km: Seq<u8>, subtype: u16, now: u64)
    ensures
        PacketView::of_bytes(conn.km_control(subtype, km, now)) == Ok::<PacketView, PacketError>(
            PacketView::Control {
                timestamp: conn.ts(now),
                dest_socket_id: conn.peer_socket_id,
                body: ControlView::Raw {
                    control_type: ControlType::UserDefined,
                    subtype,
                    type_specific: 0,
                    cif: km,
                },
            },
        ),
{
    reveal(model::control_bytes);
    packet::law_packet_round_trips(
        PacketView::Control {
            timestamp: conn.ts(now),
            dest_socket_id: conn.peer_socket_id,
            body: ControlView::Raw {
                control_type: ControlType::UserDefined,
                subtype,
                type_specific: 0,
                cif: km,
            },
        },
    );
}

/// An unconfirmed key is announced a limited number of times and then given up.
pub proof fn law_announcements_end(conn: ConnView, now: u64)
    requires
        conn.pending_km is Some,
    ensures
        conn.km_retries >= model::MAX_KM_RETRIES ==> conn.km_resent(now) == (ConnView {
            pending_km: None,
            ..conn
        }),
        conn.km_retries < model::MAX_KM_RETRIES ==> conn.km_resent(now).km_retries
            == conn.km_retries + 1,
{
    reveal(ConnView::km_resent);
}

// ---- staying in touch ----

/// A connection that was silent for a period says that it is still there; one
/// that was not only waits on.
pub proof fn law_silent_connection_is_kept_alive(conn: ConnView, now: u64)
    requires
        conn.state == State::Connected,
        conn.pending_km is None,
    ensures
        model::since(now, conn.last_sent) >= model::KEEPALIVE_PERIOD ==> conn.keepalive_fired(now)
            == conn.emitted(conn.control(ControlView::Keepalive, now), now).timer(
            TimerId::Keepalive,
            model::KEEPALIVE_PERIOD as int,
        ),
        model::since(now, conn.last_sent) < model::KEEPALIVE_PERIOD ==> conn.keepalive_fired(now)
            == conn.timer(TimerId::Keepalive, model::KEEPALIVE_PERIOD as int),
{
    reveal(ConnView::keepalive_fired);
    reveal(ConnView::km_resent);
}

/// A peer that is silent for too long is given up, and not before that: until
/// then the timer is set for the rest of the time.
pub proof fn law_silent_peer_is_given_up(conn: ConnView, now: u64)
    requires
        conn.state == State::Connected,
    ensures
        ({
            let idle = model::since(now, conn.last_recv_any);
            let after = conn.peer_idle_fired(now);
            if idle >= conn.config.peer_idle_timeout {
                &&& after.state == State::Failed
                &&& after.events == conn.events.push(EventView::Failed(ConnectionError::Timeout))
            } else {
                after == conn.timer(TimerId::PeerIdle, conn.config.peer_idle_timeout - idle)
            }
        }),
{
    reveal(ConnView::peer_idle_fired);
    reveal(ConnView::timers_cleared);
}

/// Every datagram that decodes is a sign of life, on a connection that is up.
pub proof fn law_any_packet_is_a_sign_of_life(conn: ConnView, p: PacketView, now: u64)
    requires
        conn.state == State::Connected,
        p.encodable(),
        p.canonical(),
    ensures
        conn.fed(p.bytes(), now) == (ConnView { last_recv_any: now, ..conn }).heard(p, now),
{
    reveal(ConnView::fed);
    packet::law_packet_round_trips(p);
}

/// An unanswered handshake is sent again until the connect timeout has passed,
/// and then given up.
pub proof fn law_unanswered_handshake_is_given_up(conn: ConnView, now: u64)
    requires
        conn.state == State::Induction || conn.state == State::Conclusion,
        conn.last_handshake is Some,
    ensures
        ({
            let after = conn.handshake_fired(now);
            if model::since(now, conn.start) >= conn.config.connect_timeout {
                &&& after.state == State::Failed
                &&& after.events == conn.events.push(
                    EventView::Failed(ConnectionError::HandshakeTimeout),
                )
            } else {
                after == conn.datagram(conn.last_handshake->0).timer(
                    TimerId::Handshake,
                    model::SYN_INTERVAL as int,
                )
            }
        }),
{
    reveal(ConnView::handshake_fired);
}

// ---- closing ----

/// A close with data outstanding keeps the connection up; the close waits.
pub proof fn law_close_waits_for_the_data(conn: ConnView, now: u64)
    requires
        conn.state == State::Connected,
        !conn.closing,
    ensures
        !conn.drained() ==> {
            let after = conn.close_asked(now);
            &&& after.state == State::Connected
            &&& after.closing
            &&& after.send_buffer == conn.send_buffer
            &&& after.closed_if_drained(now) == after
            &&& after.linger_fired(now).state == State::Failed
        },
        conn.drained() ==> conn.close_asked(now) == conn.shut_down(now),
{
    reveal(ConnView::close_asked);
    reveal(ConnView::closed_if_drained);
    reveal(ConnView::linger_fired);
    reveal(ConnView::shut_down);
    reveal(ConnView::timers_cleared);
}

/// A waiting close ends the connection as soon as everything is acknowledged.
pub proof fn law_drained_close_ends(conn: ConnView, now: u64)
    requires
        conn.closing,
        conn.drained(),
    ensures
        conn.closed_if_drained(now) == conn.shut_down(now),
        conn.shut_down(now).state == State::Failed,
        !conn.shut_down(now).closing,
        conn.shut_down(now).events == conn.events.push(EventView::Closed),
{
    reveal(ConnView::closed_if_drained);
    reveal(ConnView::shut_down);
    reveal(ConnView::timers_cleared);
}

/// A close that has waited long enough ends the connection, whatever is still
/// outstanding.
pub proof fn law_waiting_close_ends(conn: ConnView, now: u64)
    requires
        conn.closing,
    ensures
        conn.linger_fired(now).state == State::Failed,
        conn.linger_fired(now).events == conn.events.push(EventView::Closed),
{
    reveal(ConnView::linger_fired);
    reveal(ConnView::shut_down);
    reveal(ConnView::timers_cleared);
}

/// Closing twice is closing once.
pub proof fn law_close_is_idempotent(conn: ConnView, now: u64, then: u64)
    ensures
        conn.close_asked(now).close_asked(then) == conn.close_asked(now),
{
    reveal(ConnView::close_asked);
    reveal(ConnView::shut_down);
    reveal(ConnView::timers_cleared);
}

/// When the peer ends the connection, everything up to the first gap is handed
/// over, and the application is told last.
pub proof fn law_peer_close_flushes(conn: ConnView)
    ensures
        conn.peer_closed().events == conn.flushed().events.push(EventView::Closed),
        conn.peer_closed().state == State::Failed,
        conn.flushed().recv_buffer.slots.len() == 0 || conn.flushed().recv_buffer.slots[0] is None,
{
    reveal(ConnView::peer_closed);
    reveal(ConnView::timers_cleared);
    lemma_flushed(conn);
}

proof fn lemma_flushed(conn: ConnView)
    ensures
        conn.flushed().recv_buffer.slots.len() == 0 || conn.flushed().recv_buffer.slots[0] is None,
    decreases conn.recv_buffer.slots.len(),
{
    reveal(ConnView::flushed);
    reveal(ConnView::handed);
    let slots = conn.recv_buffer.slots;
    if slots.len() > 0 && slots[0] is Some {
        lemma_flushed(
            ConnView { recv_buffer: conn.recv_buffer.popped(), ..conn }.handed(slots[0]->0),
        );
    }
}

} // verus!
