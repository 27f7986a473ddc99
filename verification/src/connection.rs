//! The SRT connection state machine.
//!
//! A [`Connection`] is a deterministic state machine. It touches no socket and
//! reads no clock: time comes in with the `now` arguments, and every effect goes
//! out through one of two queues, [`Connection::poll_event`] for the application
//! and [`Connection::poll_output`] for the I/O layer, which owns the socket and
//! the timers and does what the outputs say.

pub mod arq;
pub mod arrival;
pub mod config;
pub mod event;
pub mod laws;
pub mod lifecycle;
pub mod message;
pub mod model;
pub mod rekey;
pub mod recovery;
pub mod runs;
pub mod sending;
pub mod setup;
pub mod shift;

pub use crate::crypto::key_material::CipherMode;
pub use config::{Config, EncryptionSettings, FecConfig, KeySize, Negotiated};
pub use event::{Event, Output, TimerId};

use crate::arith;
use crate::buffer;
use crate::control::{ControlBody, ControlType};
use crate::crypto::{CryptoView, SessionCrypto};
use crate::drift::DriftTracer;
use crate::error::ConnectionError;
use crate::fec::{FecEncoder, FecEncoderView, FecReceiver, FecReceiverView};
use crate::handshake::HandshakeType;
use crate::live_cc::{LiveCc, LiveCcView};
use crate::packet::{ControlPacket, DataPacket, MsgNumber, Packet, SocketId};
use crate::rate::RateEstimator;
use crate::recv_buffer;
use crate::recv_buffer::RecvBuffer;
use crate::rtt::RttEstimator;
use crate::send_buffer::SendBuffer;
use crate::seq::SeqNumber;
use crate::stats::Stats;
use crate::time::{Duration, Instant};
use crate::timestamp::{Timestamp, TsbpdWrap, WrapView};
use bytes::Bytes;
use message::{Fragment, Reassembler};
use model::ConnView;
use std::collections::VecDeque;
use vstd::prelude::*;

verus! {

/// Which end of the connection this is. The caller drives the handshake; the
/// acceptor only answers.
#[derive(Debug, Clone, Copy, PartialEq, Eq, Structural)]
pub enum Side {
    /// The end that opened the connection.
    Caller,
    /// The end that a listener has accepted.
    Acceptor,
}

/// How far the connection is.
#[derive(Debug, Clone, Copy, PartialEq, Eq, Structural)]
pub enum State {
    /// The first handshake is sent.
    Induction,
    /// The second handshake is sent.
    Conclusion,
    /// The connection is up.
    Connected,
    /// The connection has failed or is closed.
    Failed,
}

/// The state machine of one connection.
#[derive(Debug)]
pub struct Connection {
    config: Config,
    local_socket_id: SocketId,
    initial_seq: SeqNumber,
    start: Instant,
    side: Side,
    state: State,
    peer_socket_id: SocketId,
    syn_cookie: u32,
    last_handshake: Option<Bytes>,
    latency: Duration,
    crypto: Option<SessionCrypto>,
    key_material: Option<Bytes>,
    packets_on_key: u32,
    rekey_pending: bool,
    next_key_ready: bool,
    pending_km: Option<Bytes>,
    km_retries: u32,
    send_buffer: SendBuffer,
    recv_buffer: RecvBuffer,
    tsbpd_base: Option<(Timestamp, Instant)>,
    ts_wrap: Option<TsbpdWrap>,
    drift: DriftTracer,
    rtt: RttEstimator,
    next_send_seq: SeqNumber,
    next_message: u32,
    next_ack_number: u32,
    pending_acks: VecDeque<(u32, Instant)>,
    last_acked_point: Option<SeqNumber>,
    last_acked_avail: Option<u32>,
    last_nak: Option<Instant>,
    reported_loss: Vec<(SeqNumber, SeqNumber)>,
    packets_since_ack: u32,
    exp_count: u32,
    live_cc: Option<LiveCc>,
    send_queue: VecDeque<Fragment>,
    next_send: Option<Instant>,
    closing: bool,
    last_sent: Instant,
    last_recv_any: Instant,
    reassembler: Reassembler,
    fec_send: Option<FecEncoder>,
    fec_recv: Option<FecReceiver>,
    stats: Stats,
    rate: RateEstimator,
    last_recv: Option<Instant>,
    highest_recv_seq: Option<SeqNumber>,
    orderly_streak: u32,
    reorder_tolerance: u32,
    peer_avail_window: u32,
    events: VecDeque<Event>,
    outputs: VecDeque<Output>,
}

/// The contents of optional bytes.
pub open spec fn bytes_view(b: Option<Bytes>) -> Option<Seq<u8>> {
    match b {
        Some(b) => Some(buffer::bytes_seq(b)),
        None => None,
    }
}

/// The value of an optional instant.
pub open spec fn instant_view(at: Option<Instant>) -> Option<u64> {
    match at {
        Some(at) => Some(at@),
        None => None,
    }
}

/// The value of an optional sequence number.
pub open spec fn seq_view(n: Option<SeqNumber>) -> Option<u32> {
    match n {
        Some(n) => Some(n@),
        None => None,
    }
}

/// The values of the acknowledgements that wait for their answer.
pub open spec fn ack_views(acks: Seq<(u32, Instant)>) -> Seq<(u32, u64)> {
    acks.map_values(|a: (u32, Instant)| (a.0, a.1@))
}

impl View for Connection {
    type V = ConnView;

    closed spec fn view(&self) -> ConnView {
        self.state_view()
    }
}

impl Connection {
    /// The state that the fields stand for.
    #[verifier::opaque]
    spec fn state_view(&self) -> ConnView {
        ConnView {
            config: self.config@,
            local_socket_id: self.local_socket_id,
            initial_seq: self.initial_seq@,
            start: self.start@,
            side: self.side,
            state: self.state,
            peer_socket_id: self.peer_socket_id,
            syn_cookie: self.syn_cookie,
            last_handshake: bytes_view(self.last_handshake),
            latency: self.latency@,
            crypto: match self.crypto {
                Some(c) => Some(c@),
                None => None::<CryptoView>,
            },
            key_material: bytes_view(self.key_material),
            packets_on_key: self.packets_on_key,
            rekey_pending: self.rekey_pending,
            next_key_ready: self.next_key_ready,
            pending_km: bytes_view(self.pending_km),
            km_retries: self.km_retries,
            send_buffer: self.send_buffer@,
            recv_buffer: self.recv_buffer@,
            tsbpd_base: match self.tsbpd_base {
                Some((ts, at)) => Some((ts@, at@)),
                None => None::<(u32, u64)>,
            },
            ts_wrap: match self.ts_wrap {
                Some(wrap) => Some(wrap@),
                None => None::<WrapView>,
            },
            drift: self.drift@,
            rtt: self.rtt@,
            next_send_seq: self.next_send_seq@,
            next_message: self.next_message,
            next_ack_number: self.next_ack_number,
            pending_acks: ack_views(self.pending_acks@),
            last_acked_point: seq_view(self.last_acked_point),
            last_acked_avail: self.last_acked_avail,
            last_nak: instant_view(self.last_nak),
            reported_loss: recv_buffer::range_views(self.reported_loss@),
            packets_since_ack: self.packets_since_ack,
            exp_count: self.exp_count,
            live_cc: match self.live_cc {
                Some(cc) => Some(cc@),
                None => None::<LiveCcView>,
            },
            send_queue: message::fragment_views(self.send_queue@),
            next_send: instant_view(self.next_send),
            closing: self.closing,
            last_sent: self.last_sent@,
            last_recv_any: self.last_recv_any@,
            reassembler: self.reassembler@,
            fec_send: match self.fec_send {
                Some(fec) => Some(fec@),
                None => None::<FecEncoderView>,
            },
            fec_recv: match self.fec_recv {
                Some(fec) => Some(fec@),
                None => None::<FecReceiverView>,
            },
            stats: self.stats,
            rate: self.rate@,
            last_recv: instant_view(self.last_recv),
            highest_recv_seq: seq_view(self.highest_recv_seq),
            orderly_streak: self.orderly_streak,
            reorder_tolerance: self.reorder_tolerance,
            peer_avail_window: self.peer_avail_window,
            events: self.events@.map_values(|e: Event| e@),
            outputs: self.outputs@.map_values(|o: Output| o@),
        }
    }
}

impl Connection {
    /// What every method keeps.
    pub closed spec fn wf(self) -> bool {
        self.recv_buffer.wf() && self@.wf()
    }

    /// A valid connection has a valid state and a valid receive buffer.
    pub(crate) proof fn lemma_parts(self)
        requires
            self.wf(),
        ensures
            self@.wf(),
            self@.recv_buffer.wf(),
    {
        reveal(Connection::state_view);
        recv_buffer::lemma_view_wf(self.recv_buffer);
    }

    // ---- effects ----

    /// Queues an output.
    fn push_output(&mut self, output: Output)
        requires
            old(self).wf(),
        ensures
            final(self).wf(),
            final(self)@ == old(self)@.out(output@),
    {
        proof {
            reveal(Connection::state_view);
        }
        self.outputs.push_back(output);
        assert(self@.outputs =~= old(self)@.outputs.push(output@));
    }

    /// Queues an event.
    fn push_event(&mut self, event: Event)
        requires
            old(self).wf(),
        ensures
            final(self).wf(),
            final(self)@ == old(self)@.raised(event@),
    {
        proof {
            reveal(Connection::state_view);
        }
        self.events.push_back(event);
        assert(self@.events =~= old(self)@.events.push(event@));
    }

    /// Queues a datagram.
    fn send_datagram(&mut self, datagram: Bytes)
        requires
            old(self).wf(),
        ensures
            final(self).wf(),
            final(self)@ == old(self)@.datagram(buffer::bytes_seq(datagram)),
    {
        self.push_output(Output::SendDatagram(datagram));
    }

    /// Sets a timer.
    fn set_timer(&mut self, id: TimerId, after: Duration)
        requires
            old(self).wf(),
        ensures
            final(self).wf(),
            final(self)@ == old(self)@.timer(id, after@),
    {
        self.push_output(Output::SetTimer { id, after });
    }

    /// Clears a timer.
    fn clear_timer(&mut self, id: TimerId)
        requires
            old(self).wf(),
        ensures
            final(self).wf(),
            final(self)@ == old(self)@.untimed(id),
    {
        self.push_output(Output::ClearTimer { id });
    }

    /// Queues a datagram and notes the time, for the keepalive timer.
    fn emit(&mut self, datagram: Bytes, now: Instant)
        requires
            old(self).wf(),
        ensures
            final(self).wf(),
            final(self)@ == old(self)@.emitted(buffer::bytes_seq(datagram), now@),
    {
        proof {
            reveal(Connection::state_view);
        }
        self.last_sent = now;
        self.send_datagram(datagram);
    }

    /// Encodes a control body for the peer.
    fn control(&self, body: ControlBody, now: Instant) -> (r: Bytes)
        requires
            body@.encodable(),
        ensures
            buffer::bytes_seq(r) == self@.control(body@, now@),
    {
        proof {
            reveal(Connection::state_view);
        }
        encode_control(self.peer_socket_id, self.wire_ts(now), body)
    }

    /// The timestamp at `now`: microseconds since the start, in 32 bits.
    fn wire_ts(&self, now: Instant) -> (r: Timestamp)
        ensures
            r@ == self@.ts(now@),
    {
        proof {
            reveal(Connection::state_view);
        }
        wire_ts(self.start, now)
    }
}

impl Connection {
    /// Feeds one received datagram. What does not decode is dropped: nothing that
    /// a peer sends makes this fail.
    pub fn feed_recv_buf(&mut self, datagram: &[u8], now: Instant)
        requires
            old(self).wf(),
        ensures
            final(self).wf(),
            final(self)@ == old(self)@.fed(datagram@, now@),
    {
        proof {
            reveal(ConnView::fed);
            reveal(Connection::state_view);
        }
        let packet = match Packet::decode(datagram) {
            Ok(packet) => packet,
            Err(_) => {
                return;
            },
        };
        match self.state {
            State::Failed => {},
            State::Connected => {
                self.last_recv_any = now;
                self.on_connected_packet(packet, now);
            },
            State::Induction => {
                if let Packet::Control(ControlPacket { body: ControlBody::Handshake(hs), .. }) = &packet {
                    self.on_induction_response(hs, now);
                }
            },
            State::Conclusion => {
                if let Packet::Control(ControlPacket { body: ControlBody::Handshake(hs), .. }) = &packet {
                    self.on_conclusion_response(hs, now);
                }
            },
        }
    }

    /// Takes a packet on a connection that is up.
    fn on_connected_packet(&mut self, packet: Packet, now: Instant)
        requires
            old(self).wf(),
        ensures
            final(self).wf(),
            final(self)@ == old(self)@.heard(packet@, now@),
    {
        proof {
            reveal(ConnView::heard);
            reveal(Connection::state_view);
        }
        match packet {
            Packet::Data(data) => self.on_data(data, now),
            Packet::Control(ctrl) => match ctrl.body {
                ControlBody::Ack(ack) => self.on_ack(ack, now),
                ControlBody::AckAck { ack_number } => self.on_ackack(ack_number, now),
                ControlBody::Nak { loss } => self.on_nak(loss.as_slice(), now),
                ControlBody::Shutdown => self.on_shutdown(),
                ControlBody::DropReq { first, last, .. } => self.on_dropreq(first, last, now),
                ControlBody::Raw { control_type, subtype, cif, .. } => {
                    if control_type == ControlType::UserDefined {
                        if subtype == model::EXT_KMREQ {
                            self.on_km_req(buffer::as_slice(&cif), now);
                        } else if subtype == model::EXT_KMRSP {
                            self.on_km_rsp(buffer::as_slice(&cif));
                        }
                    }
                },
                ControlBody::Handshake(hs) => {
                    if self.side == Side::Acceptor && hs.handshake_type.to_raw()
                        == HandshakeType::CONCLUSION {
                        let answer = match &self.last_handshake {
                            Some(bytes) => Some(bytes.clone()),
                            None => None,
                        };
                        if let Some(bytes) = answer {
                            self.send_datagram(bytes);
                        }
                    }
                },
                _ => {},
            },
        }
    }

    /// The peer has ended the connection: what is there without a gap is
    /// delivered, whether it is due or not.
    fn on_shutdown(&mut self)
        requires
            old(self).wf(),
        ensures
            final(self).wf(),
            final(self)@ == old(self)@.peer_closed(),
    {
        proof {
            reveal(ConnView::peer_closed);
            reveal(Connection::state_view);
        }
        let ghost before = self@;
        loop
            invariant_except_break
                before.flushed() == self@.flushed(),
            invariant
                self.wf(),
            ensures
                self@ == before.flushed(),
            decreases self@.recv_buffer.slots.len(),
        {
            proof {
                reveal(ConnView::flushed);
                reveal(ConnView::handed);
            }
            match self.pop_in_order() {
                Some(packet) => self.hand_over(packet),
                None => {
                    break ;
                },
            }
        }
        self.state = State::Failed;
        self.clear_arq_timers();
        self.push_event(Event::Closed);
    }

    /// Takes the next packet out of the buffer if no gap is before it.
    fn pop_in_order(&mut self) -> (r: Option<DataPacket>)
        requires
            old(self).wf(),
        ensures
            final(self).wf(),
            ({
                let slots = old(self)@.recv_buffer.slots;
                match r {
                    Some(packet) => {
                        &&& slots.len() > 0
                        &&& slots[0] == Some(packet@)
                        &&& final(self)@.recv_buffer.slots.len() < slots.len()
                        &&& final(self)@ == (ConnView {
                            recv_buffer: old(self)@.recv_buffer.popped(),
                            ..old(self)@
                        })
                    },
                    None => {
                        &&& !(slots.len() > 0 && slots[0] is Some)
                        &&& final(self)@ == old(self)@
                    },
                }
            }),
    {
        proof {
            reveal(Connection::state_view);
        }
        self.recv_buffer.pop_in_order()
    }

    /// Fires a timer.
    pub fn handle_timer(&mut self, id: TimerId, now: Instant)
        requires
            old(self).wf(),
        ensures
            final(self).wf(),
            final(self)@ == old(self)@.fired(id, now@),
            id == TimerId::SndPacing ==> old(self)@.paced_readable(now@),
    {
        proof {
            reveal(ConnView::fired);
        }
        match id {
            TimerId::Handshake => self.on_handshake_timer(now),
            TimerId::Ack => self.on_ack_timer(now),
            TimerId::Nak => self.on_nak_timer(now),
            TimerId::Exp => self.on_exp_timer(now),
            TimerId::Tsbpd => self.deliver_tsbpd(now),
            TimerId::SndPacing => self.pace(now),
            TimerId::Linger => self.on_linger_timer(now),
            TimerId::Keepalive => self.on_keepalive_timer(now),
            TimerId::PeerIdle => self.on_peer_idle_timer(now),
        }
    }

    /// The handshake timer: sends the handshake again, or gives up.
    fn on_handshake_timer(&mut self, now: Instant)
        requires
            old(self).wf(),
        ensures
            final(self).wf(),
            final(self)@ == old(self)@.handshake_fired(now@),
    {
        proof {
            reveal(ConnView::handshake_fired);
            reveal(Connection::state_view);
        }
        if self.state != State::Induction && self.state != State::Conclusion {
            return;
        }
        let waited = now.saturating_duration_since(self.start);
        if !waited.shorter_than(self.config.connect_timeout) {
            self.state = State::Failed;
            self.clear_timer(TimerId::Handshake);
            self.push_event(Event::Failed(ConnectionError::HandshakeTimeout));
            return;
        }
        let again = match &self.last_handshake {
            Some(bytes) => bytes.clone(),
            None => {
                return;
            },
        };
        self.send_datagram(again);
        self.set_timer(TimerId::Handshake, Duration::from_nanos(model::SYN_INTERVAL));
    }

    /// Sends a message. It is refused before the connection is up and once it is
    /// closed or closing.
    pub fn send(&mut self, payload: Bytes, now: Instant) -> (r: Result<(), ConnectionError>)
        requires
            old(self).wf(),
        ensures
            final(self).wf(),
            match r {
                Ok(_) => {
                    &&& old(self)@.state == State::Connected && !old(self)@.closing
                    &&& final(self)@ == old(self)@.submitted(buffer::bytes_seq(payload), now@)
                    &&& old(self)@.submitted_readable(buffer::bytes_seq(payload), now@)
                },
                Err(e) => {
                    &&& old(self)@.state != State::Connected || old(self)@.closing
                    &&& e == ConnectionError::InvalidState
                    &&& final(self)@ == old(self)@
                },
            },
    {
        proof {
            reveal(ConnView::submitted);
            reveal(ConnView::submitted_readable);
            reveal(Connection::state_view);
        }
        if self.closing || self.state != State::Connected {
            return Err(ConnectionError::InvalidState);
        }
        let ghost before = self@;
        let message: u32 = self.next_message;
        let following: u32 = message.wrapping_add(1);
        let max: usize = self.max_payload();
        let fragments = message::fragment_message(payload, max, message);
        let ghost fs = message::fragment_views(fragments@);
        proof {
            message::lemma_fragments_fit(buffer::bytes_seq(payload), max as int, message);
            assert forall|i: int| 0 <= i < fragments@.len() implies (
            #[trigger] fragments@[i])@.payload.len() <= u32::MAX by {
                assert(fs[i] == fragments@[i]@);
            }
        }
        self.next_message = if MsgNumber::new(following).value() == 0 {
            1
        } else {
            following
        };
        let ghost start = self@;
        assert(start =~= (ConnView {
            next_message: model::following_message(before.next_message),
            ..before
        }));
        if self.live_cc.is_none() {
            self.send_fragments(fragments, now);
        } else {
            self.queue_fragments(fragments);
            self.pace(now);
        }
        Ok(())
    }

    /// Sends fragments at once.
    fn send_fragments(&mut self, fragments: Vec<Fragment>, now: Instant)
        requires
            old(self).wf(),
            forall|i: int|
                0 <= i < fragments@.len() ==> (#[trigger] fragments@[i])@.payload.len()
                    <= u32::MAX,
        ensures
            final(self).wf(),
            final(self)@ == old(self)@.sent_all(message::fragment_views(fragments@), now@),
            old(self)@.all_readable(message::fragment_views(fragments@), now@),
    {
        proof {
            reveal(ConnView::sent_all);
            reveal(ConnView::all_readable);
        }
        let ghost fs = message::fragment_views(fragments@);
        let ghost start = self@;
        assert(fs.take(0) =~= Seq::empty());
        for fragment in it: fragments
            invariant
                self.wf(),
                it.seq() == fragments@,
                fs == message::fragment_views(fragments@),
                self@ == start.sent_all(fs.take(it.index()), now@),
                start.all_readable(fs.take(it.index()), now@),
                forall|i: int|
                    0 <= i < fragments@.len() ==> (#[trigger] fragments@[i])@.payload.len()
                        <= u32::MAX,
        {
            let ghost i = it.index();
            let ghost more = fs.take(i + 1);
            assert(more.drop_last() =~= fs.take(i));
            assert(fragment == fragments@[i]);
            assert(more.last() == fragment@);
            self.send_data(fragment, now);
            proof {
                reveal(ConnView::sent_all);
                reveal(ConnView::all_readable);
            }
        }
        assert(fs.take(fs.len() as int) =~= fs);
    }

    /// Queues fragments for the pacer.
    fn queue_fragments(&mut self, fragments: Vec<Fragment>)
        requires
            old(self).wf(),
            forall|i: int|
                0 <= i < fragments@.len() ==> (#[trigger] fragments@[i])@.payload.len()
                    <= u32::MAX,
        ensures
            final(self).wf(),
            final(self)@ == (ConnView {
                send_queue: old(self)@.send_queue + message::fragment_views(fragments@),
                ..old(self)@
            }),
    {
        proof {
            reveal(Connection::state_view);
        }
        let ghost fs = message::fragment_views(fragments@);
        let ghost start = self@;
        assert(start.send_queue + fs.take(0) =~= start.send_queue);
        for fragment in it: fragments
            invariant
                self.wf(),
                it.seq() == fragments@,
                fs == message::fragment_views(fragments@),
                self@ == (ConnView {
                    send_queue: start.send_queue + fs.take(it.index()),
                    ..start
                }),
                forall|i: int|
                    0 <= i < fragments@.len() ==> (#[trigger] fragments@[i])@.payload.len()
                        <= u32::MAX,
        {
            let ghost i = it.index();
            assert(fragment == fragments@[i]);
            assert((start.send_queue + fs.take(i)).push(fragment@) =~= start.send_queue + fs.take(
                i + 1,
            ));
            self.enqueue(fragment);
        }
        assert(fs.take(fs.len() as int) =~= fs);
    }

    /// Queues a fragment for the pacer.
    fn enqueue(&mut self, fragment: Fragment)
        requires
            old(self).wf(),
            fragment@.payload.len() <= u32::MAX,
        ensures
            final(self).wf(),
            final(self)@ == (ConnView {
                send_queue: old(self)@.send_queue.push(fragment@),
                ..old(self)@
            }),
    {
        proof {
            reveal(Connection::state_view);
            reveal(model::queue_ok);
        }
        let ghost queue = self@.send_queue;
        self.send_queue.push_back(fragment);
        assert(self@.send_queue =~= queue.push(fragment@));
    }

    /// The largest payload of a packet: what the MTU leaves after the headers and
    /// the tag of an authenticated cipher.
    fn max_payload(&self) -> (r: usize)
        ensures
            r == self@.max_payload(),
            0 < r <= u32::MAX,
    {
        proof {
            reveal(Connection::state_view);
        }
        let tag: usize = match &self.crypto {
            Some(crypto) => if crypto.is_aead() {
                16
            } else {
                0
            },
            None => 0,
        };
        let mtu: usize = self.config.mtu as usize;
        if mtu <= model::HEADERS + tag {
            1
        } else {
            mtu - model::HEADERS - tag
        }
    }

    /// Whether the application may send more. What is queued and what is not
    /// acknowledged counts, against the own window and against the room that the
    /// peer has reported.
    pub fn send_window_available(&self) -> (r: bool)
        ensures
            r == self@.window_open(),
    {
        proof {
            reveal(Connection::state_view);
        }
        let outstanding: usize = self.send_buffer.len().saturating_add(self.send_queue.len());
        outstanding < self.config.flow_window as usize && outstanding
            < self.peer_avail_window as usize
    }

    /// Closes the connection. With data outstanding the close waits until it is
    /// acknowledged, or until the linger time is over. A second call changes
    /// nothing.
    pub fn close(&mut self, now: Instant)
        requires
            old(self).wf(),
        ensures
            final(self).wf(),
            final(self)@ == old(self)@.close_asked(now@),
    {
        proof {
            reveal(ConnView::close_asked);
            reveal(Connection::state_view);
        }
        if self.closing || self.state == State::Failed {
            return;
        }
        if self.state != State::Connected {
            self.state = State::Failed;
            self.push_event(Event::Closed);
            return;
        }
        if self.send_buffer.is_empty() && self.send_queue.len() == 0 {
            self.finalize_shutdown(now);
        } else {
            self.closing = true;
            let linger = self.config.linger;
            self.set_timer(TimerId::Linger, linger);
        }
    }

    /// Ends the connection: tells the peer, clears the timers, and tells the
    /// application.
    fn finalize_shutdown(&mut self, now: Instant)
        requires
            old(self).wf(),
        ensures
            final(self).wf(),
            final(self)@ == old(self)@.shut_down(now@),
    {
        proof {
            reveal(ConnView::shut_down);
            reveal(Connection::state_view);
        }
        let bytes = self.control(ControlBody::Shutdown, now);
        self.send_datagram(bytes);
        self.clear_arq_timers();
        self.clear_timer(TimerId::Linger);
        self.closing = false;
        self.state = State::Failed;
        self.push_event(Event::Closed);
    }

    /// Ends the connection if a close waits and everything is acknowledged.
    pub(crate) fn finish_close_if_drained(&mut self, now: Instant)
        requires
            old(self).wf(),
        ensures
            final(self).wf(),
            final(self)@ == old(self)@.closed_if_drained(now@),
    {
        proof {
            reveal(ConnView::closed_if_drained);
            reveal(Connection::state_view);
        }
        if self.closing && self.send_buffer.is_empty() && self.send_queue.len() == 0 {
            self.finalize_shutdown(now);
        }
    }

    /// The linger timer: the data was never acknowledged, and the close does not
    /// wait any longer.
    fn on_linger_timer(&mut self, now: Instant)
        requires
            old(self).wf(),
        ensures
            final(self).wf(),
            final(self)@ == old(self)@.linger_fired(now@),
    {
        proof {
            reveal(ConnView::linger_fired);
            reveal(Connection::state_view);
        }
        if self.closing {
            self.finalize_shutdown(now);
        }
    }

    /// The counters, and the gauges as they stand.
    pub fn stats(&self) -> (r: Stats)
        requires
            self.wf(),
        ensures
            r == self@.snapshot(),
    {
        proof {
            reveal(ConnView::snapshot);
            reveal(Connection::state_view);
        }
        let mut stats = self.stats;
        stats.rtt_us = arq::micros_u32(self.rtt.rtt());
        stats.rtt_var_us = arq::micros_u32(self.rtt.var());
        stats.flight_size = arith::len_u32(self.send_buffer.len());
        stats.recv_buffer_packets = arith::len_u32(self.recv_buffer.occupancy());
        let (pps, bps) = self.rate.delivery_rate();
        stats.recv_rate_pps = pps;
        stats.recv_rate_bps = bps;
        stats.link_capacity_pps = self.rate.peak_rate();
        let outstanding: usize = self.send_buffer.len().saturating_add(self.send_queue.len());
        stats.send_buffer_packets = arith::len_u32(outstanding);
        let millis: u128 = self.latency.as_millis();
        stats.latency_ms = if millis > 0xFFFF_FFFF {
            0xFFFF_FFFF
        } else {
            millis as u32
        };
        stats
    }

    /// The own socket id.
    pub fn local_socket_id(&self) -> (r: SocketId)
        ensures
            r == self@.local_socket_id,
    {
        proof {
            reveal(Connection::state_view);
        }
        self.local_socket_id
    }

    /// Whether a fresh key was asked for and is still to come.
    pub fn rekey_pending(&self) -> (r: bool)
        ensures
            r == self@.rekey_pending,
    {
        proof {
            reveal(Connection::state_view);
        }
        self.rekey_pending
    }

    /// Fetches the next event for the application.
    pub fn poll_event(&mut self) -> (r: Option<Event>)
        requires
            old(self).wf(),
        ensures
            final(self).wf(),
            match r {
                Some(event) => {
                    &&& old(self)@.events.len() > 0 && event@ == old(self)@.events[0]
                    &&& final(self)@ == (ConnView {
                        events: old(self)@.events.skip(1),
                        ..old(self)@
                    })
                },
                None => old(self)@.events.len() == 0 && final(self)@ == old(self)@,
            },
    {
        proof {
            reveal(Connection::state_view);
        }
        let ghost before = self@;
        let r = self.events.pop_front();
        proof {
            if r is Some {
                assert(self@.events =~= before.events.skip(1));
            }
        }
        r
    }

    /// Fetches the next output for the I/O layer.
    pub fn poll_output(&mut self) -> (r: Option<Output>)
        requires
            old(self).wf(),
        ensures
            final(self).wf(),
            match r {
                Some(output) => {
                    &&& old(self)@.outputs.len() > 0 && output@ == old(self)@.outputs[0]
                    &&& final(self)@ == (ConnView {
                        outputs: old(self)@.outputs.skip(1),
                        ..old(self)@
                    })
                },
                None => old(self)@.outputs.len() == 0 && final(self)@ == old(self)@,
            },
    {
        proof {
            reveal(Connection::state_view);
        }
        let ghost before = self@;
        let r = self.outputs.pop_front();
        proof {
            if r is Some {
                assert(self@.outputs =~= before.outputs.skip(1));
            }
        }
        r
    }
}

/// The timestamp at `now` of an endpoint that counts from `start`.
pub(crate) fn wire_ts(start: Instant, now: Instant) -> (r: Timestamp)
    ensures
        r@ == model::wire_ts(start@, now@),
{
    let micros: u128 = now.saturating_duration_since(start).as_micros();
    Timestamp::from_micros((micros % 0x1_0000_0000) as u32)
}

/// Encodes a control body into a datagram for `dest`.
pub(crate) fn encode_control(dest: SocketId, timestamp: Timestamp, body: ControlBody) -> (r: Bytes)
    requires
        body@.encodable(),
    ensures
        buffer::bytes_seq(r) == model::control_bytes(dest, timestamp@, body@),
{
    proof {
        reveal(model::control_bytes);
    }
    let packet = Packet::Control(ControlPacket { timestamp, dest_socket_id: dest, body });
    let mut buf = buffer::buf_new();
    packet.encode(&mut buf);
    let r = buffer::freeze(buf);
    assert(buffer::bytes_seq(r) =~= packet@.bytes());
    r
}

} // verus!
