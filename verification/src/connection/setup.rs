//! Setting a connection up: the two handshakes of the caller, the answer of the
//! acceptor, and what they agree on.

use crate::buffer;
use crate::connection::config::{Config, EncryptionSettings, Negotiated};
use crate::connection::event::{Event, TimerId};
use crate::connection::message::Reassembler;
use crate::connection::model;
use crate::connection::model::{
    ConnView, EXT_FLAG_CONFIG, EXT_FLAG_HSREQ, EXT_FLAG_KMREQ, EXT_KMREQ, EXT_KMRSP,
    HS_VERSION_SRT, HS_VERSION_UDT, INDUCTION_EXT_FIELD, SRT_LIBRARY_VERSION, SRT_MAGIC,
};
use crate::connection::{encode_control, Connection, Side, State};
use crate::control::ControlBody;
use crate::crypto::key_material::{KeyFlags, KeyMaterial};
use crate::crypto::{KeysView, SessionCrypto, SessionKeys, SlotsView, UnwrappedKm};
use crate::drift::DriftTracer;
use crate::error::{ConnectionError, CryptoError};
use crate::fec::{FecEncoder, FecReceiver};
use crate::handshake;
use crate::handshake::{
    EncryptionField, Handshake, HandshakeExtension, HandshakeType, RejectReason, SrtFlags,
    SrtHandshake,
};
use crate::live_cc::LiveCc;
use crate::packet::SocketId;
use crate::rate::RateEstimator;
use crate::recv_buffer::RecvBuffer;
use crate::rtt::RttEstimator;
use crate::send_buffer::SendBuffer;
use crate::seq::SeqNumber;
use crate::stats::Stats;
use crate::time::{Duration, Instant};
use bytes::Bytes;
use std::collections::VecDeque;
use vstd::prelude::*;

verus! {

impl Connection {
    /// Opens a connection as the caller: the first handshake and its timer are
    /// queued. The socket id, the first sequence number, the salt and the stream
    /// key are random values that the embedder supplies; salt and key only count
    /// if encryption is configured. Whoever knows the passphrase gets the key out
    /// of its announcement.
    pub fn connect(
        config: Config,
        local_socket_id: SocketId,
        initial_seq: SeqNumber,
        now: Instant,
        salt: [u8; 16],
        sek: &[u8],
    ) -> (r: Self)
        requires
            config@.encodable(),
            config@.encryption matches Some(enc) ==> sek@.len() == enc.key_size.len(),
        ensures
            r.wf(),
            r@ == ConnView::calling(config@, local_socket_id, initial_seq@, now@, salt@, sek@),
            config@.encryption matches Some(enc) ==> model::announcement_opens(
                enc.passphrase,
                KeyFlags::Even,
                (KeysView { salt: salt@, sek: sek@, mode: enc.cipher }),
            ),
    {
        proof {
            reveal(model::keys_ok);
            reveal(ConnView::fresh);
            reveal(ConnView::calling);
            reveal(Connection::state_view);
        }
        let mut keys: Option<SessionCrypto> = None;
        let mut announcement: Option<Bytes> = None;
        if let Some(enc) = &config.encryption {
            let (session, km) = SessionKeys::generate(
                enc.passphrase.as_slice(),
                enc.cipher,
                salt,
                sek,
            );
            let mut buf = buffer::buf_new();
            km.encode(&mut buf);
            let bytes = buffer::freeze(buf);
            assert(buffer::bytes_seq(bytes) =~= km@.bytes());
            keys = Some(SessionCrypto::even(session));
            announcement = Some(bytes);
        }
        let mut conn = Self::new_base(
            config,
            local_socket_id,
            initial_seq,
            now,
            Side::Caller,
            State::Induction,
        );
        conn.crypto = keys;
        conn.key_material = announcement;
        conn.send_induction(now);
        conn
    }

    /// A connection before its first step.
    fn new_base(
        config: Config,
        local_socket_id: SocketId,
        initial_seq: SeqNumber,
        start: Instant,
        side: Side,
        state: State,
    ) -> (r: Self)
        requires
            state == State::Induction ==> config@.encodable(),
        ensures
            r.wf(),
            r@ == ConnView::fresh(config@, local_socket_id, initial_seq@, start@, side, state),
    {
        proof {
            reveal(ConnView::fresh);
            reveal(Connection::state_view);
        }
        let mtu: usize = config.mtu as usize;
        let clip: usize = if mtu <= model::HEADERS {
            1
        } else {
            mtu - model::HEADERS
        };
        let fec_send = match &config.fec {
            Some(fec) => Some(FecEncoder::new(fec.group_size, clip)),
            None => None,
        };
        let fec_recv = match &config.fec {
            Some(fec) => Some(FecReceiver::new(fec.group_size, clip)),
            None => None,
        };
        let live_cc = if config.max_bw > 0 {
            Some(LiveCc::new(config.max_bw))
        } else {
            None
        };
        let latency = config.latency;
        let peer_avail_window: u32 = config.flow_window;
        let r = Connection {
            config,
            local_socket_id,
            initial_seq,
            start,
            side,
            state,
            peer_socket_id: SocketId::new(0),
            syn_cookie: 0,
            last_handshake: None,
            latency,
            crypto: None,
            key_material: None,
            packets_on_key: 0,
            rekey_pending: false,
            next_key_ready: false,
            pending_km: None,
            km_retries: 0,
            send_buffer: SendBuffer::new(),
            recv_buffer: RecvBuffer::new(initial_seq),
            tsbpd_base: None,
            ts_wrap: None,
            drift: DriftTracer::new(),
            rtt: RttEstimator::new(),
            next_send_seq: initial_seq,
            next_message: 1,
            next_ack_number: 1,
            pending_acks: VecDeque::new(),
            last_acked_point: None,
            last_acked_avail: None,
            last_nak: None,
            reported_loss: Vec::new(),
            packets_since_ack: 0,
            exp_count: 1,
            live_cc,
            send_queue: VecDeque::new(),
            next_send: None,
            closing: false,
            last_sent: start,
            last_recv_any: start,
            reassembler: Reassembler::new(),
            fec_send,
            fec_recv,
            stats: Stats::default(),
            rate: RateEstimator::new(),
            last_recv: None,
            highest_recv_seq: None,
            orderly_streak: 0,
            reorder_tolerance: 0,
            peer_avail_window,
            events: VecDeque::new(),
            outputs: VecDeque::new(),
        };
        proof {
            reveal(model::buffer_ok);
            reveal(model::parity_ok);
            reveal(model::keys_ok);
            reveal(model::queue_ok);
            assert(r@.pending_acks =~= Seq::empty());
            assert(r@.reported_loss =~= Seq::empty());
            assert(r@.send_queue =~= Seq::empty());
            assert(r@.events =~= Seq::empty());
            assert(r@.outputs =~= Seq::empty());
        }
        r
    }

    /// Checks whether a caller's second handshake would be accepted.
    pub(crate) fn validate_accept(config: &Config, caller_hs: &Handshake) -> (r: Result<
        (),
        ConnectionError,
    >)
        ensures
            match r {
                Ok(_) => model::admission(config@.encryption, caller_hs@.extensions) is Ok,
                Err(e) => e is Crypto && model::admission(
                    config@.encryption,
                    caller_hs@.extensions,
                ) == Err::<Option<(SlotsView, Seq<u8>)>, CryptoError>(e->Crypto_0),
            },
    {
        match accept_crypto(&config.encryption, caller_hs) {
            Ok(_) => Ok(()),
            Err(e) => Err(ConnectionError::Crypto(e)),
        }
    }

    /// Accepts a caller's second handshake: the answer is queued, and the
    /// connection is up. Its sequence numbers start where the caller's do. The
    /// caller is turned away if only one end encrypts, or if its key does not
    /// unwrap.
    pub(crate) fn accept(
        config: Config,
        local_socket_id: SocketId,
        caller_hs: &Handshake,
        now: Instant,
    ) -> (r: Result<Self, ConnectionError>)
        requires
            caller_hs@.encodable(),
        ensures
            match r {
                Ok(conn) => conn.wf() && ConnView::accepted(
                    config@,
                    local_socket_id,
                    caller_hs@,
                    now@,
                ) == Ok::<ConnView, CryptoError>(conn@),
                Err(e) => e is Crypto && ConnView::accepted(
                    config@,
                    local_socket_id,
                    caller_hs@,
                    now@,
                ) == Err::<ConnView, CryptoError>(e->Crypto_0),
            },
    {
        proof {
            reveal(model::keys_ok);
            reveal(ConnView::fresh);
            reveal(ConnView::accepted);
            reveal(Connection::state_view);
        }
        let negotiated = negotiate(config.latency, caller_hs);
        let admitted = match accept_crypto(&config.encryption, caller_hs) {
            Ok(admitted) => admitted,
            Err(e) => {
                return Err(ConnectionError::Crypto(e));
            },
        };
        let (keys, km) = match admitted {
            Some((slots, content)) => (Some(SessionCrypto::from_slots(slots)), Some(content)),
            None => (None, None),
        };
        proof {
            lemma_km_request_fits(caller_hs@.extensions);
        }
        let response = make_response(&config, local_socket_id, caller_hs, negotiated.latency, &km);
        let peer_socket_id = caller_hs.srt_socket_id;
        let mut conn = Self::new_base(
            config,
            local_socket_id,
            caller_hs.initial_seq,
            now,
            Side::Acceptor,
            State::Conclusion,
        );
        conn.crypto = keys;
        conn.key_material = km;
        let bytes = encode_control(
            peer_socket_id,
            conn.wire_ts(now),
            ControlBody::Handshake(response),
        );
        conn.last_handshake = Some(bytes.clone());
        conn.send_datagram(bytes);
        conn.enter_connected(negotiated, now);
        Ok(conn)
    }

    /// Sends the first handshake, to socket id 0.
    fn send_induction(&mut self, now: Instant)
        requires
            old(self).wf(),
        ensures
            final(self).wf(),
            final(self)@ == old(self)@.inducted(now@),
    {
        proof {
            reveal(ConnView::induction_hs);
            reveal(ConnView::inducted);
            reveal(Connection::state_view);
        }
        let hs = Handshake {
            version: HS_VERSION_UDT,
            encryption: EncryptionField::Unencrypted,
            extension_field: INDUCTION_EXT_FIELD,
            initial_seq: self.initial_seq,
            mtu: self.config.mtu,
            max_flow_window: self.config.flow_window,
            handshake_type: HandshakeType::from_raw(HandshakeType::INDUCTION),
            srt_socket_id: self.local_socket_id,
            syn_cookie: 0,
            peer_ip: [0u8; 16],
            extensions: Vec::new(),
        };
        assert(hs@ =~= self@.induction_hs()) by {
            assert(hs@.peer_ip =~= model::no_ip());
            assert(hs@.extensions =~= Seq::empty());
        }
        self.emit_handshake(hs, now);
    }

    /// Takes the answer to the first handshake and goes on to the second. An
    /// answer that does not conform is ignored; a refusal ends the connection.
    pub(crate) fn on_induction_response(&mut self, hs: &Handshake, now: Instant)
        requires
            old(self).wf(),
            old(self)@.state == State::Induction,
        ensures
            final(self).wf(),
            final(self)@ == old(self)@.induction_answered(hs@, now@),
    {
        proof {
            reveal(ConnView::induction_answered);
            reveal(Connection::state_view);
        }
        if let Some(reason) = hs.handshake_type.reject_reason() {
            self.on_rejection(reason);
            return;
        }
        if hs.version != HS_VERSION_SRT || hs.extension_field != SRT_MAGIC
            || hs.handshake_type.to_raw() != HandshakeType::INDUCTION {
            return;
        }
        self.peer_socket_id = hs.srt_socket_id;
        self.syn_cookie = hs.syn_cookie;
        self.state = State::Conclusion;
        self.send_conclusion(now);
    }

    /// The listener has refused: the connection has failed.
    fn on_rejection(&mut self, reason: RejectReason)
        requires
            old(self).wf(),
        ensures
            final(self).wf(),
            final(self)@ == old(self)@.refused(reason),
    {
        proof {
            reveal(ConnView::refused);
            reveal(Connection::state_view);
        }
        self.state = State::Failed;
        self.clear_timer(TimerId::Handshake);
        self.push_event(Event::Failed(ConnectionError::Rejected(reason)));
    }

    /// Sends the second handshake: the cookie, the latency, the stream id and the
    /// wrapped key, as far as they are configured. It goes to socket id 0 as well:
    /// there is no connection yet that another id could stand for.
    fn send_conclusion(&mut self, now: Instant)
        requires
            old(self).wf(),
            old(self)@.config.encodable(),
        ensures
            final(self).wf(),
            final(self)@ == old(self)@.handshake_sent(old(self)@.conclusion_hs(), now@),
    {
        proof {
            reveal(ConnView::conclusion_hs);
            reveal(ConnView::conclusion_exts);
            reveal(ConnView::handshake_sent);
            reveal(Connection::state_view);
        }
        let hello = srt_handshake_ext(self.latency_ms());
        let mut extensions: Vec<HandshakeExtension> = Vec::new();
        extensions.push(HandshakeExtension::HsReq(hello));
        let mut extension_field: u16 = EXT_FLAG_HSREQ;
        if let Some(stream_id) = &self.config.stream_id {
            extensions.push(HandshakeExtension::StreamId(stream_id.clone()));
            extension_field = EXT_FLAG_HSREQ + EXT_FLAG_CONFIG;
        }
        let mut encryption = EncryptionField::Unencrypted;
        if let Some(km) = &self.key_material {
            if let Some(enc) = &self.config.encryption {
                extensions.push(
                    HandshakeExtension::Raw { ext_type: EXT_KMREQ, content: km.clone() },
                );
                extension_field = extension_field + EXT_FLAG_KMREQ;
                encryption = enc.key_size.to_field();
            }
        }
        let hs = Handshake {
            version: HS_VERSION_SRT,
            encryption,
            extension_field,
            initial_seq: self.initial_seq,
            mtu: self.config.mtu,
            max_flow_window: self.config.flow_window,
            handshake_type: HandshakeType::from_raw(HandshakeType::CONCLUSION),
            srt_socket_id: self.local_socket_id,
            syn_cookie: self.syn_cookie,
            peer_ip: [0u8; 16],
            extensions,
        };
        proof {
            handshake::law_srt_handshake_round_trips(hello);
            assert(hs@.peer_ip =~= model::no_ip());
            assert(hs@.extensions =~= self@.conclusion_exts());
            assert(hs@ =~= self@.conclusion_hs());
            assert(hs@.encodable());
        }
        self.emit_handshake(hs, now);
    }

    /// Takes the answer to the second handshake: the connection is up.
    pub(crate) fn on_conclusion_response(&mut self, hs: &Handshake, now: Instant)
        requires
            old(self).wf(),
        ensures
            final(self).wf(),
            final(self)@ == old(self)@.conclusion_answered(hs@, now@),
    {
        proof {
            reveal(ConnView::conclusion_answered);
            reveal(Connection::state_view);
        }
        if let Some(reason) = hs.handshake_type.reject_reason() {
            self.on_rejection(reason);
            return;
        }
        if hs.handshake_type.to_raw() != HandshakeType::CONCLUSION || hs.version
            != HS_VERSION_SRT {
            return;
        }
        let negotiated = negotiate(self.config.latency, hs);
        self.clear_timer(TimerId::Handshake);
        self.enter_connected(negotiated, now);
    }

    /// Sends a handshake, keeps it to be sent again, and sets the timer.
    fn emit_handshake(&mut self, hs: Handshake, now: Instant)
        requires
            old(self).wf(),
            hs@.encodable(),
        ensures
            final(self).wf(),
            final(self)@ == old(self)@.handshake_sent(hs@, now@),
    {
        proof {
            reveal(ConnView::handshake_sent);
            reveal(Connection::state_view);
        }
        let bytes = encode_control(
            SocketId::new(0),
            self.wire_ts(now),
            ControlBody::Handshake(hs),
        );
        self.last_handshake = Some(bytes.clone());
        self.send_datagram(bytes);
        self.set_timer(TimerId::Handshake, Duration::from_nanos(model::SYN_INTERVAL));
    }

    /// The configured latency as it is sent.
    fn latency_ms(&self) -> (r: u16)
        ensures
            r == model::latency_ms(self@.config.latency),
    {
        proof {
            reveal(Connection::state_view);
        }
        millis_u16(self.config.latency)
    }

    /// Brings the connection up: the periodic timers are set, and the application
    /// is told.
    fn enter_connected(&mut self, negotiated: Negotiated, now: Instant)
        requires
            old(self).wf(),
        ensures
            final(self).wf(),
            final(self)@ == old(self)@.connected(negotiated@, now@),
    {
        proof {
            reveal(ConnView::connected);
            reveal(Connection::state_view);
        }
        self.state = State::Connected;
        self.peer_socket_id = negotiated.peer_socket_id;
        self.latency = negotiated.latency;
        self.recv_buffer = RecvBuffer::new(negotiated.peer_initial_seq);
        self.last_sent = now;
        self.last_recv_any = now;
        self.set_timer(TimerId::Ack, Duration::from_nanos(model::ACK_INTERVAL));
        let interval = self.nak_interval();
        self.set_timer(TimerId::Nak, interval);
        self.set_timer(TimerId::Keepalive, Duration::from_nanos(model::KEEPALIVE_PERIOD));
        let idle = self.config.peer_idle_timeout;
        self.set_timer(TimerId::PeerIdle, idle);
        self.push_event(Event::Connected(negotiated));
    }

    /// Between two periodic loss reports: half the retransmission timeout, but
    /// not too short.
    pub(crate) fn nak_interval(&self) -> (r: Duration)
        ensures
            r@ == self@.nak_interval(),
    {
        proof {
            reveal(Connection::state_view);
        }
        let floor = Duration::from_nanos(model::MIN_NAK_INTERVAL);
        floor.longer(self.rtt.rto().divided_by(2))
    }
}

/// The answer to a caller's second handshake.
fn make_response(
    config: &Config,
    local_socket_id: SocketId,
    caller_hs: &Handshake,
    latency: Duration,
    km: &Option<Bytes>,
) -> (r: Handshake)
    requires
        *km matches Some(content) ==> buffer::bytes_seq(content).len()
            < handshake::MAX_EXT_CONTENT,
    ensures
        r@ == model::response_to(
            config@,
            local_socket_id,
            caller_hs@,
            latency@,
            crate::connection::bytes_view(*km),
        ),
        r@.encodable(),
{
    let hello = srt_handshake_ext(millis_u16(latency));
    let mut extensions: Vec<HandshakeExtension> = Vec::new();
    extensions.push(HandshakeExtension::HsRsp(hello));
    let mut extension_field: u16 = EXT_FLAG_HSREQ;
    if let Some(content) = km {
        extensions.push(
            HandshakeExtension::Raw { ext_type: EXT_KMRSP, content: content.clone() },
        );
        extension_field = EXT_FLAG_HSREQ + EXT_FLAG_KMREQ;
    }
    let response = Handshake {
        version: HS_VERSION_SRT,
        encryption: caller_hs.encryption,
        extension_field,
        initial_seq: caller_hs.initial_seq,
        mtu: config.mtu,
        max_flow_window: config.flow_window,
        handshake_type: HandshakeType::from_raw(HandshakeType::CONCLUSION),
        srt_socket_id: local_socket_id,
        syn_cookie: 0,
        peer_ip: [0u8; 16],
        extensions,
    };
    proof {
        handshake::law_srt_handshake_round_trips(hello);
        let expected = model::response_to(
            config@,
            local_socket_id,
            caller_hs@,
            latency@,
            crate::connection::bytes_view(*km),
        );
        assert(response@.peer_ip =~= model::no_ip());
        assert(response@.extensions =~= expected.extensions);
        assert(response@ =~= expected);
    }
    response
}

proof fn lemma_km_request_fits(exts: Seq<handshake::ExtensionView>)
    requires
        forall|i: int| 0 <= i < exts.len() ==> (#[trigger] exts[i]).encodable(),
    ensures
        model::km_request(exts) matches Some(content) ==> content.len()
            < handshake::MAX_EXT_CONTENT,
    decreases exts.len(),
{
    if exts.len() > 0 {
        assert(exts[0].encodable());
        let rest = exts.skip(1);
        assert forall|i: int| 0 <= i < rest.len() implies (#[trigger] rest[i]).encodable() by {
            assert(rest[i] == exts[i + 1]);
        }
        lemma_km_request_fits(rest);
    }
}

/// What is agreed with the peer: of the two latencies the longer.
pub fn negotiate(local_latency: Duration, peer_hs: &Handshake) -> (r: Negotiated)
    ensures
        r@ == model::negotiated(local_latency@, peer_hs@),
{
    let ghost exts = peer_hs@.extensions;
    let mut delay_ms: u16 = 0;
    let mut i: usize = 0;
    assert(exts.skip(0) =~= exts);
    while i < peer_hs.extensions.len()
        invariant_except_break
            delay_ms == 0,
        invariant
            i <= peer_hs.extensions@.len(),
            exts == peer_hs@.extensions,
            model::peer_delay(exts) == model::peer_delay(exts.skip(i as int)),
        ensures
            delay_ms == model::peer_delay(exts),
        decreases peer_hs.extensions@.len() - i,
    {
        assert(exts.skip(i as int)[0] == peer_hs.extensions@[i as int]@);
        assert(exts.skip(i as int).skip(1) =~= exts.skip(i + 1));
        match &peer_hs.extensions[i] {
            HandshakeExtension::HsReq(hs) => {
                delay_ms = hs.recv_tsbpd_delay;
                break ;
            },
            HandshakeExtension::HsRsp(hs) => {
                delay_ms = hs.recv_tsbpd_delay;
                break ;
            },
            _ => {},
        }
        i += 1;
    }
    let asked = Duration::from_millis(delay_ms as u64);
    Negotiated {
        peer_socket_id: peer_hs.srt_socket_id,
        peer_initial_seq: peer_hs.initial_seq,
        latency: local_latency.longer(asked),
        encryption: peer_hs.encryption,
    }
}

/// The key material request in a handshake.
fn find_km_request(hs: &Handshake) -> (r: Option<&Bytes>)
    ensures
        match r {
            Some(content) => model::km_request(hs@.extensions) == Some(
                buffer::bytes_seq(*content),
            ),
            None => model::km_request(hs@.extensions) is None,
        },
{
    let ghost exts = hs@.extensions;
    let mut i: usize = 0;
    assert(exts.skip(0) =~= exts);
    while i < hs.extensions.len()
        invariant
            i <= hs.extensions@.len(),
            exts == hs@.extensions,
            model::km_request(exts) == model::km_request(exts.skip(i as int)),
        decreases hs.extensions@.len() - i,
    {
        assert(exts.skip(i as int)[0] == hs.extensions@[i as int]@);
        assert(exts.skip(i as int).skip(1) =~= exts.skip(i + 1));
        if let HandshakeExtension::Raw { ext_type, content } = &hs.extensions[i] {
            if *ext_type == EXT_KMREQ {
                return Some(content);
            }
        }
        i += 1;
    }
    None
}

/// Whether a caller is let in, and with which keys.
fn accept_crypto(encryption: &Option<EncryptionSettings>, caller_hs: &Handshake) -> (r: Result<
    Option<(UnwrappedKm, Bytes)>,
    CryptoError,
>)
    ensures
        ({
            let enc = match *encryption {
                Some(e) => Some(e@),
                None => None,
            };
            match r {
                Ok(Some((slots, content))) => slots@.wf() && model::admission(
                    enc,
                    caller_hs@.extensions,
                ) == Ok::<Option<(SlotsView, Seq<u8>)>, CryptoError>(
                    Some((slots@, buffer::bytes_seq(content))),
                ) && model::km_request(caller_hs@.extensions) == Some(
                    buffer::bytes_seq(content),
                ),
                Ok(None) => model::admission(enc, caller_hs@.extensions) == Ok::<
                    Option<(SlotsView, Seq<u8>)>,
                    CryptoError,
                >(None),
                Err(e) => model::admission(enc, caller_hs@.extensions) == Err::<
                    Option<(SlotsView, Seq<u8>)>,
                    CryptoError,
                >(e),
            }
        }),
{
    match (encryption, find_km_request(caller_hs)) {
        (None, None) => Ok(None),
        (None, Some(_)) => Err(CryptoError::UnexpectedKeyMaterial),
        (Some(_), None) => Err(CryptoError::MissingKeyMaterial),
        (Some(enc), Some(content)) => {
            let km = match KeyMaterial::decode(buffer::as_slice(content)) {
                Ok(km) => km,
                Err(e) => {
                    return Err(e);
                },
            };
            match UnwrappedKm::from_key_material(&km, enc.passphrase.as_slice()) {
                Ok(slots) => Ok(Some((slots, content.clone()))),
                Err(e) => Err(e),
            }
        },
    }
}

/// The handshake extension that is always sent. It names every capability that
/// this library has, periodic loss reports among them: a peer that misses those
/// would fall back to blind retransmission.
pub fn srt_handshake_ext(latency_ms: u16) -> (r: SrtHandshake)
    ensures
        r == model::srt_ext(latency_ms),
        r.flags.0 & SrtFlags::TSBPD_SND == SrtFlags::TSBPD_SND,
        r.flags.0 & SrtFlags::TSBPD_RCV == SrtFlags::TSBPD_RCV,
        r.flags.0 & SrtFlags::TLPKTDROP == SrtFlags::TLPKTDROP,
        r.flags.0 & SrtFlags::PERIODIC_NAK == SrtFlags::PERIODIC_NAK,
        r.flags.0 & SrtFlags::REXMIT == SrtFlags::REXMIT,
{
    assert(0x3Bu32 & 1 == 1 && 0x3Bu32 & 2 == 2 && 0x3Bu32 & 8 == 8 && 0x3Bu32 & 0x10 == 0x10
        && 0x3Bu32 & 0x20 == 0x20) by (bit_vector);
    SrtHandshake {
        srt_version: SRT_LIBRARY_VERSION,
        flags: SrtFlags::from_bits(model::SRT_CAPABILITIES),
        recv_tsbpd_delay: latency_ms,
        send_tsbpd_delay: latency_ms,
    }
}

/// A span in whole milliseconds, in 16 bits.
pub fn millis_u16(d: Duration) -> (r: u16)
    ensures
        r == model::latency_ms(d@),
{
    let millis: u128 = d.as_millis();
    if millis > 0xFFFF {
        0xFFFF
    } else {
        millis as u16
    }
}

} // verus!
