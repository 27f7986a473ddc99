//! The connection as a mathematical value: its state, and what every event makes
//! of it. The executable state machine is proved to follow these steps.

use crate::arith;
use crate::connection::config::{ConfigView, EncryptionView, NegotiatedView};
use crate::connection::event::{EventView, OutputView, TimerId};
use crate::connection::message;
use crate::connection::message::{FragmentView, ReassemblerView};
use crate::connection::{Side, State};
use crate::control::{AckCif, ControlType, ControlView};
use crate::crypto;
use crate::crypto::key_material::{KeyFlags, KmView};
use crate::crypto::{CryptoView, KeysView, SlotsView};
use crate::drift::DriftView;
use crate::error::{ConnectionError, CryptoError};
use crate::fec;
use crate::fec::{FecEncoderView, FecFields, FecReceiverView, RecoveredView};
use crate::handshake;
use crate::handshake::{
    EncryptionField, ExtensionView, HandshakeType, HandshakeView, RejectReason, SrtFlags,
    SrtHandshake,
};
use crate::live_cc::LiveCcView;
use crate::packet::{DataView, Encryption, PacketPosition, PacketView, SocketId};
use crate::rate;
use crate::rate::RateView;
use crate::recv_buffer;
use crate::recv_buffer::RecvView;
use crate::rtt::RttView;
use crate::send_buffer;
use crate::send_buffer::SentView;
use crate::stats::Stats;
use crate::timestamp;
use crate::timestamp::WrapView;
use vstd::prelude::*;

verus! {

/// The version in the first handshake.
pub const HS_VERSION_UDT: u32 = 4;

/// The version in every later handshake.
pub const HS_VERSION_SRT: u32 = 5;

/// What a listener puts in the extension field of its first answer.
pub const SRT_MAGIC: u16 = 0x4A17;

/// What a caller puts in the extension field of its first handshake.
pub const INDUCTION_EXT_FIELD: u16 = 2;

/// Extension field flag: a handshake extension is present.
pub const EXT_FLAG_HSREQ: u16 = 1;

/// Extension field flag: a key material extension is present.
pub const EXT_FLAG_KMREQ: u16 = 2;

/// Extension field flag: a configuration extension is present.
pub const EXT_FLAG_CONFIG: u16 = 4;

/// The library version that is advertised: 1.5.4.
pub const SRT_LIBRARY_VERSION: u32 = 0x0001_0504;

/// The capabilities that are advertised: timed delivery both ways, dropping
/// what is too late, periodic loss reports and the retransmission flag.
pub const SRT_CAPABILITIES: u32 = 0x3B;

/// The type of a key material request.
pub const EXT_KMREQ: u16 = 3;

/// The type of a key material response.
pub const EXT_KMRSP: u16 = 4;

/// Between two handshake retransmissions, in nanoseconds.
pub const SYN_INTERVAL: u64 = 250_000_000;

/// Between two full acknowledgements, in nanoseconds.
pub const ACK_INTERVAL: u64 = 10_000_000;

/// The shortest time between two periodic loss reports, in nanoseconds.
pub const MIN_NAK_INTERVAL: u64 = 20_000_000;

/// The shortest retransmission timeout, in nanoseconds.
pub const MIN_EXP_INTERVAL: u64 = 300_000_000;

/// How long a connection may be silent, in nanoseconds.
pub const KEEPALIVE_PERIOD: u64 = 1_000_000_000;

/// The least age, in microseconds, at which the sender gives a packet up, before
/// the margin.
pub const SND_DROP_MIN_US: i64 = 1_000_000;

/// What is added to the age at which the sender gives a packet up, in
/// microseconds.
pub const SND_DROP_MARGIN_US: i64 = 20_000;

/// A light acknowledgement goes out every so many packets.
pub const LIGHT_ACK_EVERY: u32 = 64;

/// The most full acknowledgements that wait for their answer.
pub const MAX_PENDING_ACKS: usize = 16;

/// The largest factor on the retransmission timeout.
pub const MAX_EXP_COUNT: u32 = 8;

/// The most packets that one call of the pacer releases.
pub const MAX_PACE_BURST: usize = 256;

/// The largest reorder tolerance.
pub const MAX_REORDER_TOLERANCE: u32 = 32;

/// So many packets in order take one off the reorder tolerance.
pub const REORDER_DECAY_AFTER: u32 = 50;

/// Packets that are sent with one key if nothing else is configured.
pub const KM_REFRESH_DEFAULT: u32 = 0x100_0000;

/// How often an unconfirmed key is announced again.
pub const MAX_KM_RETRIES: u32 = 60;

/// Bytes of a datagram that are not payload.
pub const HEADERS: usize = 44;

/// A connection's state.
pub struct ConnView {
    /// The configuration.
    pub config: ConfigView,
    /// The own socket id.
    pub local_socket_id: SocketId,
    /// The first sequence number sent.
    pub initial_seq: u32,
    /// The instant from which timestamps count.
    pub start: u64,
    /// Which end this is.
    pub side: Side,
    /// How far the connection is.
    pub state: State,
    /// The peer's socket id.
    pub peer_socket_id: SocketId,
    /// The cookie to give back.
    pub syn_cookie: u32,
    /// The last handshake sent.
    pub last_handshake: Option<Seq<u8>>,
    /// The latency in nanoseconds: the configured one, then the agreed one.
    pub latency: int,
    /// The keys of an encrypted connection.
    pub crypto: Option<CryptoView>,
    /// The message that announces the first key.
    pub key_material: Option<Seq<u8>>,
    /// Packets sent with the key in use.
    pub packets_on_key: u32,
    /// A fresh key was asked for.
    pub rekey_pending: bool,
    /// The peer has confirmed the next key.
    pub next_key_ready: bool,
    /// The announcement of the next key that the peer has not confirmed.
    pub pending_km: Option<Seq<u8>>,
    /// How often it was announced again.
    pub km_retries: u32,
    /// Packets sent and not acknowledged.
    pub send_buffer: Seq<SentView>,
    /// Packets received and not delivered.
    pub recv_buffer: RecvView,
    /// A timestamp and when it arrived.
    pub tsbpd_base: Option<(u32, u64)>,
    /// The timestamps seen since.
    pub ts_wrap: Option<WrapView>,
    /// The drift between the clocks.
    pub drift: DriftView,
    /// The round trip.
    pub rtt: RttView,
    /// The next sequence number.
    pub next_send_seq: u32,
    /// The next message number.
    pub next_message: u32,
    /// The next acknowledgement number.
    pub next_ack_number: u32,
    /// Full acknowledgements whose answer is awaited, and when they were sent.
    pub pending_acks: Seq<(u32, u64)>,
    /// What the last full acknowledgement acknowledged.
    pub last_acked_point: Option<u32>,
    /// The room that it reported.
    pub last_acked_avail: Option<u32>,
    /// When the last loss report was sent.
    pub last_nak: Option<u64>,
    /// The losses reported last.
    pub reported_loss: Seq<(u32, u32)>,
    /// Packets received since the last acknowledgement.
    pub packets_since_ack: u32,
    /// The factor on the retransmission timeout.
    pub exp_count: u32,
    /// The pacer.
    pub live_cc: Option<LiveCcView>,
    /// What waits for its turn to be sent.
    pub send_queue: Seq<FragmentView>,
    /// When the next packet may be sent.
    pub next_send: Option<u64>,
    /// A close waits for the data to be acknowledged.
    pub closing: bool,
    /// When a packet was last sent.
    pub last_sent: u64,
    /// When a packet last arrived.
    pub last_recv_any: u64,
    /// The message in progress.
    pub reassembler: ReassemblerView,
    /// Makes parity packets.
    pub fec_send: Option<FecEncoderView>,
    /// Rebuilds lost packets.
    pub fec_recv: Option<FecReceiverView>,
    /// The counters.
    pub stats: Stats,
    /// The arrival rate.
    pub rate: RateView,
    /// When data last arrived.
    pub last_recv: Option<u64>,
    /// The highest sequence number received first-hand.
    pub highest_recv_seq: Option<u32>,
    /// Packets in order since the last one that was not.
    pub orderly_streak: u32,
    /// How many packets a gap may be behind before it counts as a loss.
    pub reorder_tolerance: u32,
    /// The room that the peer reported.
    pub peer_avail_window: u32,
    /// What the application has not fetched yet.
    pub events: Seq<EventView>,
    /// What the I/O layer has not fetched yet.
    pub outputs: Seq<OutputView>,
}

/// Nanoseconds from `then` to `now`, and zero if `then` is later.
pub open spec fn since(now: u64, then: u64) -> int {
    if now >= then {
        now - then
    } else {
        0
    }
}

/// The instant `nanos` after `at`, or the last there is.
pub open spec fn later(at: u64, nanos: int) -> u64 {
    arith::clamp_u64(at + nanos)
}

/// The instant shifted by microseconds, or the first or last there is.
pub open spec fn shifted(at: u64, micros: int) -> u64 {
    if micros >= 0 {
        later(at, micros * 1_000)
    } else if -micros * 1_000 <= at {
        (at + micros * 1_000) as u64
    } else {
        0
    }
}

/// Signed microseconds from one instant to another.
pub open spec fn signed_micros(from: u64, to: u64) -> i64 {
    if to >= from {
        ((to - from) / 1_000) as i64
    } else {
        (-((from - to) / 1_000)) as i64
    }
}

/// A span as microseconds in an `i64`.
pub open spec fn micros_i64(nanos: int) -> i64 {
    arith::clamp_i64(nanos / 1_000) as i64
}

/// A counter after `n` more.
pub open spec fn bump(counter: u64, n: int) -> u64 {
    arith::clamp_u64(counter + n)
}

/// A control datagram.
#[verifier::opaque]
pub open spec fn control_bytes(dest: SocketId, ts: u32, body: ControlView) -> Seq<u8> {
    (PacketView::Control { timestamp: ts, dest_socket_id: dest, body }).bytes()
}

/// The timestamp at `now` of an endpoint that counts from `start`: microseconds,
/// in 32 bits.
pub open spec fn wire_ts(start: u64, now: u64) -> u32 {
    (since(now, start) / 1_000 % 0x1_0000_0000) as u32
}

/// The delay that the first handshake extension asks for, in milliseconds.
pub open spec fn peer_delay(exts: Seq<ExtensionView>) -> u16
    decreases exts.len(),
{
    if exts.len() == 0 {
        0
    } else {
        match exts[0] {
            ExtensionView::HsReq(hs) => hs.recv_tsbpd_delay,
            ExtensionView::HsRsp(hs) => hs.recv_tsbpd_delay,
            _ => peer_delay(exts.skip(1)),
        }
    }
}

/// The first key material request.
pub open spec fn km_request(exts: Seq<ExtensionView>) -> Option<Seq<u8>>
    decreases exts.len(),
{
    if exts.len() == 0 {
        None
    } else {
        match exts[0] {
            ExtensionView::Raw { ext_type, content } => if ext_type == EXT_KMREQ {
                Some(content)
            } else {
                km_request(exts.skip(1))
            },
            _ => km_request(exts.skip(1)),
        }
    }
}

/// What is agreed with the peer: of the two latencies the longer.
pub open spec fn negotiated(local_latency: int, hs: HandshakeView) -> NegotiatedView {
    let asked = peer_delay(hs.extensions) * 1_000_000;
    NegotiatedView {
        peer_socket_id: hs.srt_socket_id,
        peer_initial_seq: hs.initial_seq,
        latency: if asked > local_latency {
            asked
        } else {
            local_latency
        },
        encryption: hs.encryption,
    }
}

/// Whether a caller is let in: the keys it brought, along with the message that
/// carried them, or why not. Either both ends encrypt or neither does.
pub open spec fn admission(
    encryption: Option<EncryptionView>,
    exts: Seq<ExtensionView>,
) -> Result<Option<(SlotsView, Seq<u8>)>, CryptoError> {
    match (encryption, km_request(exts)) {
        (None, None) => Ok(None),
        (None, Some(_)) => Err(CryptoError::UnexpectedKeyMaterial),
        (Some(_), None) => Err(CryptoError::MissingKeyMaterial),
        (Some(enc), Some(content)) => match KmView::of_bytes(content) {
            Ok(km) => match SlotsView::unwrapped(km, enc.passphrase) {
                Ok(slots) => Ok(Some((slots, content))),
                Err(e) => Err(e),
            },
            Err(e) => Err(e),
        },
    }
}

/// Whether whoever knows the passphrase gets a key out of the message that
/// announces it.
pub open spec fn announcement_opens(
    passphrase: Seq<u8>,
    flags: KeyFlags,
    keys: KeysView,
) -> bool {
    let km = crypto::announced(passphrase, flags, keys.mode, keys.salt, keys.sek);
    &&& km.wf()
    &&& SlotsView::unwrapped(km, passphrase) == Ok::<SlotsView, CryptoError>(
        SlotsView::single(flags, keys),
    )
}

/// The handshake extension that is always sent.
pub open spec fn srt_ext(latency_ms: u16) -> SrtHandshake {
    SrtHandshake {
        srt_version: SRT_LIBRARY_VERSION,
        flags: SrtFlags(SRT_CAPABILITIES),
        recv_tsbpd_delay: latency_ms,
        send_tsbpd_delay: latency_ms,
    }
}

/// A latency as it is sent.
pub open spec fn latency_ms(nanos: int) -> u16 {
    arith::clamp_u16(nanos / 1_000_000)
}

/// Sixteen zero bytes.
pub open spec fn no_ip() -> Seq<u8> {
    Seq::new(16, |i: int| 0u8)
}

/// Whether `n` lies between `start` and `end`, on the circle.
pub open spec fn in_range(n: u32, start: u32, end: u32) -> bool {
    crate::seq::seq_offset(n, start) >= 0 && crate::seq::seq_offset(end, n) >= 0
}

/// How many of the oldest packets are older than `budget` microseconds.
pub open spec fn late_count(s: Seq<SentView>, ts: u32, budget: int) -> nat
    decreases s.len(),
{
    if s.len() > 0 && timestamp::ts_diff(ts, s[0].packet.timestamp) > budget {
        1 + late_count(s.skip(1), ts, budget)
    } else {
        0
    }
}

/// The first acknowledgement with the given number; the length if there is none.
pub open spec fn ack_index(acks: Seq<(u32, u64)>, n: u32) -> int
    decreases acks.len(),
{
    if acks.len() == 0 || acks[0].0 == n {
        0
    } else {
        1 + ack_index(acks.skip(1), n)
    }
}

/// The largest payload that a parity packet covers.
pub open spec fn fec_clip(mtu: u32) -> int {
    if mtu <= HEADERS {
        1
    } else {
        mtu - HEADERS
    }
}

/// The next message number: 0 is left out.
pub open spec fn following_message(n: u32) -> u32 {
    let next = (n + 1) % 0x1_0000_0000;
    if next % 0x400_0000 == 0 {
        1
    } else {
        next as u32
    }
}

/// The packets held are consecutive, up to the next one to be sent.
#[verifier::opaque]
pub open spec fn buffer_ok(s: Seq<SentView>, next_send_seq: u32) -> bool {
    &&& send_buffer::contiguous(s)
    &&& s.len() > 0 ==> next_send_seq == crate::seq::seq_add(s.last().packet.seq, 1)
}

/// The parity coders are in a valid state.
#[verifier::opaque]
pub open spec fn parity_ok(
    fec_send: Option<FecEncoderView>,
    fec_recv: Option<FecReceiverView>,
) -> bool {
    &&& fec_send matches Some(fec) ==> fec.wf()
    &&& fec_recv matches Some(fec) ==> fec.wf()
}

/// The key slots are in a valid state, and an announced or confirmed key has its
/// slot.
#[verifier::opaque]
pub open spec fn keys_ok(
    crypto: Option<CryptoView>,
    next_key_ready: bool,
    pending_km: Option<Seq<u8>>,
) -> bool {
    &&& crypto matches Some(c) ==> c.wf()
    &&& next_key_ready || pending_km is Some ==> crypto is Some && crypto->0.slot(
        crypto->0.next_slot(),
    ) is Some
}

/// What waits to be sent fits in packets.
#[verifier::opaque]
pub open spec fn queue_ok(q: Seq<FragmentView>) -> bool {
    forall|i: int| 0 <= i < q.len() ==> (#[trigger] q[i]).payload.len() <= u32::MAX
}

impl ConnView {
    /// What every step keeps.
    pub open spec fn wf(self) -> bool {
        &&& self.state == State::Induction ==> self.config.encodable()
        &&& buffer_ok(self.send_buffer, self.next_send_seq)
        &&& parity_ok(self.fec_send, self.fec_recv)
        &&& keys_ok(self.crypto, self.next_key_ready, self.pending_km)
        &&& self.key_material matches Some(km) ==> km.len() < handshake::MAX_EXT_CONTENT
        &&& self.km_retries <= MAX_KM_RETRIES
        &&& 1 <= self.exp_count <= MAX_EXP_COUNT
        &&& self.pending_acks.len() <= MAX_PENDING_ACKS
        &&& self.packets_since_ack < LIGHT_ACK_EVERY
        &&& self.orderly_streak < REORDER_DECAY_AFTER
        &&& self.reorder_tolerance <= MAX_REORDER_TOLERANCE
        &&& queue_ok(self.send_queue)
    }

    // ---- effects ----

    /// With an output queued.
    pub open spec fn out(self, o: OutputView) -> ConnView {
        ConnView { outputs: self.outputs.push(o), ..self }
    }

    /// With a timer set.
    pub open spec fn timer(self, id: TimerId, after: int) -> ConnView {
        self.out(OutputView::SetTimer { id, after })
    }

    /// With a timer cleared.
    pub open spec fn untimed(self, id: TimerId) -> ConnView {
        self.out(OutputView::ClearTimer { id })
    }

    /// With a datagram queued.
    pub open spec fn datagram(self, bytes: Seq<u8>) -> ConnView {
        self.out(OutputView::SendDatagram(bytes))
    }

    /// With a datagram queued that counts as a sign of life.
    pub open spec fn emitted(self, bytes: Seq<u8>, now: u64) -> ConnView {
        ConnView { last_sent: now, ..self.datagram(bytes) }
    }

    /// With an event queued.
    pub open spec fn raised(self, e: EventView) -> ConnView {
        ConnView { events: self.events.push(e), ..self }
    }

    /// The timestamp at `now`.
    pub open spec fn ts(self, now: u64) -> u32 {
        wire_ts(self.start, now)
    }

    /// A control datagram to the peer.
    pub open spec fn control(self, body: ControlView, now: u64) -> Seq<u8> {
        control_bytes(self.peer_socket_id, self.ts(now), body)
    }

    /// Without its periodic timers.
    #[verifier::opaque]
    pub open spec fn timers_cleared(self) -> ConnView {
        self.untimed(TimerId::Ack).untimed(TimerId::Nak).untimed(TimerId::Exp).untimed(
            TimerId::Tsbpd,
        ).untimed(TimerId::SndPacing).untimed(TimerId::Keepalive).untimed(TimerId::PeerIdle)
    }

    // ---- setup ----

    /// A connection before its first step.
    #[verifier::opaque]
    pub open spec fn fresh(
        config: ConfigView,
        local_socket_id: SocketId,
        initial_seq: u32,
        start: u64,
        side: Side,
        state: State,
    ) -> ConnView {
        ConnView {
            config,
            local_socket_id,
            initial_seq,
            start,
            side,
            state,
            peer_socket_id: SocketId(0),
            syn_cookie: 0,
            last_handshake: None,
            latency: config.latency,
            crypto: None,
            key_material: None,
            packets_on_key: 0,
            rekey_pending: false,
            next_key_ready: false,
            pending_km: None,
            km_retries: 0,
            send_buffer: Seq::empty(),
            recv_buffer: RecvView { base: initial_seq, slots: Seq::empty() },
            tsbpd_base: None,
            ts_wrap: None,
            drift: DriftView { sum_us: 0, count: 0, correction_us: 0, first_rtt_us: None },
            rtt: RttView::initial(),
            next_send_seq: initial_seq,
            next_message: 1,
            next_ack_number: 1,
            pending_acks: Seq::empty(),
            last_acked_point: None,
            last_acked_avail: None,
            last_nak: None,
            reported_loss: Seq::empty(),
            packets_since_ack: 0,
            exp_count: 1,
            live_cc: if config.max_bw > 0 {
                Some(LiveCcView::starting(config.max_bw))
            } else {
                None
            },
            send_queue: Seq::empty(),
            next_send: None,
            closing: false,
            last_sent: start,
            last_recv_any: start,
            reassembler: ReassemblerView::empty(),
            fec_send: match config.fec {
                Some(f) => Some(
                    FecEncoderView {
                        group_size: fec::effective_group(f.group_size),
                        clip: FecFields::zero(fec_clip(config.mtu) as nat),
                        collected: 0,
                    },
                ),
                None => None,
            },
            fec_recv: match config.fec {
                Some(f) => Some(
                    FecReceiverView {
                        group_size: fec::effective_group(f.group_size),
                        payload_size: fec_clip(config.mtu) as nat,
                        data: Map::empty(),
                        parities: Map::empty(),
                        newest: None,
                    },
                ),
                None => None,
            },
            stats: Stats::zero(),
            rate: RateView::empty(),
            last_recv: None,
            highest_recv_seq: None,
            orderly_streak: 0,
            reorder_tolerance: 0,
            peer_avail_window: config.flow_window,
            events: Seq::empty(),
            outputs: Seq::empty(),
        }
    }

    /// A caller that has sent its first handshake.
    #[verifier::opaque]
    pub open spec fn calling(
        config: ConfigView,
        local_socket_id: SocketId,
        initial_seq: u32,
        now: u64,
        salt: Seq<u8>,
        sek: Seq<u8>,
    ) -> ConnView {
        let base = Self::fresh(
            config,
            local_socket_id,
            initial_seq,
            now,
            Side::Caller,
            State::Induction,
        );
        let keyed = match config.encryption {
            Some(enc) => ConnView {
                crypto: Some(
                    CryptoView::starting(
                        SlotsView::single(
                            KeyFlags::Even,
                            KeysView { salt, sek, mode: enc.cipher },
                        ),
                    ),
                ),
                key_material: Some(
                    crypto::announced(
                        enc.passphrase,
                        KeyFlags::Even,
                        enc.cipher,
                        salt,
                        sek,
                    ).bytes(),
                ),
                ..base
            },
            None => base,
        };
        keyed.inducted(now)
    }

    /// A connection let in by a listener, which has answered the caller's second
    /// handshake; or why it was not let in.
    #[verifier::opaque]
    pub open spec fn accepted(
        config: ConfigView,
        local_socket_id: SocketId,
        hs: HandshakeView,
        now: u64,
    ) -> Result<ConnView, CryptoError> {
        match admission(config.encryption, hs.extensions) {
            Err(e) => Err(e),
            Ok(keys) => {
                let agreed = negotiated(config.latency, hs);
                let base = Self::fresh(
                    config,
                    local_socket_id,
                    hs.initial_seq,
                    now,
                    Side::Acceptor,
                    State::Conclusion,
                );
                let km = match keys {
                    Some((_, content)) => Some(content),
                    None => None,
                };
                let response = control_bytes(
                    hs.srt_socket_id,
                    base.ts(now),
                    ControlView::Handshake(
                        response_to(config, local_socket_id, hs, agreed.latency, km),
                    ),
                );
                Ok(
                    ConnView {
                        crypto: match keys {
                            Some((slots, _)) => Some(CryptoView::starting(slots)),
                            None => None,
                        },
                        key_material: km,
                        last_handshake: Some(response),
                        ..base
                    }.datagram(response).connected(agreed, now),
                )
            },
        }
    }

    /// The first handshake of a caller.
    #[verifier::opaque]
    pub open spec fn induction_hs(self) -> HandshakeView {
        HandshakeView {
            version: HS_VERSION_UDT,
            encryption: EncryptionField::Unencrypted,
            extension_field: INDUCTION_EXT_FIELD,
            initial_seq: self.initial_seq,
            mtu: self.config.mtu,
            max_flow_window: self.config.flow_window,
            handshake_type: HandshakeType(HandshakeType::INDUCTION),
            srt_socket_id: self.local_socket_id,
            syn_cookie: 0,
            peer_ip: no_ip(),
            extensions: Seq::empty(),
        }
    }

    /// The extensions of a caller's second handshake.
    #[verifier::opaque]
    pub open spec fn conclusion_exts(self) -> Seq<ExtensionView> {
        let hello = seq![ExtensionView::HsReq(srt_ext(latency_ms(self.config.latency)))];
        let named = match self.config.stream_id {
            Some(id) => hello.push(ExtensionView::StreamId(id)),
            None => hello,
        };
        match (self.key_material, self.config.encryption) {
            (Some(km), Some(_)) => named.push(
                ExtensionView::Raw { ext_type: EXT_KMREQ, content: km },
            ),
            _ => named,
        }
    }

    /// The second handshake of a caller.
    #[verifier::opaque]
    pub open spec fn conclusion_hs(self) -> HandshakeView {
        let keyed = self.key_material is Some && self.config.encryption is Some;
        HandshakeView {
            version: HS_VERSION_SRT,
            encryption: if keyed {
                self.config.encryption->0.key_size.field()
            } else {
                EncryptionField::Unencrypted
            },
            extension_field: (EXT_FLAG_HSREQ + (if self.config.stream_id is Some {
                EXT_FLAG_CONFIG as int
            } else {
                0
            }) + (if keyed {
                EXT_FLAG_KMREQ as int
            } else {
                0
            })) as u16,
            initial_seq: self.initial_seq,
            mtu: self.config.mtu,
            max_flow_window: self.config.flow_window,
            handshake_type: HandshakeType(HandshakeType::CONCLUSION),
            srt_socket_id: self.local_socket_id,
            syn_cookie: self.syn_cookie,
            peer_ip: no_ip(),
            extensions: self.conclusion_exts(),
        }
    }

    /// After sending a handshake, which is kept to be sent again.
    #[verifier::opaque]
    pub open spec fn handshake_sent(self, hs: HandshakeView, now: u64) -> ConnView {
        let bytes = control_bytes(SocketId(0), self.ts(now), ControlView::Handshake(hs));
        ConnView { last_handshake: Some(bytes), ..self }.datagram(bytes).timer(
            TimerId::Handshake,
            SYN_INTERVAL as int,
        )
    }

    /// After sending the first handshake.
    #[verifier::opaque]
    pub open spec fn inducted(self, now: u64) -> ConnView {
        self.handshake_sent(self.induction_hs(), now)
    }

    /// After the listener's refusal.
    #[verifier::opaque]
    pub open spec fn refused(self, reason: RejectReason) -> ConnView {
        ConnView { state: State::Failed, ..self }.untimed(TimerId::Handshake).raised(
            EventView::Failed(ConnectionError::Rejected(reason)),
        )
    }

    /// After the answer to the first handshake.
    #[verifier::opaque]
    pub open spec fn induction_answered(self, hs: HandshakeView, now: u64) -> ConnView {
        if hs.handshake_type.reason() is Some {
            self.refused(hs.handshake_type.reason()->0)
        } else if hs.version != HS_VERSION_SRT || hs.extension_field != SRT_MAGIC
            || hs.handshake_type.0 != HandshakeType::INDUCTION {
            self
        } else {
            let s = ConnView {
                peer_socket_id: hs.srt_socket_id,
                syn_cookie: hs.syn_cookie,
                state: State::Conclusion,
                ..self
            };
            s.handshake_sent(s.conclusion_hs(), now)
        }
    }

    /// After the answer to the second handshake.
    #[verifier::opaque]
    pub open spec fn conclusion_answered(self, hs: HandshakeView, now: u64) -> ConnView {
        if hs.handshake_type.reason() is Some {
            self.refused(hs.handshake_type.reason()->0)
        } else if hs.handshake_type.0 != HandshakeType::CONCLUSION || hs.version
            != HS_VERSION_SRT {
            self
        } else {
            self.untimed(TimerId::Handshake).connected(negotiated(self.config.latency, hs), now)
        }
    }

    /// With the connection up.
    #[verifier::opaque]
    pub open spec fn connected(self, agreed: NegotiatedView, now: u64) -> ConnView {
        ConnView {
            state: State::Connected,
            peer_socket_id: agreed.peer_socket_id,
            latency: agreed.latency,
            recv_buffer: RecvView { base: agreed.peer_initial_seq, slots: Seq::empty() },
            last_sent: now,
            last_recv_any: now,
            ..self
        }.timer(TimerId::Ack, ACK_INTERVAL as int).timer(
            TimerId::Nak,
            self.nak_interval(),
        ).timer(TimerId::Keepalive, KEEPALIVE_PERIOD as int).timer(
            TimerId::PeerIdle,
            self.config.peer_idle_timeout,
        ).raised(EventView::Connected(agreed))
    }

    // ---- intervals and windows ----

    /// Between two periodic loss reports.
    pub open spec fn nak_interval(self) -> int {
        let half = self.rtt.rto() / 2;
        if half > MIN_NAK_INTERVAL {
            half
        } else {
            MIN_NAK_INTERVAL as int
        }
    }

    /// The retransmission timeout, with its factor.
    pub open spec fn exp_interval(self) -> int {
        let scaled = self.rtt.rto() * self.exp_count;
        let limited = if scaled > crate::time::MAX_NANOS {
            crate::time::MAX_NANOS as int
        } else {
            scaled
        };
        if limited > MIN_EXP_INTERVAL {
            limited
        } else {
            MIN_EXP_INTERVAL as int
        }
    }

    /// With the retransmission timeout set.
    #[verifier::opaque]
    pub open spec fn exp_armed(self) -> ConnView {
        self.timer(TimerId::Exp, self.exp_interval())
    }

    /// The room for received packets: what is held for delivery and what the
    /// application has not fetched takes it up.
    #[verifier::opaque]
    pub open spec fn available(self) -> u32 {
        let held = recv_buffer::present(self.recv_buffer.slots) + self.events.len();
        if held >= self.config.flow_window {
            0
        } else {
            (self.config.flow_window - held) as u32
        }
    }

    /// Whether more data may be taken: neither the own window nor the peer's is
    /// full.
    pub open spec fn window_open(self) -> bool {
        let outstanding = self.send_buffer.len() + self.send_queue.len();
        outstanding < self.config.flow_window && outstanding < self.peer_avail_window
    }

    /// The largest payload of a packet.
    pub open spec fn max_payload(self) -> int {
        let tag: int = if self.crypto is Some && self.crypto->0.is_aead() {
            16
        } else {
            0
        };
        if self.config.mtu <= HEADERS + tag {
            1
        } else {
            self.config.mtu - HEADERS - tag
        }
    }

    // ---- sending ----

    /// Packets that are sent with one key.
    pub open spec fn km_refresh(self) -> u32 {
        if self.config.km_refresh_rate == 0 {
            KM_REFRESH_DEFAULT
        } else {
            self.config.km_refresh_rate
        }
    }

    /// How far ahead the next key is announced.
    pub open spec fn km_preannounce(self) -> u32 {
        let quarter = self.km_refresh() / 4;
        if quarter > 1 {
            quarter
        } else {
            1
        }
    }

    /// With outgoing packets switched to the next key.
    #[verifier::opaque]
    pub open spec fn rotated(self) -> ConnView {
        ConnView {
            crypto: Some(self.crypto->0.activated(self.crypto->0.next_flags())),
            packets_on_key: 0,
            next_key_ready: false,
            ..self
        }
    }

    /// Before an encrypted packet: it is counted on its key, the key is rotated
    /// if the next one is confirmed and it is time, and the next one is asked for
    /// ahead of that.
    #[verifier::opaque]
    pub open spec fn accounted(self) -> ConnView {
        if self.crypto is None {
            self
        } else {
            let s = if self.next_key_ready && self.packets_on_key >= self.km_refresh() {
                self.rotated()
            } else {
                self
            };
            let t = ConnView { packets_on_key: arith::clamp_u32(s.packets_on_key + 1), ..s };
            if !t.rekey_pending && !t.next_key_ready && t.pending_km is None && t.packets_on_key
                >= self.km_refresh() - self.km_preannounce() && self.config.encryption is Some {
                ConnView { rekey_pending: true, ..t }.raised(
                    EventView::KeyRefreshNeeded {
                        key_size: self.config.encryption->0.key_size.len(),
                    },
                )
            } else {
                t
            }
        }
    }

    /// The packet that carries a fragment, not yet encrypted.
    #[verifier::opaque]
    pub open spec fn plain_packet(self, f: FragmentView, now: u64) -> DataView {
        DataView {
            seq: self.next_send_seq,
            position: f.position,
            in_order: true,
            encryption: match self.crypto {
                Some(c) => c.active,
                None => Encryption::Unencrypted,
            },
            retransmitted: false,
            message_number: (f.message % 0x400_0000) as u32,
            timestamp: self.ts(now),
            dest_socket_id: self.peer_socket_id,
            payload: f.payload,
        }
    }

    /// The packet as it is sent.
    #[verifier::opaque]
    pub open spec fn wire_packet(self, f: FragmentView, now: u64) -> DataView {
        let plain = self.plain_packet(f, now);
        match self.crypto {
            Some(c) => DataView {
                payload: c.sealed(plain.seq, plain.authenticated_header(), plain.payload),
                ..plain
            },
            None => plain,
        }
    }

    /// Whether the key that a fragment is encrypted with gives its payload back,
    /// and encryption adds no more than the tag of a cipher that authenticates.
    #[verifier::opaque]
    pub open spec fn readable(self, f: FragmentView, now: u64) -> bool {
        let p = self.wire_packet(f, now);
        self.crypto matches Some(c) ==> {
            &&& c.opened(p.seq, p.encryption, p.authenticated_header(), p.payload) == Some(
                f.payload,
            )
            &&& p.payload.len() == f.payload.len() + c.tag_len()
        }
    }

    /// Whether that is so of each of a run of fragments, when its turn comes.
    #[verifier::opaque]
    pub open spec fn all_readable(self, fs: Seq<FragmentView>, now: u64) -> bool
        decreases fs.len(),
    {
        fs.len() > 0 ==> {
            &&& self.all_readable(fs.drop_last(), now)
            &&& self.sent_all(fs.drop_last(), now).accounted().readable(fs.last(), now)
        }
    }

    /// Whether that is so of each fragment that the pacer releases.
    #[verifier::opaque]
    pub open spec fn due_readable(self, released: nat, period: int, now: u64) -> bool
        decreases MAX_PACE_BURST - released,
    {
        proof {
            reveal(ConnView::releases);
        }
        self.releases(released, now) ==> {
            &&& ConnView { send_queue: self.send_queue.skip(1), ..self }.accounted().readable(
                self.send_queue[0],
                now,
            )
            &&& self.released_one(period, now).due_readable(released + 1, period, now)
        }
    }

    /// Whether that is so of each fragment that the pacer releases when it runs.
    #[verifier::opaque]
    pub open spec fn paced_readable(self, now: u64) -> bool {
        self.live_cc matches Some(cc) ==> self.due_readable(0, cc.snd_period, now)
    }

    /// Whether that is so of each fragment that goes out when the application
    /// hands over a message.
    #[verifier::opaque]
    pub open spec fn submitted_readable(self, payload: Seq<u8>, now: u64) -> bool {
        let fs = message::fragments_of(payload, self.max_payload(), self.next_message);
        let s = ConnView { next_message: following_message(self.next_message), ..self };
        if self.live_cc is None {
            s.all_readable(fs, now)
        } else {
            ConnView { send_queue: s.send_queue + fs, ..s }.paced_readable(now)
        }
    }

    /// A parity packet, which shares the sequence number of the group's last packet
    /// and bears the message number 0.
    pub open spec fn parity_packet(self, seq: u32, parity: FecFields) -> DataView {
        DataView {
            seq,
            position: PacketPosition::Single,
            in_order: true,
            encryption: Encryption::Unencrypted,
            retransmitted: false,
            message_number: 0,
            timestamp: parity.timestamp,
            dest_socket_id: self.peer_socket_id,
            payload: fec::parity_bytes(parity, fec::ROW_INDEX),
        }
    }

    /// After a parity packet.
    #[verifier::opaque]
    pub open spec fn parity_sent(self, seq: u32, parity: FecFields, now: u64) -> ConnView {
        self.emitted(PacketView::Data(self.parity_packet(seq, parity)).bytes(), now)
    }

    /// With a sent packet kept until it is acknowledged, and counted.
    #[verifier::opaque]
    pub open spec fn kept(self, p: DataView, plain_len: int) -> ConnView {
        ConnView {
            stats: Stats {
                packets_sent: bump(self.stats.packets_sent, 1),
                bytes_sent: bump(self.stats.bytes_sent, plain_len),
                ..self.stats
            },
            send_buffer: self.send_buffer.push(SentView { packet: p, last_retransmit: None }),
            next_send_seq: crate::seq::seq_add(p.seq, 1),
            fec_send: match self.fec_send {
                Some(fec) => Some(fec.fed(parity_fields(p))),
                None => None,
            },
            live_cc: match self.live_cc {
                Some(cc) => Some(cc.sent(p.payload.len() as int)),
                None => None,
            },
            ..self
        }
    }

    /// The parity of the group that a packet completes.
    #[verifier::opaque]
    pub open spec fn parity_due(self, p: DataView) -> Option<FecFields> {
        match self.fec_send {
            Some(fec) => fec.completes(parity_fields(p)),
            None => None,
        }
    }

    /// After sending a fragment with the keys as they are.
    #[verifier::opaque]
    pub open spec fn sent_now(self, f: FragmentView, now: u64) -> ConnView {
        let p = self.wire_packet(f, now);
        let s = self.kept(p, f.payload.len() as int).emitted(PacketView::Data(p).bytes(), now);
        let t = match self.parity_due(p) {
            Some(parity) => s.parity_sent(p.seq, parity, now),
            None => s,
        };
        if self.send_buffer.len() == 0 {
            t.exp_armed()
        } else {
            t
        }
    }

    /// After sending a fragment.
    #[verifier::opaque]
    pub open spec fn sent(self, f: FragmentView, now: u64) -> ConnView {
        self.accounted().sent_now(f, now)
    }

    /// After sending a run of fragments.
    #[verifier::opaque]
    pub open spec fn sent_all(self, fs: Seq<FragmentView>, now: u64) -> ConnView
        decreases fs.len(),
    {
        if fs.len() == 0 {
            self
        } else {
            self.sent_all(fs.drop_last(), now).sent(fs.last(), now)
        }
    }

    /// The next slot of the pacer.
    #[verifier::opaque]
    pub open spec fn slot_used(self, period: int, now: u64) -> ConnView {
        let last = match self.next_send {
            Some(at) => at,
            None => now,
        };
        ConnView { next_send: Some(later(last, period)), ..self }
    }

    /// Whether the pacer releases a packet now.
    #[verifier::opaque]
    pub open spec fn releases(self, released: nat, now: u64) -> bool {
        &&& released < MAX_PACE_BURST
        &&& self.next_send matches Some(at) ==> at <= now
        &&& self.send_queue.len() > 0
    }

    /// After the pacer has released one packet.
    #[verifier::opaque]
    pub open spec fn released_one(self, period: int, now: u64) -> ConnView {
        ConnView { send_queue: self.send_queue.skip(1), ..self }.sent(
            self.send_queue[0],
            now,
        ).slot_used(period, now)
    }

    /// After the pacer has released all that is due, up to its limit; and how
    /// many that makes in all.
    #[verifier::opaque]
    pub open spec fn released_due(self, released: nat, period: int, now: u64) -> (ConnView, nat)
        decreases MAX_PACE_BURST - released,
    {
        proof {
            reveal(ConnView::releases);
        }
        if self.releases(released, now) {
            self.released_one(period, now).released_due(released + 1, period, now)
        } else if released < MAX_PACE_BURST && self.send_queue.len() == 0 && !(self.next_send is Some
            && now < self.next_send->0) {
            (ConnView { next_send: None, ..self }, released)
        } else {
            (self, released)
        }
    }

    /// With the timer set for the next queued packet. Where the limit left the
    /// schedule behind, it starts anew from now.
    #[verifier::opaque]
    pub open spec fn rescheduled(self, released: nat, period: int, now: u64) -> ConnView {
        let t = if released == MAX_PACE_BURST && self.next_send is Some && self.next_send->0
            < now {
            ConnView { next_send: Some(later(now, period)), ..self }
        } else {
            self
        };
        if t.send_queue.len() == 0 {
            t.untimed(TimerId::SndPacing).closed_if_drained(now)
        } else {
            let at = match t.next_send {
                Some(at) => at,
                None => now,
            };
            t.timer(TimerId::SndPacing, since(at, now))
        }
    }

    /// After the pacer has run.
    #[verifier::opaque]
    pub open spec fn paced(self, now: u64) -> ConnView {
        match self.live_cc {
            None => self,
            Some(cc) => {
                let (s, released) = self.released_due(0, cc.snd_period, now);
                s.rescheduled(released, cc.snd_period, now)
            },
        }
    }

    /// After the application has handed over a message.
    #[verifier::opaque]
    pub open spec fn submitted(self, payload: Seq<u8>, now: u64) -> ConnView {
        let fs = message::fragments_of(payload, self.max_payload(), self.next_message);
        let s = ConnView { next_message: following_message(self.next_message), ..self };
        if self.live_cc is None {
            s.sent_all(fs, now)
        } else {
            ConnView { send_queue: s.send_queue + fs, ..s }.paced(now)
        }
    }

    /// The age, in microseconds, at which the sender gives a packet up.
    #[verifier::opaque]
    pub open spec fn drop_budget(self) -> int {
        let us = micros_i64(self.latency);
        arith::clamp_i64((if us > SND_DROP_MIN_US { us } else { SND_DROP_MIN_US }) + SND_DROP_MARGIN_US)
    }

    /// Without the oldest `n` packets.
    #[verifier::opaque]
    pub open spec fn shed(self, n: int) -> ConnView {
        ConnView {
            send_buffer: self.send_buffer.skip(n),
            stats: Stats {
                packets_dropped_sent: bump(self.stats.packets_dropped_sent, n),
                ..self.stats
            },
            ..self
        }
    }

    /// Without the packets that are too old to be of use, the peer told of them.
    #[verifier::opaque]
    pub open spec fn late_dropped(self, now: u64) -> ConnView {
        let n = late_count(self.send_buffer, self.ts(now), self.drop_budget()) as int;
        if n == 0 {
            self
        } else {
            let s = self.shed(n).emitted(
                self.control(
                    ControlView::DropReq {
                        message_number: self.send_buffer[n - 1].packet.message_number,
                        first: self.send_buffer[0].packet.seq,
                        last: self.send_buffer[n - 1].packet.seq,
                    },
                    now,
                ),
                now,
            );
            if n == self.send_buffer.len() {
                s.untimed(TimerId::Exp)
            } else {
                s
            }
        }
    }

    /// Whether the packet at `i` may be sent again: not within a round trip of
    /// the last time.
    #[verifier::opaque]
    pub open spec fn resend_due(self, i: int, now: u64) -> bool {
        match self.send_buffer[i].last_retransmit {
            Some(at) => since(now, at) >= self.rtt.rtt,
            None => true,
        }
    }

    /// After sending the packet at `i` again, as it was but for its flag.
    #[verifier::opaque]
    pub open spec fn resent_at(self, i: int, now: u64) -> ConnView {
        let p = self.send_buffer[i].packet;
        ConnView {
            stats: Stats {
                packets_retransmitted: bump(self.stats.packets_retransmitted, 1),
                bytes_retransmitted: bump(
                    self.stats.bytes_retransmitted,
                    p.payload.len() as int,
                ),
                ..self.stats
            },
            send_buffer: self.send_buffer.update(
                i,
                SentView { last_retransmit: Some(now), ..self.send_buffer[i] },
            ),
            ..self
        }.emitted(PacketView::Data(DataView { retransmitted: true, ..p }).bytes(), now)
    }

    /// After sending packet `n` again if it is in the range and due.
    #[verifier::opaque]
    pub open spec fn resent_if_due(self, n: u32, start: u32, end: u32, now: u64) -> ConnView {
        match send_buffer::position(self.send_buffer, n) {
            Some(i) => if in_range(n, start, end) && self.resend_due(i, now) {
                self.resent_at(i, now)
            } else {
                self
            },
            None => self,
        }
    }

    /// After sending the first `k` packets from `first` on again, as far as they
    /// are in the range and due.
    #[verifier::opaque]
    pub open spec fn resent_from(
        self,
        first: u32,
        k: nat,
        start: u32,
        end: u32,
        now: u64,
    ) -> ConnView
        decreases k,
    {
        if k == 0 {
            self
        } else {
            self.resent_from(first, (k - 1) as nat, start, end, now).resent_if_due(
                crate::seq::seq_add(first, k - 1),
                start,
                end,
                now,
            )
        }
    }

    /// After sending the held packets of a range again.
    #[verifier::opaque]
    pub open spec fn retransmitted(self, start: u32, end: u32, now: u64) -> ConnView {
        if self.send_buffer.len() == 0 {
            self
        } else {
            let first = self.send_buffer[0].packet.seq;
            let last = self.send_buffer.last().packet.seq;
            self.resent_from(first, ((last - first) % 0x8000_0000 + 1) as nat, start, end, now)
        }
    }

    /// After sending the held packets of some ranges again.
    #[verifier::opaque]
    pub open spec fn retransmitted_all(self, loss: Seq<(u32, u32)>, now: u64) -> ConnView
        decreases loss.len(),
    {
        if loss.len() == 0 {
            self
        } else {
            self.retransmitted_all(loss.drop_last(), now).retransmitted(
                loss.last().0,
                loss.last().1,
                now,
            )
        }
    }

    /// Without the packets that an acknowledgement covers, and with the room that
    /// it reports.
    #[verifier::opaque]
    pub open spec fn released(self, last_ack_seq: u32, cif: AckCif) -> ConnView {
        ConnView {
            stats: Stats {
                acks_received: bump(self.stats.acks_received, 1),
                ..self.stats
            },
            send_buffer: self.send_buffer.skip(
                send_buffer::acked_count(self.send_buffer, last_ack_seq),
            ),
            peer_avail_window: match cif {
                AckCif::Full { avail_buffer_size, .. } => avail_buffer_size,
                _ => self.peer_avail_window,
            },
            ..self
        }
    }

    /// With the retransmission timeout back at its start, or cleared if nothing
    /// is outstanding, and the pacer up to date.
    #[verifier::opaque]
    pub open spec fn exp_restarted(self) -> ConnView {
        let s = ConnView {
            live_cc: match self.live_cc {
                Some(cc) => Some(cc.acked()),
                None => None,
            },
            exp_count: 1,
            ..self
        };
        if s.send_buffer.len() == 0 {
            s.untimed(TimerId::Exp)
        } else {
            s.exp_armed()
        }
    }

    /// After an acknowledgement.
    #[verifier::opaque]
    pub open spec fn ack_heard(
        self,
        ack_number: u32,
        last_ack_seq: u32,
        cif: AckCif,
        now: u64,
    ) -> ConnView {
        let s = self.released(last_ack_seq, cif).late_dropped(
            now,
        ).exp_restarted().closed_if_drained(now);
        if cif is Light {
            s
        } else {
            s.emitted(s.control(ControlView::AckAck { ack_number }, now), now)
        }
    }

    /// After a loss report.
    #[verifier::opaque]
    pub open spec fn nak_heard(self, loss: Seq<(u32, u32)>, now: u64) -> ConnView {
        ConnView {
            stats: Stats {
                naks_received: bump(self.stats.naks_received, 1),
                ..self.stats
            },
            ..self
        }.late_dropped(now).retransmitted_all(loss, now)
    }

    /// After the retransmission timeout.
    #[verifier::opaque]
    pub open spec fn exp_fired(self, now: u64) -> ConnView {
        if self.state != State::Connected || self.send_buffer.len() == 0 {
            self
        } else {
            let s = self.late_dropped(now);
            if s.send_buffer.len() == 0 {
                s
            } else {
                let t = s.retransmitted(
                    s.send_buffer[0].packet.seq,
                    s.send_buffer.last().packet.seq,
                    now,
                );
                ConnView {
                    exp_count: if t.exp_count < MAX_EXP_COUNT {
                        (t.exp_count + 1) as u32
                    } else {
                        MAX_EXP_COUNT
                    },
                    ..t
                }.exp_armed()
            }
        }
    }

    // ---- closing ----

    /// After the end: the peer is told, the timers are cleared.
    #[verifier::opaque]
    pub open spec fn shut_down(self, now: u64) -> ConnView {
        let s = self.datagram(
            self.control(ControlView::Shutdown, now),
        ).timers_cleared().untimed(TimerId::Linger);
        ConnView { closing: false, state: State::Failed, ..s }.raised(EventView::Closed)
    }

    /// Whether everything sent is acknowledged.
    pub open spec fn drained(self) -> bool {
        self.send_buffer.len() == 0 && self.send_queue.len() == 0
    }

    /// After the end, if a close waits and everything is acknowledged.
    #[verifier::opaque]
    pub open spec fn closed_if_drained(self, now: u64) -> ConnView {
        if self.closing && self.drained() {
            self.shut_down(now)
        } else {
            self
        }
    }

    /// After the application has closed.
    #[verifier::opaque]
    pub open spec fn close_asked(self, now: u64) -> ConnView {
        if self.closing || self.state == State::Failed {
            self
        } else if self.state != State::Connected {
            ConnView { state: State::Failed, ..self }.raised(EventView::Closed)
        } else if self.drained() {
            self.shut_down(now)
        } else {
            ConnView { closing: true, ..self }.timer(TimerId::Linger, self.config.linger)
        }
    }

    /// After the close has waited long enough.
    #[verifier::opaque]
    pub open spec fn linger_fired(self, now: u64) -> ConnView {
        if self.closing {
            self.shut_down(now)
        } else {
            self
        }
    }

    // ---- receiving ----

    /// When a packet is expected to arrive.
    #[verifier::opaque]
    pub open spec fn expected_arrival(self, ts: u32) -> Option<u64> {
        match (self.tsbpd_base, self.ts_wrap) {
            (Some((ref_ts, ref_at)), Some(wrap)) => Some(
                shifted(
                    ref_at,
                    arith::clamp_i64(
                        arith::clamp_i64(wrap.place(ts) - ref_ts) + self.drift.correction_us,
                    ),
                ),
            ),
            _ => None,
        }
    }

    /// When a packet is due for delivery.
    #[verifier::opaque]
    pub open spec fn play_time(self, ts: u32) -> Option<u64> {
        match self.expected_arrival(ts) {
            Some(at) => Some(later(at, self.latency)),
            None => None,
        }
    }

    /// After handing a packet to the reassembler.
    #[verifier::opaque]
    pub open spec fn handed(self, p: DataView) -> ConnView {
        let s = ConnView { reassembler: self.reassembler.pushed(p), ..self };
        match self.reassembler.completes(p) {
            Some(m) => s.raised(EventView::DataReceived(m)),
            None => s,
        }
    }

    /// After delivering the next packet, past any gap before it.
    #[verifier::opaque]
    pub open spec fn played(self) -> ConnView {
        let popped = self.recv_buffer.popped();
        let advanced = crate::seq::seq_offset(popped.base, self.recv_buffer.base);
        ConnView {
            recv_buffer: popped,
            stats: Stats {
                packets_dropped: bump(
                    self.stats.packets_dropped,
                    if advanced > 1 {
                        advanced - 1
                    } else {
                        0
                    },
                ),
                ..self.stats
            },
            ..self
        }.handed(self.recv_buffer.next()->0)
    }

    /// After delivering every packet that is due.
    #[verifier::opaque]
    pub open spec fn delivered(self, now: u64) -> ConnView
        decreases self.recv_buffer.slots.len(),
    {
        proof {
            recv_buffer::lemma_first_present(self.recv_buffer.slots);
            reveal(ConnView::played);
            reveal(ConnView::handed);
        }
        match self.recv_buffer.next() {
            None => self.untimed(TimerId::Tsbpd),
            Some(p) => match self.play_time(p.timestamp) {
                None => self,
                Some(at) => if now < at {
                    self.timer(TimerId::Tsbpd, since(at, now))
                } else {
                    self.played().delivered(now)
                },
            },
        }
    }

    /// After delivering every packet up to the first gap.
    #[verifier::opaque]
    pub open spec fn flushed(self) -> ConnView
        decreases self.recv_buffer.slots.len(),
    {
        proof {
            reveal(ConnView::handed);
        }
        let slots = self.recv_buffer.slots;
        if slots.len() > 0 && slots[0] is Some {
            ConnView { recv_buffer: self.recv_buffer.popped(), ..self }.handed(
                slots[0]->0,
            ).flushed()
        } else {
            self
        }
    }

    /// The payload of a received packet in the clear.
    #[verifier::opaque]
    pub open spec fn clear_payload(self, p: DataView) -> Option<Seq<u8>> {
        if p.encryption == Encryption::Unencrypted {
            Some(p.payload)
        } else {
            match self.crypto {
                Some(c) => c.opened(p.seq, p.encryption, p.authenticated_header(), p.payload),
                None => None,
            }
        }
    }

    /// After learning from where in the stream a packet came.
    #[verifier::opaque]
    pub open spec fn reorder_tracked(self, seq: u32, retransmitted: bool) -> ConnView {
        if retransmitted {
            self
        } else {
            match self.highest_recv_seq {
                None => ConnView { highest_recv_seq: Some(seq), ..self },
                Some(highest) => {
                    let offset = crate::seq::seq_offset(seq, highest);
                    if offset >= 0 {
                        if self.orderly_streak + 1 >= REORDER_DECAY_AFTER {
                            ConnView {
                                highest_recv_seq: Some(seq),
                                orderly_streak: 0,
                                reorder_tolerance: if self.reorder_tolerance > 0 {
                                    (self.reorder_tolerance - 1) as u32
                                } else {
                                    0
                                },
                                ..self
                            }
                        } else {
                            ConnView {
                                highest_recv_seq: Some(seq),
                                orderly_streak: (self.orderly_streak + 1) as u32,
                                ..self
                            }
                        }
                    } else {
                        let displaced = if -offset < MAX_REORDER_TOLERANCE {
                            -offset
                        } else {
                            MAX_REORDER_TOLERANCE as int
                        };
                        ConnView {
                            reorder_tolerance: if displaced > self.reorder_tolerance {
                                displaced as u32
                            } else {
                                self.reorder_tolerance
                            },
                            orderly_streak: 0,
                            ..self
                        }
                    }
                },
            }
        }
    }

    /// After an arrival, which counts for the rate from the second on.
    #[verifier::opaque]
    pub open spec fn rate_tracked(self, len: int, now: u64) -> ConnView {
        ConnView {
            rate: match self.last_recv {
                Some(at) => self.rate.recorded(
                    arith::clamp_u32(since(now, at) / 1_000),
                    arith::clamp_u32(len),
                ),
                None => self.rate,
            },
            last_recv: Some(now),
            ..self
        }
    }

    /// After an arrival: the first one anchors the time base.
    #[verifier::opaque]
    pub open spec fn anchored(self, ts: u32, now: u64) -> ConnView {
        match self.tsbpd_base {
            None => ConnView {
                tsbpd_base: Some((ts, now)),
                ts_wrap: Some(WrapView { reference: ts, offset: ts as int }),
                ..self
            },
            Some(_) => ConnView {
                ts_wrap: match self.ts_wrap {
                    Some(wrap) => Some(wrap.observed(ts)),
                    None => None,
                },
                ..self
            },
        }
    }

    /// After a first-hand arrival, which shows the drift.
    #[verifier::opaque]
    pub open spec fn drift_tracked(self, ts: u32, retransmitted: bool, now: u64) -> ConnView {
        match self.expected_arrival(ts) {
            Some(at) => if retransmitted {
                self
            } else {
                ConnView {
                    drift: self.drift.sampled(
                        signed_micros(at, now),
                        micros_i64(self.rtt.rtt),
                    ),
                    ..self
                }
            },
            None => self,
        }
    }

    /// After a light acknowledgement.
    #[verifier::opaque]
    pub open spec fn light_acked(self, now: u64) -> ConnView {
        ConnView {
            packets_since_ack: 0,
            stats: Stats { acks_sent: bump(self.stats.acks_sent, 1), ..self.stats },
            ..self
        }.emitted(
            self.control(
                ControlView::Ack {
                    ack_number: 0,
                    last_ack_seq: self.recv_buffer.received_point(),
                    cif: AckCif::Light,
                },
                now,
            ),
            now,
        )
    }

    /// After counting a packet towards the next light acknowledgement.
    #[verifier::opaque]
    pub open spec fn arrival_counted(self, now: u64) -> ConnView {
        let s = ConnView { packets_since_ack: (self.packets_since_ack + 1) as u32, ..self };
        if s.packets_since_ack >= LIGHT_ACK_EVERY {
            s.light_acked(now)
        } else {
            s
        }
    }

    /// After a loss report.
    #[verifier::opaque]
    pub open spec fn nak_sent(self, missing: Seq<(u32, u32)>, now: u64) -> ConnView {
        ConnView {
            stats: Stats { naks_sent: bump(self.stats.naks_sent, 1), ..self.stats },
            last_nak: Some(now),
            ..self
        }.emitted(self.control(ControlView::Nak { loss: missing }, now), now)
    }

    /// After looking for losses that were not reported yet.
    #[verifier::opaque]
    pub open spec fn loss_checked(self, now: u64) -> ConnView {
        if recv_buffer::has_gap(self.recv_buffer.slots) {
            let missing = self.recv_buffer.missing_aged(self.reorder_tolerance);
            if missing.len() > 0 && missing != self.reported_loss {
                ConnView { reported_loss: missing, ..self.nak_sent(missing, now) }
            } else {
                self
            }
        } else {
            ConnView { reported_loss: Seq::empty(), ..self }
        }
    }

    /// With a packet in the buffer, counted.
    #[verifier::opaque]
    pub open spec fn buffered(self, buffer: RecvView, len: int) -> ConnView {
        ConnView {
            recv_buffer: buffer,
            stats: Stats {
                packets_received: bump(self.stats.packets_received, 1),
                bytes_received: bump(self.stats.bytes_received, len),
                ..self.stats
            },
            ..self
        }
    }

    /// After taking a packet into the buffer.
    #[verifier::opaque]
    pub open spec fn stored(self, p: DataView, buffer: RecvView, now: u64) -> ConnView {
        self.buffered(buffer, p.payload.len() as int).reorder_tracked(p.seq, p.retransmitted).rate_tracked(
            p.payload.len() as int,
            now,
        ).anchored(p.timestamp, now).drift_tracked(p.timestamp, p.retransmitted, now)
    }

    /// With a packet counted that found no room.
    #[verifier::opaque]
    pub open spec fn full_counted(self) -> ConnView {
        ConnView {
            stats: Stats { packets_dropped_full: bump(self.stats.packets_dropped_full, 1), ..self.stats },
            ..self
        }
    }

    /// With a packet counted that did not decrypt.
    #[verifier::opaque]
    pub open spec fn undecryptable_counted(self) -> ConnView {
        ConnView {
            stats: Stats { packets_undecryptable: bump(self.stats.packets_undecryptable, 1), ..self.stats },
            ..self
        }
    }

    /// With a packet counted that was there already.
    #[verifier::opaque]
    pub open spec fn duplicate_counted(self) -> ConnView {
        ConnView {
            stats: Stats { packets_duplicate: bump(self.stats.packets_duplicate, 1), ..self.stats },
            ..self
        }
    }

    /// After a packet of data that was received or rebuilt.
    #[verifier::opaque]
    pub open spec fn inserted(self, p: DataView, now: u64) -> ConnView {
        if self.available() == 0 {
            self.full_counted()
        } else {
            match self.clear_payload(p) {
                None => self.undecryptable_counted(),
                Some(payload) => {
                    let q = DataView { payload, ..p };
                    match self.recv_buffer.inserted(q) {
                        None => self.duplicate_counted(),
                        Some(buffer) => self.stored(q, buffer, now).delivered(
                            now,
                        ).arrival_counted(now).loss_checked(now),
                    }
                },
            }
        }
    }

    /// With a packet counted that parity has brought back.
    pub open spec fn rebuilt_counted(self) -> ConnView {
        ConnView {
            stats: Stats {
                packets_recovered: bump(self.stats.packets_recovered, 1),
                ..self.stats
            },
            ..self
        }
    }

    /// A packet that parity has brought back.
    pub open spec fn rebuilt_packet(self, r: RecoveredView, encryption: Encryption) -> DataView {
        DataView {
            seq: r.seq,
            position: PacketPosition::Single,
            in_order: true,
            encryption,
            retransmitted: true,
            message_number: 1,
            timestamp: r.timestamp,
            dest_socket_id: self.peer_socket_id,
            payload: r.payload,
        }
    }

    /// After a packet that parity has brought back.
    #[verifier::opaque]
    pub open spec fn injected(self, r: RecoveredView, now: u64) -> ConnView {
        match Encryption::of_bits(r.flags as int) {
            Err(_) => self,
            Ok(encryption) => self.rebuilt_counted().inserted(
                self.rebuilt_packet(r, encryption),
                now,
            ),
        }
    }

    /// After the packets that parity has brought back.
    #[verifier::opaque]
    pub open spec fn injected_all(self, rs: Seq<RecoveredView>, now: u64) -> ConnView
        decreases rs.len(),
    {
        if rs.len() == 0 {
            self
        } else {
            self.injected_all(rs.drop_last(), now).injected(rs.last(), now)
        }
    }

    /// After a data packet, which may be a parity packet.
    #[verifier::opaque]
    pub open spec fn data_heard(self, p: DataView, now: u64) -> ConnView {
        match self.fec_recv {
            None => self.inserted(p, now),
            Some(fec) => if p.message_number == 0 {
                ConnView {
                    fec_recv: Some(fec.after_parity(p.seq, p.payload, p.timestamp)),
                    ..self
                }.injected_all(fec.from_parity(p.seq, p.payload, p.timestamp), now)
            } else {
                ConnView {
                    fec_recv: Some(fec.after_data(p.seq, parity_fields(p))),
                    ..self
                }.inserted(p, now).injected_all(fec.from_data(p.seq, parity_fields(p)), now)
            },
        }
    }

    /// After the peer has given packets up.
    #[verifier::opaque]
    pub open spec fn drop_heard(self, first: u32, last: u32, now: u64) -> ConnView {
        let dropped = self.recv_buffer.dropped(first, last);
        let advanced = crate::seq::seq_offset(dropped.base, self.recv_buffer.base);
        ConnView {
            recv_buffer: dropped,
            stats: Stats {
                packets_dropped: bump(
                    self.stats.packets_dropped,
                    if advanced > 0 {
                        advanced
                    } else {
                        0
                    },
                ),
                ..self.stats
            },
            reported_loss: dropped.missing(),
            ..self
        }.delivered(now)
    }

    /// After the answer to a full acknowledgement, which shows the round trip.
    #[verifier::opaque]
    pub open spec fn ackack_heard(self, ack_number: u32, now: u64) -> ConnView {
        let i = ack_index(self.pending_acks, ack_number);
        if i < self.pending_acks.len() {
            ConnView {
                rtt: self.rtt.after(since(now, self.pending_acks[i].1)),
                pending_acks: self.pending_acks.skip(i + 1),
                ..self
            }
        } else {
            self
        }
    }

    /// The full acknowledgement that is due.
    #[verifier::opaque]
    pub open spec fn full_ack(self) -> ControlView {
        let (pps, bps) = rate::rate_of(self.rate.intervals, self.rate.sizes);
        ControlView::Ack {
            ack_number: self.next_ack_number,
            last_ack_seq: self.recv_buffer.received_point(),
            cif: AckCif::Full {
                rtt: arith::clamp_u32(self.rtt.rtt / 1_000),
                rtt_variance: arith::clamp_u32(self.rtt.var / 1_000),
                avail_buffer_size: self.available(),
                packets_recv_rate: pps,
                estimated_link_capacity: rate::peak_of(self.rate.intervals),
                receiving_rate: bps,
            },
        }
    }

    /// The acknowledgements that wait for their answer, with one more.
    #[verifier::opaque]
    pub open spec fn awaiting(self, now: u64) -> Seq<(u32, u64)> {
        let all = self.pending_acks.push((self.next_ack_number, now));
        if all.len() > MAX_PENDING_ACKS {
            all.skip(1)
        } else {
            all
        }
    }

    /// With a full acknowledgement noted.
    #[verifier::opaque]
    pub open spec fn ack_noted(self, point: u32, avail: u32, now: u64) -> ConnView {
        ConnView {
            next_ack_number: ((self.next_ack_number + 1) % 0x1_0000_0000) as u32,
            pending_acks: self.awaiting(now),
            last_acked_point: Some(point),
            last_acked_avail: Some(avail),
            packets_since_ack: 0,
            stats: Stats { acks_sent: bump(self.stats.acks_sent, 1), ..self.stats },
            ..self
        }
    }

    /// After the acknowledgement timer.
    #[verifier::opaque]
    pub open spec fn ack_fired(self, now: u64) -> ConnView {
        if self.state != State::Connected {
            self
        } else {
            let s = self.timer(TimerId::Ack, ACK_INTERVAL as int);
            let point = s.recv_buffer.received_point();
            let avail = s.available();
            if s.last_acked_point == Some(point) && s.last_acked_avail == Some(avail) {
                s
            } else {
                s.ack_noted(point, avail, now).emitted(s.control(s.full_ack(), now), now)
            }
        }
    }

    /// After the loss report timer.
    #[verifier::opaque]
    pub open spec fn nak_fired(self, now: u64) -> ConnView {
        if self.state != State::Connected {
            self
        } else {
            let s = self.timer(TimerId::Nak, self.nak_interval());
            let missing = self.recv_buffer.missing_aged(self.reorder_tolerance);
            if self.last_nak is Some && since(now, self.last_nak->0) < self.rtt.rto() {
                s
            } else if missing.len() > 0 {
                s.nak_sent(missing, now)
            } else {
                s
            }
        }
    }

    // ---- keys ----

    /// A control datagram that carries key material.
    pub open spec fn km_control(self, subtype: u16, km: Seq<u8>, now: u64) -> Seq<u8> {
        self.control(
            ControlView::Raw {
                control_type: ControlType::UserDefined,
                subtype,
                type_specific: 0,
                cif: km,
            },
            now,
        )
    }

    /// The message that announces `sek` as the next key. The cipher stays the one in
    /// use, which is the caller's choice.
    #[verifier::opaque]
    pub open spec fn next_km(self, sek: Seq<u8>) -> Seq<u8> {
        crypto::announced(
            self.config.encryption->0.passphrase,
            self.crypto->0.next_flags(),
            self.crypto->0.mode(),
            self.crypto->0.salt()->0,
            sek,
        ).bytes()
    }

    /// After the application has supplied a fresh key.
    #[verifier::opaque]
    pub open spec fn rekeyed(self, sek: Seq<u8>, now: u64) -> ConnView {
        if self.rekey_pending && self.config.encryption is Some && self.crypto is Some {
            let c = self.crypto->0;
            ConnView {
                crypto: Some(c.installed(SlotsView::single(c.next_flags(), c.next_keys(sek)))),
                rekey_pending: false,
                pending_km: Some(self.next_km(sek)),
                km_retries: 0,
                ..self
            }.emitted(self.km_control(EXT_KMREQ, self.next_km(sek), now), now)
        } else {
            self
        }
    }

    /// After the peer has confirmed a key.
    #[verifier::opaque]
    pub open spec fn km_confirmed(self, cif: Seq<u8>) -> ConnView {
        if self.pending_km == Some(cif) {
            ConnView { pending_km: None, next_key_ready: true, ..self }
        } else {
            self
        }
    }

    /// After announcing an unconfirmed key again, or giving it up.
    #[verifier::opaque]
    pub open spec fn km_resent(self, now: u64) -> ConnView {
        match self.pending_km {
            None => self,
            Some(km) => if self.km_retries >= MAX_KM_RETRIES {
                ConnView { pending_km: None, ..self }
            } else {
                ConnView { km_retries: (self.km_retries + 1) as u32, ..self }.emitted(
                    self.km_control(EXT_KMREQ, km, now),
                    now,
                )
            },
        }
    }

    /// After the peer has announced a key: it is installed and confirmed.
    #[verifier::opaque]
    pub open spec fn km_requested(self, cif: Seq<u8>, now: u64) -> ConnView {
        if self.config.encryption is Some && self.crypto is Some {
            match KmView::of_bytes(cif) {
                Err(_) => self,
                Ok(km) => match SlotsView::unwrapped(
                    km,
                    self.config.encryption->0.passphrase,
                ) {
                    Err(_) => self,
                    Ok(slots) => ConnView {
                        crypto: Some(self.crypto->0.installed(slots)),
                        ..self
                    }.emitted(self.km_control(EXT_KMRSP, cif, now), now),
                },
            }
        } else {
            self
        }
    }

    // ---- timers and datagrams ----

    /// After the handshake timer: the handshake is sent again, or given up.
    #[verifier::opaque]
    pub open spec fn handshake_fired(self, now: u64) -> ConnView {
        if self.state != State::Induction && self.state != State::Conclusion {
            self
        } else if since(now, self.start) >= self.config.connect_timeout {
            ConnView { state: State::Failed, ..self }.untimed(TimerId::Handshake).raised(
                EventView::Failed(ConnectionError::HandshakeTimeout),
            )
        } else {
            match self.last_handshake {
                Some(bytes) => self.datagram(bytes).timer(
                    TimerId::Handshake,
                    SYN_INTERVAL as int,
                ),
                None => self,
            }
        }
    }

    /// After the keepalive timer.
    #[verifier::opaque]
    pub open spec fn keepalive_fired(self, now: u64) -> ConnView {
        if self.state != State::Connected {
            self
        } else {
            let s = self.km_resent(now);
            (if since(now, s.last_sent) >= KEEPALIVE_PERIOD {
                s.emitted(s.control(ControlView::Keepalive, now), now)
            } else {
                s
            }).timer(TimerId::Keepalive, KEEPALIVE_PERIOD as int)
        }
    }

    /// After the idle timer: a peer that was silent too long is given up.
    #[verifier::opaque]
    pub open spec fn peer_idle_fired(self, now: u64) -> ConnView {
        let idle = since(now, self.last_recv_any);
        if self.state != State::Connected {
            self
        } else if idle >= self.config.peer_idle_timeout {
            ConnView { state: State::Failed, ..self }.timers_cleared().raised(
                EventView::Failed(ConnectionError::Timeout),
            )
        } else {
            self.timer(TimerId::PeerIdle, self.config.peer_idle_timeout - idle)
        }
    }

    /// After a timer.
    #[verifier::opaque]
    pub open spec fn fired(self, id: TimerId, now: u64) -> ConnView {
        match id {
            TimerId::Handshake => self.handshake_fired(now),
            TimerId::Ack => self.ack_fired(now),
            TimerId::Nak => self.nak_fired(now),
            TimerId::Exp => self.exp_fired(now),
            TimerId::Tsbpd => self.delivered(now),
            TimerId::SndPacing => self.paced(now),
            TimerId::Linger => self.linger_fired(now),
            TimerId::Keepalive => self.keepalive_fired(now),
            TimerId::PeerIdle => self.peer_idle_fired(now),
        }
    }

    /// After the peer has ended the connection: what is complete is delivered.
    #[verifier::opaque]
    pub open spec fn peer_closed(self) -> ConnView {
        let s = self.flushed();
        ConnView { state: State::Failed, ..s }.timers_cleared().raised(EventView::Closed)
    }

    /// After a packet on a connection that is up.
    #[verifier::opaque]
    pub open spec fn heard(self, p: PacketView, now: u64) -> ConnView {
        match p {
            PacketView::Data(d) => self.data_heard(d, now),
            PacketView::Control { body, .. } => match body {
                ControlView::Ack { ack_number, last_ack_seq, cif } => self.ack_heard(
                    ack_number,
                    last_ack_seq,
                    cif,
                    now,
                ),
                ControlView::AckAck { ack_number } => self.ackack_heard(ack_number, now),
                ControlView::Nak { loss } => self.nak_heard(loss, now),
                ControlView::Shutdown => self.peer_closed(),
                ControlView::DropReq { first, last, .. } => self.drop_heard(first, last, now),
                ControlView::Raw { control_type, subtype, cif, .. } => if control_type
                    != ControlType::UserDefined {
                    self
                } else if subtype == EXT_KMREQ {
                    self.km_requested(cif, now)
                } else if subtype == EXT_KMRSP {
                    self.km_confirmed(cif)
                } else {
                    self
                },
                ControlView::Handshake(hs) => if self.side == Side::Acceptor
                    && hs.handshake_type.0 == HandshakeType::CONCLUSION && self.last_handshake
                    is Some {
                    self.datagram(self.last_handshake->0)
                } else {
                    self
                },
                _ => self,
            },
        }
    }

    /// After a datagram. What does not decode is dropped.
    #[verifier::opaque]
    pub open spec fn fed(self, datagram: Seq<u8>, now: u64) -> ConnView {
        match PacketView::of_bytes(datagram) {
            Err(_) => self,
            Ok(p) => match self.state {
                State::Failed => self,
                State::Connected => ConnView { last_recv_any: now, ..self }.heard(p, now),
                State::Induction => match p {
                    PacketView::Control { body: ControlView::Handshake(hs), .. } =>
                        self.induction_answered(hs, now),
                    _ => self,
                },
                State::Conclusion => match p {
                    PacketView::Control { body: ControlView::Handshake(hs), .. } =>
                        self.conclusion_answered(hs, now),
                    _ => self,
                },
            },
        }
    }

    /// The counters along with the gauges.
    #[verifier::opaque]
    pub open spec fn snapshot(self) -> Stats {
        let (pps, bps) = rate::rate_of(self.rate.intervals, self.rate.sizes);
        Stats {
            rtt_us: arith::clamp_u32(self.rtt.rtt / 1_000),
            rtt_var_us: arith::clamp_u32(self.rtt.var / 1_000),
            flight_size: arith::clamp_u32(self.send_buffer.len() as int),
            recv_buffer_packets: arith::clamp_u32(
                recv_buffer::present(self.recv_buffer.slots) as int,
            ),
            recv_rate_pps: pps,
            recv_rate_bps: bps,
            link_capacity_pps: rate::peak_of(self.rate.intervals),
            send_buffer_packets: arith::clamp_u32(
                (self.send_buffer.len() + self.send_queue.len()) as int,
            ),
            latency_ms: arith::clamp_u32(self.latency / 1_000_000),
            ..self.stats
        }
    }
}

/// What parity covers of a packet.
pub open spec fn parity_fields(p: DataView) -> FecFields {
    FecFields {
        length: arith::clamp_u16(p.payload.len() as int),
        flags: p.encryption.bits(),
        timestamp: p.timestamp,
        payload: p.payload,
    }
}

/// A listener's answer to a caller's second handshake.
pub open spec fn response_to(
    config: ConfigView,
    local_socket_id: SocketId,
    hs: HandshakeView,
    latency: int,
    km: Option<Seq<u8>>,
) -> HandshakeView {
    let hello = seq![ExtensionView::HsRsp(srt_ext(latency_ms(latency)))];
    HandshakeView {
        version: HS_VERSION_SRT,
        encryption: hs.encryption,
        extension_field: if km is Some {
            3
        } else {
            1
        },
        initial_seq: hs.initial_seq,
        mtu: config.mtu,
        max_flow_window: config.flow_window,
        handshake_type: HandshakeType(HandshakeType::CONCLUSION),
        srt_socket_id: local_socket_id,
        syn_cookie: 0,
        peer_ip: no_ip(),
        extensions: match km {
            Some(content) => hello.push(ExtensionView::Raw { ext_type: EXT_KMRSP, content }),
            None => hello,
        },
    }
}

} // verus!
