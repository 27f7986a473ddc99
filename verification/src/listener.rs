//! The listener: answers a caller's first handshake with a cookie, and turns the
//! second one, which brings the cookie back, into a [`Connection`].
//!
//! The first answer leaves no trace here. The cookie is a keyed hash of the
//! caller's address, so a flood of first handshakes costs nothing to remember;
//! only a cookie that comes back is worth any state.
//!
//! Like a connection, the listener does no I/O: datagrams and `now` come in,
//! responses and accepted connections are fetched.

use crate::buffer;
use crate::connection::config::{Config, ConfigView};
use crate::connection::laws;
use crate::connection::model;
use crate::connection::model::{ConnView, HS_VERSION_SRT, SRT_MAGIC};
use crate::connection::recovery::brings;
use crate::connection::{encode_control, wire_ts, Connection};
use crate::control::{ControlBody, ControlView};
use crate::crypto::KeysView;
use crate::error::{ConnectionError, CryptoError};
use crate::handshake;
use crate::handshake::{
    EncryptionField, ExtensionView, Handshake, HandshakeExtension, HandshakeType, HandshakeView,
    RejectReason,
};
use crate::packet::{ControlPacket, Packet, PacketView, SocketId};
use crate::seq::SeqNumber;
use crate::time::{Duration, Instant};
use crate::wire;
use bytes::Bytes;
use std::collections::VecDeque;
use vstd::prelude::*;

verus! {

/// How long a cookie counts as fresh, in seconds. One that was made in this span
/// or the one before is accepted.
pub const COOKIE_QUANTUM_SECS: u64 = 60;

/// How long a caller waits for the application's decision, in nanoseconds.
pub const PENDING_TTL: u64 = 30_000_000_000;

/// Where the cookie's hash starts.
pub const FNV_OFFSET: u64 = 0xcbf2_9ce4_8422_2325;

/// The factor of the cookie's hash.
pub const FNV_PRIME: u64 = 0x0000_0100_0000_01b3;

/// So many socket ids can be handed out before they come round again.
pub const SOCKET_IDS: u32 = 0xFFFF_FFFE;

/// The address of a caller.
#[derive(Debug, Clone, Copy, PartialEq, Eq)]
pub enum PeerAddr {
    /// An IPv4 address and port.
    V4 {
        /// The address.
        octets: [u8; 4],
        /// The port.
        port: u16,
    },
    /// An IPv6 address and port.
    V6 {
        /// The address.
        octets: [u8; 16],
        /// The port.
        port: u16,
        /// The flow information.
        flowinfo: u32,
        /// The scope.
        scope_id: u32,
    },
}

/// What a [`PeerAddr`] holds.
#[verifier::ext_equal]
pub struct AddrView {
    /// The address: four or sixteen bytes.
    pub octets: Seq<u8>,
    /// The port.
    pub port: u16,
    /// The flow information.
    pub flowinfo: u32,
    /// The scope.
    pub scope_id: u32,
}

impl View for PeerAddr {
    type V = AddrView;

    open spec fn view(&self) -> AddrView {
        match *self {
            PeerAddr::V4 { octets, port } => AddrView {
                octets: octets@,
                port,
                flowinfo: 0,
                scope_id: 0,
            },
            PeerAddr::V6 { octets, port, flowinfo, scope_id } => AddrView {
                octets: octets@,
                port,
                flowinfo,
                scope_id,
            },
        }
    }
}

impl PeerAddr {
    /// An IPv4 address.
    pub fn v4(octets: [u8; 4], port: u16) -> (r: Self)
        ensures
            r@ == (AddrView { octets: octets@, port, flowinfo: 0, scope_id: 0 }),
    {
        PeerAddr::V4 { octets, port }
    }

    /// An IPv6 address.
    pub fn v6(octets: [u8; 16], port: u16, flowinfo: u32, scope_id: u32) -> (r: Self)
        ensures
            r@ == (AddrView { octets: octets@, port, flowinfo, scope_id }),
    {
        PeerAddr::V6 { octets, port, flowinfo, scope_id }
    }

    /// Whether two addresses are the same.
    fn same(&self, other: &PeerAddr) -> (r: bool)
        ensures
            r == (self@ == other@),
    {
        match (self, other) {
            (PeerAddr::V4 { octets: a, port: p }, PeerAddr::V4 { octets: b, port: q }) => {
                *p == *q && wire::same_bytes(a.as_slice(), b.as_slice())
            },
            (
                PeerAddr::V6 { octets: a, port: p, flowinfo: f, scope_id: s },
                PeerAddr::V6 { octets: b, port: q, flowinfo: g, scope_id: t },
            ) => {
                *p == *q && *f == *g && *s == *t && wire::same_bytes(a.as_slice(), b.as_slice())
            },
            _ => {
                assert(self@.octets.len() != other@.octets.len());
                false
            },
        }
    }

    /// The bytes of the address.
    fn octets(&self) -> (r: &[u8])
        ensures
            r@ == self@.octets,
            r@.len() == 4 || r@.len() == 16,
    {
        match self {
            PeerAddr::V4 { octets, .. } => octets.as_slice(),
            PeerAddr::V6 { octets, .. } => octets.as_slice(),
        }
    }

    /// The port.
    fn port(&self) -> (r: u16)
        ensures
            r == self@.port,
    {
        match self {
            PeerAddr::V4 { port, .. } => *port,
            PeerAddr::V6 { port, .. } => *port,
        }
    }
}

/// The hash after some bytes: each is mixed in, and the whole multiplied.
pub open spec fn fnv(h: u64, bytes: Seq<u8>) -> u64
    decreases bytes.len(),
{
    if bytes.len() == 0 {
        h
    } else {
        ((fnv(h, bytes.drop_last()) ^ (bytes.last() as u64)) * FNV_PRIME
            % 0x1_0000_0000_0000_0000) as u64
    }
}

/// A number as eight bytes.
pub open spec fn be64(v: u64) -> Seq<u8> {
    wire::be32((v / 0x1_0000_0000) as u32) + wire::be32((v % 0x1_0000_0000) as u32)
}

/// The cookie for an address in a span of time.
#[verifier::opaque]
pub open spec fn cookie_of(secret: u64, from: AddrView, quantum: u64) -> u32 {
    let h = fnv(FNV_OFFSET ^ secret, from.octets + wire::be16(from.port) + be64(quantum));
    ((h ^ (h >> 32u64)) % 0x1_0000_0000) as u32
}

/// Mixes bytes into the hash.
fn mix(h: u64, bytes: &[u8]) -> (r: u64)
    ensures
        r == fnv(h, bytes@),
{
    let mut acc: u64 = h;
    let mut i: usize = 0;
    assert(bytes@.take(0) =~= Seq::empty());
    while i < bytes.len()
        invariant
            i <= bytes@.len(),
            acc == fnv(h, bytes@.take(i as int)),
        decreases bytes@.len() - i,
    {
        assert(bytes@.take(i + 1).drop_last() =~= bytes@.take(i as int));
        acc = (acc ^ (bytes[i] as u64)).wrapping_mul(FNV_PRIME);
        i += 1;
    }
    assert(bytes@.take(i as int) =~= bytes@);
    acc
}

proof fn lemma_fnv_concat(h: u64, a: Seq<u8>, b: Seq<u8>)
    ensures
        fnv(fnv(h, a), b) == fnv(h, a + b),
    decreases b.len(),
{
    if b.len() == 0 {
        assert(a + b =~= a);
    } else {
        lemma_fnv_concat(h, a, b.drop_last());
        assert((a + b).drop_last() =~= a + b.drop_last());
    }
}

/// The cookie for an address in a span of time: a keyed hash of both.
fn syn_cookie(secret: u64, from: &PeerAddr, quantum: u64) -> (r: u32)
    ensures
        r == cookie_of(secret, from@, quantum),
{
    let port: u16 = from.port();
    let port_bytes: [u8; 2] = [(port / 256) as u8, (port % 256) as u8];
    let high: [u8; 4] = wire::to_be32((quantum / 0x1_0000_0000) as u32);
    let low: [u8; 4] = wire::to_be32((quantum % 0x1_0000_0000) as u32);
    let start: u64 = FNV_OFFSET ^ secret;
    let h1: u64 = mix(start, from.octets());
    let h2: u64 = mix(h1, port_bytes.as_slice());
    let h3: u64 = mix(h2, high.as_slice());
    let h: u64 = mix(h3, low.as_slice());
    proof {
        reveal(cookie_of);
        assert(port_bytes@ =~= wire::be16(port));
        lemma_fnv_concat(start, from@.octets, port_bytes@);
        lemma_fnv_concat(start, from@.octets + port_bytes@, high@);
        lemma_fnv_concat(start, from@.octets + port_bytes@ + high@, low@);
        assert(from@.octets + port_bytes@ + high@ + low@ =~= from@.octets + wire::be16(port) + be64(
            quantum,
        ));
    }
    ((h ^ (h >> 32u64)) % 0x1_0000_0000) as u32
}

/// An address in the handshake's field: the bytes, then zeros.
pub open spec fn ip_field(octets: Seq<u8>) -> Seq<u8> {
    Seq::new(
        16,
        |i: int|
            if i < octets.len() {
                octets[i]
            } else {
                0
            },
    )
}

/// An address in the handshake's field.
fn peer_ip(from: &PeerAddr) -> (r: [u8; 16])
    ensures
        r@ == ip_field(from@.octets),
{
    let octets = from.octets();
    let mut ip: [u8; 16] = [0u8; 16];
    let mut i: usize = 0;
    while i < octets.len()
        invariant
            i <= octets@.len() <= 16,
            forall|k: int| 0 <= k < i ==> ip@[k] == octets@[k],
            forall|k: int| i <= k < 16 ==> ip@[k] == 0,
        decreases octets@.len() - i,
    {
        ip[i] = octets[i];
        i += 1;
    }
    assert(ip@ =~= ip_field(from@.octets));
    ip
}

/// The socket id of the connection number `n`: those behind the listener's own
/// one, 0 left out.
pub open spec fn minted(listener: u32, n: u32) -> u32 {
    let offset = if n + 1 < 0x1_0000_0000 - listener {
        n + 1
    } else {
        n + 2
    };
    ((listener + offset) % 0x1_0000_0000) as u32
}

/// The number behind `n`.
pub open spec fn following(n: u32) -> u32 {
    if n + 1 < SOCKET_IDS {
        (n + 1) as u32
    } else {
        0
    }
}

/// Every accepted connection has a socket id of its own: not 0, not the
/// listener's, and not that of another connection.
pub proof fn law_socket_ids_are_distinct(listener: u32, m: u32, n: u32)
    requires
        m < SOCKET_IDS,
        n < SOCKET_IDS,
        m != n,
    ensures
        minted(listener, m) != 0,
        minted(listener, m) != listener,
        minted(listener, m) != minted(listener, n),
{
}

/// Why a caller is turned away: exactly one end encrypts, or the key does not
/// unwrap.
pub open spec fn reason_for(e: CryptoError) -> RejectReason {
    match e {
        CryptoError::MissingKeyMaterial => RejectReason::Unsecure,
        CryptoError::UnexpectedKeyMaterial => RejectReason::Unsecure,
        _ => RejectReason::BadSecret,
    }
}

/// The reason that a caller is told.
fn reject_reason(error: &ConnectionError) -> (r: RejectReason)
    ensures
        r == (match *error {
            ConnectionError::Crypto(e) => reason_for(e),
            _ => RejectReason::Unknown,
        }),
{
    match error {
        ConnectionError::Crypto(CryptoError::MissingKeyMaterial) => RejectReason::Unsecure,
        ConnectionError::Crypto(CryptoError::UnexpectedKeyMaterial) => RejectReason::Unsecure,
        ConnectionError::Crypto(_) => RejectReason::BadSecret,
        _ => RejectReason::Unknown,
    }
}

/// The first stream id.
pub open spec fn stream_id_in(exts: Seq<ExtensionView>) -> Option<Seq<char>>
    decreases exts.len(),
{
    if exts.len() == 0 {
        None
    } else {
        match exts[0] {
            ExtensionView::StreamId(id) => Some(id),
            _ => stream_id_in(exts.skip(1)),
        }
    }
}

/// The value of an optional string.
pub open spec fn text_view(s: Option<String>) -> Option<Seq<char>> {
    match s {
        Some(s) => Some(s@),
        None => None,
    }
}

/// The first stream id.
fn find_stream_id(hs: &Handshake) -> (r: Option<String>)
    ensures
        text_view(r) == stream_id_in(hs@.extensions),
{
    let ghost exts = hs@.extensions;
    let mut i: usize = 0;
    assert(exts.skip(0) =~= exts);
    while i < hs.extensions.len()
        invariant
            i <= hs.extensions@.len(),
            exts == hs@.extensions,
            stream_id_in(exts) == stream_id_in(exts.skip(i as int)),
        decreases hs.extensions@.len() - i,
    {
        assert(exts.skip(i as int)[0] == hs.extensions@[i as int]@);
        assert(exts.skip(i as int).skip(1) =~= exts.skip(i + 1));
        if let HandshakeExtension::StreamId(id) = &hs.extensions[i] {
            return Some(id.clone());
        }
        i += 1;
    }
    None
}

/// A caller that waits for the application's decision.
#[derive(Debug)]
struct PendingConn {
    from: PeerAddr,
    conclusion: Handshake,
    since: Instant,
}

/// What a waiting caller has sent, and when.
#[verifier::ext_equal]
pub struct PendingView {
    /// The caller.
    pub from: AddrView,
    /// Its second handshake.
    pub conclusion: HandshakeView,
    /// When it last arrived.
    pub since: u64,
}

impl View for PendingConn {
    type V = PendingView;

    closed spec fn view(&self) -> PendingView {
        PendingView { from: self.from@, conclusion: self.conclusion@, since: self.since@ }
    }
}

/// A caller's request: who calls, and for what.
#[derive(Debug, Clone, PartialEq, Eq)]
pub struct ConnRequest {
    remote_addr: PeerAddr,
    stream_id: Option<String>,
}

/// What a [`ConnRequest`] holds.
#[verifier::ext_equal]
pub struct RequestView {
    /// The caller.
    pub remote_addr: AddrView,
    /// The stream id it has sent.
    pub stream_id: Option<Seq<char>>,
}

impl View for ConnRequest {
    type V = RequestView;

    closed spec fn view(&self) -> RequestView {
        RequestView { remote_addr: self.remote_addr@, stream_id: text_view(self.stream_id) }
    }
}

impl ConnRequest {
    /// The caller's address, by which the request is accepted or rejected.
    pub fn remote_addr(&self) -> (r: PeerAddr)
        ensures
            r@ == self@.remote_addr,
    {
        self.remote_addr
    }

    /// The stream id that the caller has sent.
    pub fn stream_id(&self) -> (r: Option<&str>)
        ensures
            match r {
                Some(id) => self@.stream_id == Some(id@),
                None => self@.stream_id is None,
            },
    {
        match &self.stream_id {
            Some(id) => Some(id.as_str()),
            None => None,
        }
    }
}

/// Those of the waiting callers that have not waited too long.
pub open spec fn still_pending(ps: Seq<PendingView>, now: u64) -> Seq<PendingView>
    decreases ps.len(),
{
    if ps.len() == 0 {
        Seq::empty()
    } else {
        let rest = still_pending(ps.drop_last(), now);
        if model::since(now, ps.last().since) < PENDING_TTL {
            rest.push(ps.last())
        } else {
            rest
        }
    }
}

/// The first waiting caller with the given address; the length if there is none.
pub open spec fn pending_index(ps: Seq<PendingView>, from: AddrView) -> int
    decreases ps.len(),
{
    if ps.len() == 0 || ps[0].from == from {
        0
    } else {
        1 + pending_index(ps.skip(1), from)
    }
}

/// A listener's state.
#[verifier::ext_equal]
pub struct ListenerView {
    /// The configuration of the connections.
    pub config: ConfigView,
    /// The own socket id.
    pub local_socket_id: SocketId,
    /// The sequence number in first answers and refusals.
    pub local_initial_seq: u32,
    /// The key of the cookies.
    pub cookie_secret: u64,
    /// The instant from which timestamps and cookies count.
    pub start: u64,
    /// Datagrams to be sent, and where.
    pub responses: Seq<(AddrView, Seq<u8>)>,
    /// Connections to be fetched.
    pub accepted: Seq<ConnView>,
    /// The number of the next connection.
    pub next_conn: u32,
    /// Whether the application decides.
    pub deferred: bool,
    /// Callers that wait for the decision.
    pub pending: Seq<PendingView>,
    /// Requests to be fetched.
    pub requests: Seq<RequestView>,
}

impl ListenerView {
    /// The timestamp at `now`.
    pub open spec fn ts(self, now: u64) -> u32 {
        model::wire_ts(self.start, now)
    }

    /// The span of time at `now`.
    pub open spec fn quantum(self, now: u64) -> u64 {
        (model::since(now, self.start) / 1_000_000_000 / COOKIE_QUANTUM_SECS as int) as u64
    }

    /// The cookie for an address at `now`.
    pub open spec fn cookie(self, from: AddrView, now: u64) -> u32 {
        cookie_of(self.cookie_secret, from, self.quantum(now))
    }

    /// Whether a cookie was made for the address, in this span of time or in the
    /// one before.
    pub open spec fn cookie_valid(self, cookie: u32, from: AddrView, now: u64) -> bool {
        let q = self.quantum(now);
        cookie == cookie_of(self.cookie_secret, from, q) || (q > 0 && cookie == cookie_of(
            self.cookie_secret,
            from,
            (q - 1) as u64,
        ))
    }

    /// The socket id of the next connection.
    pub open spec fn next_id(self) -> SocketId {
        SocketId(minted(self.local_socket_id.0, self.next_conn))
    }

    /// With a datagram to be sent.
    pub open spec fn responded(self, to: AddrView, bytes: Seq<u8>) -> ListenerView {
        ListenerView { responses: self.responses.push((to, bytes)), ..self }
    }

    /// A handshake without extensions, to `from`.
    pub open spec fn reply(
        self,
        from: AddrView,
        extension_field: u16,
        handshake_type: HandshakeType,
        syn_cookie: u32,
    ) -> HandshakeView {
        HandshakeView {
            version: HS_VERSION_SRT,
            encryption: EncryptionField::Unencrypted,
            extension_field,
            initial_seq: self.local_initial_seq,
            mtu: self.config.mtu,
            max_flow_window: self.config.flow_window,
            handshake_type,
            srt_socket_id: self.local_socket_id,
            syn_cookie,
            peer_ip: ip_field(from.octets),
            extensions: Seq::empty(),
        }
    }

    /// After a caller's first handshake: it is answered, and nothing is kept.
    pub open spec fn induced(self, hs: HandshakeView, from: AddrView, now: u64) -> ListenerView {
        self.responded(
            from,
            model::control_bytes(
                hs.srt_socket_id,
                self.ts(now),
                ControlView::Handshake(
                    self.reply(
                        from,
                        SRT_MAGIC,
                        HandshakeType(HandshakeType::INDUCTION),
                        self.cookie(from, now),
                    ),
                ),
            ),
        )
    }

    /// After turning a caller away.
    pub open spec fn rejected(
        self,
        hs: HandshakeView,
        from: AddrView,
        reason: RejectReason,
        now: u64,
    ) -> ListenerView {
        self.responded(
            from,
            model::control_bytes(
                hs.srt_socket_id,
                self.ts(now),
                ControlView::Handshake(
                    self.reply(from, 0, HandshakeType((1000 + reason.code()) as u32), 0),
                ),
            ),
        )
    }

    /// With the next connection's number used up.
    pub open spec fn numbered(self) -> ListenerView {
        ListenerView { next_conn: following(self.next_conn), ..self }
    }

    /// After putting a caller on hold. One that is on hold already is refreshed,
    /// without a second request.
    pub open spec fn parked(self, hs: HandshakeView, from: AddrView, now: u64) -> ListenerView {
        let i = pending_index(self.pending, from);
        let entry = PendingView { from, conclusion: hs, since: now };
        match model::admission(self.config.encryption, hs.extensions) {
            Err(e) => self.rejected(hs, from, reason_for(e), now),
            Ok(_) => if i < self.pending.len() {
                ListenerView { pending: self.pending.update(i, entry), ..self }
            } else {
                ListenerView {
                    pending: self.pending.push(entry),
                    requests: self.requests.push(
                        RequestView {
                            remote_addr: from,
                            stream_id: stream_id_in(hs.extensions),
                        },
                    ),
                    ..self
                }
            },
        }
    }

    /// After a caller's second handshake. A wrong cookie earns no answer.
    pub open spec fn concluded(self, hs: HandshakeView, from: AddrView, now: u64) -> ListenerView {
        if !self.cookie_valid(hs.syn_cookie, from, now) {
            self
        } else if self.deferred {
            self.parked(hs, from, now)
        } else {
            match ConnView::accepted(self.config, self.next_id(), hs, now) {
                Ok(conn) => ListenerView {
                    accepted: self.accepted.push(conn),
                    ..self.numbered()
                },
                Err(e) => self.rejected(hs, from, reason_for(e), now),
            }
        }
    }

    /// Without the callers that have waited too long.
    pub open spec fn pruned(self, now: u64) -> ListenerView {
        ListenerView { pending: still_pending(self.pending, now), ..self }
    }

    /// After a datagram.
    pub open spec fn fed(self, datagram: Seq<u8>, from: AddrView, now: u64) -> ListenerView {
        let s = self.pruned(now);
        match PacketView::of_bytes(datagram) {
            Ok(PacketView::Control { body: ControlView::Handshake(hs), .. }) =>
                if hs.handshake_type.0 == HandshakeType::INDUCTION {
                    s.induced(hs, from, now)
                } else if hs.handshake_type.0 == HandshakeType::CONCLUSION {
                    s.concluded(hs, from, now)
                } else {
                    s
                },
            _ => s,
        }
    }

    /// Without the waiting caller at `i`; the last one takes its place.
    pub open spec fn unparked(self, i: int) -> ListenerView {
        ListenerView {
            pending: self.pending.update(i, self.pending.last()).drop_last(),
            ..self
        }
    }
}

/// A listening endpoint.
#[derive(Debug)]
pub struct Listener {
    config: Config,
    local_socket_id: SocketId,
    local_initial_seq: SeqNumber,
    cookie_secret: u64,
    start: Instant,
    responses: VecDeque<(PeerAddr, Bytes)>,
    accepted: VecDeque<Connection>,
    next_conn: u32,
    deferred: bool,
    pending: Vec<PendingConn>,
    requests: VecDeque<ConnRequest>,
}

impl View for Listener {
    type V = ListenerView;

    closed spec fn view(&self) -> ListenerView {
        ListenerView {
            config: self.config@,
            local_socket_id: self.local_socket_id,
            local_initial_seq: self.local_initial_seq@,
            cookie_secret: self.cookie_secret,
            start: self.start@,
            responses: self.responses@.map_values(
                |r: (PeerAddr, Bytes)| (r.0@, buffer::bytes_seq(r.1)),
            ),
            accepted: self.accepted@.map_values(|c: Connection| c@),
            next_conn: self.next_conn,
            deferred: self.deferred,
            pending: self.pending@.map_values(|p: PendingConn| p@),
            requests: self.requests@.map_values(|r: ConnRequest| r@),
        }
    }
}

impl Listener {
    /// What every method keeps: accepted connections are in a valid state, and
    /// what callers have sent can be sent back.
    pub closed spec fn wf(self) -> bool {
        &&& self.next_conn < SOCKET_IDS
        &&& forall|i: int| 0 <= i < self.accepted@.len() ==> (#[trigger] self.accepted@[i]).wf()
        &&& forall|i: int|
            0 <= i < self.pending@.len() ==> (#[trigger] self.pending@[i]).conclusion@.encodable()
    }

    /// A listener. The secret keys the cookies; like the ids, it is a random value
    /// that the embedder supplies.
    pub fn new(
        config: Config,
        local_socket_id: SocketId,
        local_initial_seq: SeqNumber,
        cookie_secret: u64,
        now: Instant,
    ) -> (r: Self)
        ensures
            r.wf(),
            r@ == (ListenerView {
                config: config@,
                local_socket_id,
                local_initial_seq: local_initial_seq@,
                cookie_secret,
                start: now@,
                responses: Seq::empty(),
                accepted: Seq::empty(),
                next_conn: 0,
                deferred: false,
                pending: Seq::empty(),
                requests: Seq::empty(),
            }),
    {
        Listener {
            config,
            local_socket_id,
            local_initial_seq,
            cookie_secret,
            start: now,
            responses: VecDeque::new(),
            accepted: VecDeque::new(),
            next_conn: 0,
            deferred: false,
            pending: Vec::new(),
            requests: VecDeque::new(),
        }
    }

    /// Lets the application decide on every caller: instead of being accepted, a
    /// caller is put on hold and shows up in [`Listener::poll_request`]. One that
    /// does not encrypt as it should is still turned away at once.
    pub fn defer_accepts(&mut self)
        requires
            old(self).wf(),
        ensures
            final(self).wf(),
            final(self)@ == (ListenerView { deferred: true, ..old(self)@ }),
    {
        self.deferred = true;
    }

    /// Feeds one received datagram and the address it came from.
    pub fn feed_recv_buf(&mut self, datagram: &[u8], from: PeerAddr, now: Instant)
        requires
            old(self).wf(),
        ensures
            final(self).wf(),
            final(self)@ == old(self)@.fed(datagram@, from@, now@),
    {
        self.prune(now);
        let packet = match Packet::decode(datagram) {
            Ok(packet) => packet,
            Err(_) => {
                return;
            },
        };
        if let Packet::Control(ControlPacket { body: ControlBody::Handshake(hs), .. }) = &packet {
            proof {
                lemma_decoded_packet_is_encodable(datagram@);
            }
            let kind: u32 = hs.handshake_type.to_raw();
            if kind == HandshakeType::INDUCTION {
                self.on_induction(hs, &from, now);
            } else if kind == HandshakeType::CONCLUSION {
                self.on_conclusion(hs, from, now);
            }
        }
    }

    /// Forgets the callers that have waited too long.
    fn prune(&mut self, now: Instant)
        requires
            old(self).wf(),
        ensures
            final(self).wf(),
            final(self)@ == old(self)@.pruned(now@),
    {
        let ttl = Duration::from_nanos(PENDING_TTL);
        let mut all: Vec<PendingConn> = Vec::new();
        std::mem::swap(&mut all, &mut self.pending);
        let ghost views = all@.map_values(|p: PendingConn| p@);
        let mut kept: Vec<PendingConn> = Vec::new();
        assert(views.take(0) =~= Seq::empty());
        for p in it: all
            invariant
                it.seq() == all@,
                views == all@.map_values(|p: PendingConn| p@),
                ttl@ == PENDING_TTL,
                kept@.map_values(|p: PendingConn| p@) == still_pending(
                    views.take(it.index()),
                    now@,
                ),
                forall|i: int|
                    0 <= i < all@.len() ==> (#[trigger] all@[i]).conclusion@.encodable(),
                forall|i: int|
                    0 <= i < kept@.len() ==> (#[trigger] kept@[i]).conclusion@.encodable(),
        {
            let ghost i = it.index();
            assert(p == all@[i]);
            assert(views.take(i + 1).drop_last() =~= views.take(i));
            assert(views.take(i + 1).last() == p@);
            let ghost held = kept@.map_values(|p: PendingConn| p@);
            if now.saturating_duration_since(p.since).shorter_than(ttl) {
                kept.push(p);
                assert(kept@.map_values(|p: PendingConn| p@) =~= held.push(p@));
            }
        }
        assert(views.take(views.len() as int) =~= views);
        self.pending = kept;
    }

    /// Queues a datagram.
    fn respond(&mut self, to: PeerAddr, bytes: Bytes)
        requires
            old(self).wf(),
        ensures
            final(self).wf(),
            final(self)@ == old(self)@.responded(to@, buffer::bytes_seq(bytes)),
    {
        self.responses.push_back((to, bytes));
    }

    /// A handshake without extensions.
    fn make_reply(
        &self,
        from: &PeerAddr,
        extension_field: u16,
        handshake_type: HandshakeType,
        syn_cookie: u32,
    ) -> (r: Handshake)
        ensures
            r@ == self@.reply(from@, extension_field, handshake_type, syn_cookie),
            r@.encodable(),
    {
        Handshake {
            version: HS_VERSION_SRT,
            encryption: EncryptionField::Unencrypted,
            extension_field,
            initial_seq: self.local_initial_seq,
            mtu: self.config.mtu,
            max_flow_window: self.config.flow_window,
            handshake_type,
            srt_socket_id: self.local_socket_id,
            syn_cookie,
            peer_ip: peer_ip(from),
            extensions: Vec::new(),
        }
    }

    /// Answers a first handshake with a fresh cookie.
    fn on_induction(&mut self, request: &Handshake, from: &PeerAddr, now: Instant)
        requires
            old(self).wf(),
        ensures
            final(self).wf(),
            final(self)@ == old(self)@.induced(request@, from@, now@),
    {
        let cookie: u32 = self.cookie(from, self.quantum(now));
        let reply = self.make_reply(
            from,
            SRT_MAGIC,
            HandshakeType::from_raw(HandshakeType::INDUCTION),
            cookie,
        );
        let bytes = encode_control(
            request.srt_socket_id,
            wire_ts(self.start, now),
            ControlBody::Handshake(reply),
        );
        self.respond(*from, bytes);
    }

    /// Takes a second handshake. With a wrong cookie it is dropped without an
    /// answer. A caller that does not encrypt as it should is told so, instead of
    /// being left to its timeout.
    fn on_conclusion(&mut self, conclusion: &Handshake, from: PeerAddr, now: Instant)
        requires
            old(self).wf(),
            conclusion@.encodable(),
        ensures
            final(self).wf(),
            final(self)@ == old(self)@.concluded(conclusion@, from@, now@),
    {
        if !self.cookie_valid(conclusion.syn_cookie, &from, now) {
            return;
        }
        if self.deferred {
            self.park_conclusion(conclusion, from, now);
            return;
        }
        match Connection::accept(self.config.copy(), self.next_id(), conclusion, now) {
            Ok(conn) => {
                let ghost queue = self@.accepted;
                self.number();
                self.accepted.push_back(conn);
                assert(self@.accepted =~= queue.push(conn@));
            },
            Err(error) => self.reject(conclusion, from, reject_reason(&error), now),
        }
    }

    /// The socket id of the next connection.
    fn next_id(&self) -> (r: SocketId)
        requires
            self.wf(),
        ensures
            r == self@.next_id(),
    {
        let listener: u64 = self.local_socket_id.value() as u64;
        let n: u64 = self.next_conn as u64;
        let offset: u64 = if n + 1 < 0x1_0000_0000 - listener {
            n + 1
        } else {
            n + 2
        };
        SocketId::new(((listener + offset) % 0x1_0000_0000) as u32)
    }

    /// Uses the next connection's number up.
    fn number(&mut self)
        requires
            old(self).wf(),
        ensures
            final(self).wf(),
            final(self)@ == old(self)@.numbered(),
            final(self)@.accepted == old(self)@.accepted,
    {
        if self.next_conn + 1 < SOCKET_IDS {
            self.next_conn = self.next_conn + 1;
        } else {
            self.next_conn = 0;
        }
    }

    /// The position of the waiting caller with the given address.
    fn find_pending(&self, from: &PeerAddr) -> (r: usize)
        ensures
            r == pending_index(self@.pending, from@),
            r <= self.pending@.len(),
            r <= self@.pending.len(),
    {
        let ghost views = self@.pending;
        let mut i: usize = 0;
        assert(views.skip(0) =~= views);
        while i < self.pending.len() && !self.pending[i].from.same(from)
            invariant
                views == self@.pending,
                i <= self.pending@.len(),
                pending_index(views, from@) == i + pending_index(views.skip(i as int), from@),
            decreases self.pending@.len() - i,
        {
            assert(views.skip(i as int)[0] == self.pending@[i as int]@);
            assert(views.skip(i as int).skip(1) =~= views.skip(i + 1));
            i += 1;
        }
        assert(i < self.pending@.len() ==> views.skip(i as int)[0] == self.pending@[i as int]@);
        i
    }

    /// Puts a caller on hold for the application's decision. One that does not
    /// encrypt as it should is turned away and never shows up. One that is on hold
    /// already is refreshed: an undecided caller keeps sending.
    fn park_conclusion(&mut self, conclusion: &Handshake, from: PeerAddr, now: Instant)
        requires
            old(self).wf(),
            conclusion@.encodable(),
        ensures
            final(self).wf(),
            final(self)@ == old(self)@.parked(conclusion@, from@, now@),
    {
        if let Err(error) = Connection::validate_accept(&self.config, conclusion) {
            self.reject(conclusion, from, reject_reason(&error), now);
            return;
        }
        let ghost before = self@;
        let entry = PendingConn { from, conclusion: conclusion.copy(), since: now };
        let i: usize = self.find_pending(&from);
        if i < self.pending.len() {
            self.pending.set(i, entry);
            assert(self@.pending =~= before.pending.update(i as int, entry@));
            return;
        }
        let request = ConnRequest { remote_addr: from, stream_id: find_stream_id(conclusion) };
        self.pending.push(entry);
        assert(self@.pending =~= before.pending.push(entry@));
        self.requests.push_back(request);
        assert(self@.requests =~= before.requests.push(request@));
    }

    /// Fetches the next request, if the application decides.
    pub fn poll_request(&mut self) -> (r: Option<ConnRequest>)
        requires
            old(self).wf(),
        ensures
            final(self).wf(),
            match r {
                Some(request) => {
                    &&& old(self)@.requests.len() > 0 && request@ == old(self)@.requests[0]
                    &&& final(self)@ == (ListenerView {
                        requests: old(self)@.requests.skip(1),
                        ..old(self)@
                    })
                },
                None => old(self)@.requests.len() == 0 && final(self)@ == old(self)@,
            },
    {
        self.requests.pop_front()
    }

    /// Accepts the waiting caller with the given address. If none is waiting, or
    /// it has waited too long, that is an error.
    pub fn accept_pending(&mut self, remote: PeerAddr, now: Instant) -> (r: Result<
        Connection,
        ConnectionError,
    >)
        requires
            old(self).wf(),
        ensures
            final(self).wf(),
            ({
                let waiting = old(self)@.pruned(now@);
                let i = pending_index(waiting.pending, remote@);
                let entry = waiting.pending[i];
                let s = waiting.unparked(i);
                if i >= waiting.pending.len() {
                    r == Err::<Connection, ConnectionError>(ConnectionError::InvalidState)
                        && final(self)@ == waiting
                } else {
                    match ConnView::accepted(s.config, s.next_id(), entry.conclusion, now@) {
                        Ok(conn) => {
                            &&& r matches Ok(c) && c@ == conn && c.wf()
                            &&& final(self)@ == s.numbered()
                        },
                        Err(e) => {
                            &&& r == Err::<Connection, ConnectionError>(
                                ConnectionError::Crypto(e),
                            )
                            &&& final(self)@ == s.rejected(
                                entry.conclusion,
                                entry.from,
                                reason_for(e),
                                now@,
                            )
                        },
                    }
                }
            }),
    {
        self.prune(now);
        let i: usize = self.find_pending(&remote);
        if i >= self.pending.len() {
            return Err(ConnectionError::InvalidState);
        }
        let parked = self.unpark(i);
        match Connection::accept(self.config.copy(), self.next_id(), &parked.conclusion, now) {
            Ok(conn) => {
                self.number();
                Ok(conn)
            },
            Err(error) => {
                self.reject(&parked.conclusion, parked.from, reject_reason(&error), now);
                Err(error)
            },
        }
    }

    /// Takes the waiting caller at `i` off hold.
    fn unpark(&mut self, i: usize) -> (r: PendingConn)
        requires
            old(self).wf(),
            i < old(self).pending@.len(),
        ensures
            final(self).wf(),
            final(self)@ == old(self)@.unparked(i as int),
            r@ == old(self)@.pending[i as int],
            r.conclusion@.encodable(),
    {
        let ghost before = self@.pending;
        let ghost entries = self.pending@;
        let parked = self.pending.swap_remove(i);
        assert(self@.pending =~= before.update(i as int, before.last()).drop_last());
        assert forall|k: int| 0 <= k < self.pending@.len() implies (
        #[trigger] self.pending@[k]).conclusion@.encodable() by {
            assert(self.pending@[k] == entries[k] || self.pending@[k] == entries.last());
        }
        parked
    }

    /// Turns the waiting caller with the given address away, with a reason of the
    /// application's. Returns whether one was waiting, and not for too long.
    pub fn reject_pending(&mut self, remote: PeerAddr, reason: RejectReason, now: Instant) -> (r:
        bool)
        requires
            old(self).wf(),
        ensures
            final(self).wf(),
            ({
                let waiting = old(self)@.pruned(now@);
                let i = pending_index(waiting.pending, remote@);
                let entry = waiting.pending[i];
                &&& r == (i < waiting.pending.len())
                &&& r ==> final(self)@ == waiting.unparked(i).rejected(
                    entry.conclusion,
                    entry.from,
                    reason,
                    now@,
                )
                &&& !r ==> final(self)@ == waiting
            }),
    {
        self.prune(now);
        let i: usize = self.find_pending(&remote);
        if i >= self.pending.len() {
            return false;
        }
        let parked = self.unpark(i);
        self.reject(&parked.conclusion, parked.from, reason, now);
        true
    }

    /// Answers a second handshake with a refusal.
    fn reject(&mut self, conclusion: &Handshake, from: PeerAddr, reason: RejectReason, now: Instant)
        requires
            old(self).wf(),
        ensures
            final(self).wf(),
            final(self)@ == old(self)@.rejected(conclusion@, from@, reason, now@),
    {
        let reply = self.make_reply(&from, 0, HandshakeType::rejection(reason), 0);
        let bytes = encode_control(
            conclusion.srt_socket_id,
            wire_ts(self.start, now),
            ControlBody::Handshake(reply),
        );
        self.respond(from, bytes);
    }

    /// Fetches the next datagram to be sent, and where to send it.
    pub fn poll_response(&mut self) -> (r: Option<(PeerAddr, Bytes)>)
        requires
            old(self).wf(),
        ensures
            final(self).wf(),
            match r {
                Some((to, bytes)) => {
                    &&& old(self)@.responses.len() > 0
                    &&& (to@, buffer::bytes_seq(bytes)) == old(self)@.responses[0]
                    &&& final(self)@ == (ListenerView {
                        responses: old(self)@.responses.skip(1),
                        ..old(self)@
                    })
                },
                None => old(self)@.responses.len() == 0 && final(self)@ == old(self)@,
            },
    {
        self.responses.pop_front()
    }

    /// Fetches the next connection that was accepted.
    pub fn poll_accept(&mut self) -> (r: Option<Connection>)
        requires
            old(self).wf(),
        ensures
            final(self).wf(),
            match r {
                Some(conn) => {
                    &&& conn.wf()
                    &&& old(self)@.accepted.len() > 0 && conn@ == old(self)@.accepted[0]
                    &&& final(self)@ == (ListenerView {
                        accepted: old(self)@.accepted.skip(1),
                        ..old(self)@
                    })
                },
                None => old(self)@.accepted.len() == 0 && final(self)@ == old(self)@,
            },
    {
        let ghost entries = self.accepted@;
        let r = self.accepted.pop_front();
        assert forall|k: int| 0 <= k < self.accepted@.len() implies (
        #[trigger] self.accepted@[k]).wf() by {
            if r is Some {
                assert(self.accepted@[k] == entries[k + 1]);
            }
        }
        r
    }

    /// The span of time at `now`.
    fn quantum(&self, now: Instant) -> (r: u64)
        ensures
            r == self@.quantum(now@),
    {
        let nanos: u128 = now.saturating_duration_since(self.start).as_nanos();
        (nanos / 1_000_000_000 / COOKIE_QUANTUM_SECS as u128) as u64
    }

    /// The cookie for an address in a span of time.
    fn cookie(&self, from: &PeerAddr, quantum: u64) -> (r: u32)
        ensures
            r == cookie_of(self@.cookie_secret, from@, quantum),
    {
        syn_cookie(self.cookie_secret, from, quantum)
    }

    /// Whether a cookie was made for the address, in this span of time or in the
    /// one before.
    fn cookie_valid(&self, cookie: u32, from: &PeerAddr, now: Instant) -> (r: bool)
        ensures
            r == self@.cookie_valid(cookie, from@, now@),
    {
        let q: u64 = self.quantum(now);
        cookie == self.cookie(from, q) || (q > 0 && cookie == self.cookie(from, q - 1))
    }
}

proof fn lemma_decoded_packet_is_encodable(datagram: Seq<u8>)
    ensures
        PacketView::of_bytes(datagram) matches Ok(
            PacketView::Control { body: ControlView::Handshake(hs), .. },
        ) ==> hs.encodable(),
{
    handshake::law_decoded_handshake_is_encodable(
        datagram.subrange(16, datagram.len() as int),
    );
}

/// A second handshake with a cookie that is neither of this span of time nor of
/// the one before changes nothing: no answer, no connection, no request.
pub proof fn law_forged_cookie_earns_nothing(
    listener: ListenerView,
    hs: HandshakeView,
    from: AddrView,
    now: u64,
)
    requires
        !listener.cookie_valid(hs.syn_cookie, from, now),
    ensures
        listener.concluded(hs, from, now) == listener,
{
}

/// A first handshake is answered and leaves nothing else behind.
pub proof fn law_induction_keeps_no_state(
    listener: ListenerView,
    hs: HandshakeView,
    from: AddrView,
    now: u64,
)
    ensures
        ({
            let after = listener.induced(hs, from, now);
            &&& after == (ListenerView { responses: after.responses, ..listener })
            &&& after.responses.len() == listener.responses.len() + 1
            &&& after.responses.last().0 == from
        }),
{
}

/// The cookie that a first answer carries is accepted for at least as long as a
/// span of time lasts.
pub proof fn law_genuine_cookie_is_accepted(
    listener: ListenerView,
    from: AddrView,
    then: u64,
    now: u64,
)
    requires
        listener.start <= then <= now,
        now - then <= COOKIE_QUANTUM_SECS * 1_000_000_000,
    ensures
        listener.cookie_valid(listener.cookie(from, then), from, now),
{
    let a = (then - listener.start) / 1_000_000_000;
    let b = (now - listener.start) / 1_000_000_000;
    assert(a <= b <= a + 60);
    assert(a / 60 <= b / 60 <= a / 60 + 1);
}

/// A caller whose encryption does not fit is told why, and nothing else changes:
/// `Unsecure` if exactly one end encrypts, `BadSecret` if the key does not
/// unwrap, whether the application decides or not.
pub proof fn law_mismatched_encryption_is_refused(
    listener: ListenerView,
    hs: HandshakeView,
    from: AddrView,
    now: u64,
)
    requires
        listener.cookie_valid(hs.syn_cookie, from, now),
        model::admission(listener.config.encryption, hs.extensions) is Err,
    ensures
        ({
            let e = model::admission(listener.config.encryption, hs.extensions)->Err_0;
            &&& listener.concluded(hs, from, now) == listener.rejected(
                hs,
                from,
                reason_for(e),
                now,
            )
            &&& (listener.config.encryption is Some) != (model::km_request(hs.extensions) is Some)
                ==> reason_for(e) == RejectReason::Unsecure
        }),
{
    reveal(ConnView::accepted);
}

/// A caller with the listener's passphrase and a genuine cookie is not refused. Where
/// the application does not decide, it is let in, and the connection holds the
/// caller's key.
pub proof fn law_matching_passphrase_is_let_in(
    listener: ListenerView,
    caller: ConnView,
    keys: KeysView,
    from: AddrView,
    now: u64,
)
    requires
        laws::announces(caller, keys),
        listener.config.encryption is Some,
        listener.config.encryption->0.passphrase == caller.config.encryption->0.passphrase,
        listener.cookie_valid(caller.conclusion_hs().syn_cookie, from, now),
    ensures
        ({
            let after = listener.concluded(caller.conclusion_hs(), from, now);
            &&& after.responses == listener.responses
            &&& !listener.deferred ==> {
                &&& after.accepted.len() == listener.accepted.len() + 1
                &&& laws::shares_the_key(caller, after.accepted.last())
                &&& laws::shares_the_key(after.accepted.last(), caller)
            }
        }),
{
    laws::law_one_passphrase_makes_one_key(
        caller,
        keys,
        listener.config,
        listener.next_id(),
        now,
        now,
    );
    reveal(ConnView::conclusion_hs);
}

proof fn lemma_pending_index(ps: Seq<PendingView>, from: AddrView)
    ensures
        0 <= pending_index(ps, from) <= ps.len(),
    decreases ps.len(),
{
    if ps.len() > 0 && ps[0].from != from {
        lemma_pending_index(ps.skip(1), from);
    }
}

/// A caller that sends its second handshake again while it is on hold causes no
/// second request.
pub proof fn law_waiting_caller_is_asked_about_once(
    listener: ListenerView,
    hs: HandshakeView,
    from: AddrView,
    now: u64,
)
    requires
        pending_index(listener.pending, from) < listener.pending.len(),
    ensures
        listener.parked(hs, from, now).requests == listener.requests,
        listener.parked(hs, from, now).pending.len() == listener.pending.len(),
{
    lemma_pending_index(listener.pending, from);
}

proof fn lemma_spans(elapsed: int)
    requires
        0 <= elapsed,
    ensures
        elapsed / 1_000_000_000 / 60 == elapsed / 60_000_000_000,
{
}

proof fn lemma_span_before(elapsed: int)
    requires
        0 <= elapsed,
    ensures
        elapsed >= 60_000_000_000 <==> elapsed / 60_000_000_000 > 0,
        elapsed >= 60_000_000_000 ==> (elapsed - 60_000_000_000) / 60_000_000_000 == elapsed
            / 60_000_000_000 - 1,
{
}

/// A cookie is the one of its address and minute, counted from the start; it is good
/// in that minute and the next, and what is good is one of those two.
pub proof fn law_cookies_last_a_minute_or_two(
    listener: ListenerView,
    cookie: u32,
    from: AddrView,
    now: u64,
)
    requires
        listener.start <= now,
    ensures
        listener.cookie(from, now) == cookie_of(
            listener.cookie_secret,
            from,
            ((now - listener.start) / 60_000_000_000) as u64,
        ),
        listener.cookie_valid(cookie, from, now) <==> cookie == listener.cookie(from, now) || (now
            - listener.start >= 60_000_000_000 && cookie == listener.cookie(
            from,
            (now - 60_000_000_000) as u64,
        )),
{
    let elapsed = now - listener.start;
    lemma_spans(elapsed);
    lemma_span_before(elapsed);
    if elapsed >= 60_000_000_000 {
        lemma_spans(elapsed - 60_000_000_000);
    }
}

/// A handshake without extensions as the listener sends it: of version 5, with its own
/// socket id, packet size and window, and with the address that the caller is seen at,
/// padded with zeros.
pub open spec fn short_answer(
    listener: ListenerView,
    to: SocketId,
    from: AddrView,
    extension_field: u16,
    kind: u32,
    cookie: u32,
    now: u64,
) -> Seq<u8> {
    (PacketView::Control {
        timestamp: (if now >= listener.start {
            (now - listener.start) / 1_000 % 0x1_0000_0000
        } else {
            0
        }) as u32,
        dest_socket_id: to,
        body: ControlView::Handshake(
            HandshakeView {
                version: 5,
                encryption: EncryptionField::Unencrypted,
                extension_field,
                initial_seq: listener.local_initial_seq,
                mtu: listener.config.mtu,
                max_flow_window: listener.config.flow_window,
                handshake_type: HandshakeType(kind),
                srt_socket_id: listener.local_socket_id,
                syn_cookie: cookie,
                peer_ip: ip_field(from.octets),
                extensions: Seq::empty(),
            },
        ),
    }).bytes()
}

/// The address field holds the bytes of the address, and zeros behind them.
pub proof fn law_address_field_holds_the_address(octets: Seq<u8>)
    requires
        octets.len() <= 16,
    ensures
        ip_field(octets) == octets + Seq::new((16 - octets.len()) as nat, |i: int| 0u8),
{
    assert(ip_field(octets) =~= octets + Seq::new((16 - octets.len()) as nat, |i: int| 0u8));
}

proof fn lemma_still_pending(ps: Seq<PendingView>, now: u64, i: int)
    requires
        0 <= i < ps.len(),
    ensures
        still_pending(ps, now).contains(ps[i]) <== (now < ps[i].since || now - ps[i].since
            < 30_000_000_000),
    decreases ps.len(),
{
    let rest = ps.drop_last();
    if i < ps.len() - 1 {
        lemma_still_pending(rest, now, i);
        if still_pending(rest, now).contains(ps[i]) {
            let k = choose|k: int|
                0 <= k < still_pending(rest, now).len() && still_pending(rest, now)[k] == ps[i];
            assert(still_pending(ps, now)[k] == ps[i]);
        }
    } else if now < ps[i].since || now - ps[i].since < 30_000_000_000 {
        assert(still_pending(ps, now).last() == ps[i]);
    }
}

proof fn lemma_only_recent(ps: Seq<PendingView>, now: u64)
    ensures
        still_pending(ps, now).len() <= ps.len(),
        forall|k: int|
            0 <= k < still_pending(ps, now).len() ==> ps.contains(
                #[trigger] still_pending(ps, now)[k],
            ) && (now < still_pending(ps, now)[k].since || now - still_pending(ps, now)[k].since
                < 30_000_000_000),
    decreases ps.len(),
{
    if ps.len() > 0 {
        let rest = ps.drop_last();
        lemma_only_recent(rest, now);
        let kept = still_pending(ps, now);
        let before = still_pending(rest, now);
        assert forall|k: int| 0 <= k < kept.len() implies ps.contains(#[trigger] kept[k]) && (now
            < kept[k].since || now - kept[k].since < 30_000_000_000) by {
            if k < before.len() {
                assert(kept[k] == before[k]);
                let j = choose|j: int| 0 <= j < rest.len() && rest[j] == before[k];
                assert(ps[j] == kept[k]);
            } else {
                assert(ps[ps.len() - 1] == kept[k]);
            }
        }
    }
}

/// A caller waits 30 s for the application's decision: whenever anything arrives, those
/// who have waited as long are forgotten, and no others.
pub proof fn law_callers_wait_thirty_seconds(
    listener: ListenerView,
    caller: PendingView,
    now: u64,
)
    requires
        listener.pending.contains(caller),
    ensures
        listener.pruned(now).pending.contains(caller) <==> now < caller.since || now
            - caller.since < 30_000_000_000,
        listener.pruned(now).pending.len() <= listener.pending.len(),
        listener.pruned(now) == (ListenerView {
            pending: listener.pruned(now).pending,
            ..listener
        }),
{
    let i = choose|i: int| 0 <= i < listener.pending.len() && listener.pending[i] == caller;
    lemma_still_pending(listener.pending, now, i);
    lemma_only_recent(listener.pending, now);
}

/// What a listener makes of a handshake. A first one is answered with one of version 5
/// that carries the magic number and a cookie, and leaves nothing behind. A second one
/// with a good cookie is let in under the next socket id, is put on hold where the
/// application decides, or is told the reason why not; any other earns nothing.
pub proof fn law_listeners_answer_handshakes(
    listener: ListenerView,
    datagram: Seq<u8>,
    timestamp: u32,
    dest: SocketId,
    hs: HandshakeView,
    from: AddrView,
    now: u64,
)
    requires
        brings(datagram, timestamp, dest, ControlView::Handshake(hs)),
    ensures
        ({
            let before = listener.pruned(now);
            let after = listener.fed(datagram, from, now);
            let first = hs.handshake_type.0 == 1;
            let second = hs.handshake_type.0 == 0xFFFF_FFFF && listener.cookie_valid(
                hs.syn_cookie,
                from,
                now,
            );
            let admitted = model::admission(listener.config.encryption, hs.extensions);
            let id = SocketId(minted(listener.local_socket_id.0, listener.next_conn));
            &&& !first && !second ==> after == before
            &&& first ==> after == (ListenerView {
                responses: listener.responses.push(
                    (
                        from,
                        short_answer(
                            listener,
                            hs.srt_socket_id,
                            from,
                            0x4A17,
                            1,
                            listener.cookie(from, now),
                            now,
                        ),
                    ),
                ),
                ..before
            })
            &&& second && admitted is Err ==> after == (ListenerView {
                responses: listener.responses.push(
                    (
                        from,
                        short_answer(
                            listener,
                            hs.srt_socket_id,
                            from,
                            0,
                            match admitted->Err_0 {
                                CryptoError::MissingKeyMaterial => 1011,
                                CryptoError::UnexpectedKeyMaterial => 1011,
                                _ => 1010,
                            },
                            0,
                            now,
                        ),
                    ),
                ),
                ..before
            })
            &&& second && admitted is Ok && !listener.deferred ==> ConnView::accepted(
                listener.config,
                id,
                hs,
                now,
            ) is Ok && after == (ListenerView {
                accepted: listener.accepted.push(
                    ConnView::accepted(listener.config, id, hs, now)->Ok_0,
                ),
                next_conn: if listener.next_conn < 0xFFFF_FFFD {
                    (listener.next_conn + 1) as u32
                } else {
                    0
                },
                ..before
            })
            &&& second && admitted is Ok && listener.deferred ==> after == before.parked(
                hs,
                from,
                now,
            )
        }),
{
    let before = listener.pruned(now);
    lemma_heard(listener, datagram, timestamp, dest, hs, from, now);
    lemma_short_answer(
        before,
        hs.srt_socket_id,
        from,
        SRT_MAGIC,
        HandshakeType::INDUCTION,
        before.cookie(from, now),
        now,
    );
    match model::admission(listener.config.encryption, hs.extensions) {
        Err(e) => {
            let reason = reason_for(e);
            lemma_short_answer(
                before,
                hs.srt_socket_id,
                from,
                0,
                (1000 + reason.code()) as u32,
                0,
                now,
            );
        },
        Ok(_) => {},
    }
    reveal(ConnView::accepted);
}

proof fn lemma_heard(
    listener: ListenerView,
    datagram: Seq<u8>,
    timestamp: u32,
    dest: SocketId,
    hs: HandshakeView,
    from: AddrView,
    now: u64,
)
    requires
        brings(datagram, timestamp, dest, ControlView::Handshake(hs)),
    ensures
        listener.fed(datagram, from, now) == (if hs.handshake_type.0 == 1 {
            listener.pruned(now).induced(hs, from, now)
        } else if hs.handshake_type.0 == 0xFFFF_FFFF {
            listener.pruned(now).concluded(hs, from, now)
        } else {
            listener.pruned(now)
        }),
{
    reveal(brings);
}

proof fn lemma_short_answer(
    listener: ListenerView,
    to: SocketId,
    from: AddrView,
    extension_field: u16,
    kind: u32,
    cookie: u32,
    now: u64,
)
    ensures
        model::control_bytes(
            to,
            listener.ts(now),
            ControlView::Handshake(
                listener.reply(from, extension_field, HandshakeType(kind), cookie),
            ),
        ) == short_answer(listener, to, from, extension_field, kind, cookie, now),
{
    reveal(model::control_bytes);
}

/// A caller on hold: a new one is asked about, with its Stream ID, and waits behind the
/// others; one that is on hold already only starts to wait anew.
pub proof fn law_callers_are_put_on_hold(
    listener: ListenerView,
    hs: HandshakeView,
    from: AddrView,
    now: u64,
    i: int,
)
    requires
        model::admission(listener.config.encryption, hs.extensions) is Ok,
        0 <= i <= listener.pending.len(),
        forall|j: int| 0 <= j < i ==> (#[trigger] listener.pending[j]).from != from,
        i < listener.pending.len() ==> listener.pending[i].from == from,
    ensures
        ({
            let entry = PendingView { from, conclusion: hs, since: now };
            let after = listener.parked(hs, from, now);
            &&& i < listener.pending.len() ==> after == (ListenerView {
                pending: listener.pending.update(i, entry),
                ..listener
            })
            &&& i == listener.pending.len() ==> after == (ListenerView {
                pending: listener.pending.push(entry),
                requests: listener.requests.push(
                    RequestView { remote_addr: from, stream_id: stream_id_in(hs.extensions) },
                ),
                ..listener
            })
        }),
{
    lemma_pending_at(listener.pending, from, i);
}

proof fn lemma_pending_at(ps: Seq<PendingView>, from: AddrView, i: int)
    requires
        0 <= i <= ps.len(),
        forall|j: int| 0 <= j < i ==> (#[trigger] ps[j]).from != from,
        i < ps.len() ==> ps[i].from == from,
    ensures
        pending_index(ps, from) == i,
    decreases ps.len(),
{
    if i > 0 {
        let rest = ps.skip(1);
        assert(ps[0].from != from);
        assert forall|j: int| 0 <= j < i - 1 implies (#[trigger] rest[j]).from != from by {
            assert(rest[j] == ps[j + 1]);
        }
        lemma_pending_at(rest, from, i - 1);
    }
}

/// The Stream ID of a request is that of the first such extension.
pub proof fn law_first_stream_id_counts(exts: Seq<ExtensionView>, i: int)
    requires
        0 <= i < exts.len(),
        forall|j: int| 0 <= j < i ==> !((#[trigger] exts[j]) is StreamId),
        exts[i] is StreamId,
    ensures
        stream_id_in(exts) == Some(exts[i]->StreamId_0),
    decreases exts.len(),
{
    if i > 0 {
        assert(!(exts[0] is StreamId));
        let rest = exts.skip(1);
        assert forall|j: int| 0 <= j < i - 1 implies !((#[trigger] rest[j]) is StreamId) by {
            assert(rest[j] == exts[j + 1]);
        }
        assert(rest[i - 1] == exts[i]);
        law_first_stream_id_counts(rest, i - 1);
    }
}

/// A caller that was decided on no longer waits; all others go on waiting.
pub proof fn law_decided_callers_no_longer_wait(listener: ListenerView, i: int, j: int)
    requires
        0 <= i < listener.pending.len(),
        0 <= j < listener.pending.len(),
        j != i,
    ensures
        listener.unparked(i).pending.len() == listener.pending.len() - 1,
        listener.unparked(i).pending.contains(listener.pending[j]),
        listener.unparked(i) == (ListenerView {
            pending: listener.unparked(i).pending,
            ..listener
        }),
{
    let after = listener.unparked(i).pending;
    if j == listener.pending.len() - 1 {
        assert(after[i] == listener.pending[j]);
    } else {
        assert(after[j] == listener.pending[j]);
    }
}

/// A refusal names its reason: a handshake whose type is 1000 and the reason's code, which
/// is 8 for the version, 10 for the passphrase, 11 for encryption at one end only, and the
/// application's own otherwise.
pub proof fn law_refusals_name_the_reason(
    listener: ListenerView,
    hs: HandshakeView,
    from: AddrView,
    reason: RejectReason,
    now: u64,
)
    ensures
        listener.rejected(hs, from, reason, now) == (ListenerView {
            responses: listener.responses.push(
                (
                    from,
                    short_answer(
                        listener,
                        hs.srt_socket_id,
                        from,
                        0,
                        match reason {
                            RejectReason::Unknown => 1000,
                            RejectReason::Version => 1008,
                            RejectReason::BadSecret => 1010,
                            RejectReason::Unsecure => 1011,
                            RejectReason::Other(code) => if code > 0x7FFF_FC17 {
                                0x7FFF_FFFF
                            } else {
                                (1000 + code) as u32
                            },
                        },
                        0,
                        now,
                    ),
                ),
            ),
            ..listener
        }),
{
    lemma_short_answer(
        listener,
        hs.srt_socket_id,
        from,
        0,
        (1000 + reason.code()) as u32,
        0,
        now,
    );
}

/// The hash behind the cookies is FNV-1a in 64 bits: each byte is mixed in and the whole
/// multiplied by the prime 2^40 + 435.
pub proof fn law_hash_takes_one_byte_at_a_time(h: u64, bytes: Seq<u8>, b: u8)
    ensures
        fnv(h, Seq::empty()) == h,
        fnv(h, bytes.push(b)) == (fnv(h, bytes) ^ (b as u64)) * 1_099_511_628_211
            % 0x1_0000_0000_0000_0000,
{
    assert(bytes.push(b).drop_last() =~= bytes);
}

/// A cookie covers the secret, the address, the port and the minute, all of them: it is the
/// hash of the address bytes, the port and the minute, begun from the secret, with its two
/// halves folded into one.
pub proof fn law_cookies_cover_address_port_and_minute(secret: u64, from: AddrView, quantum: u64)
    ensures
        ({
            let bytes = from.octets + wire::be16(from.port) + wire::be32(
                (quantum / 0x1_0000_0000) as u32,
            ) + wire::be32((quantum % 0x1_0000_0000) as u32);
            let h = fnv(0xcbf2_9ce4_8422_2325u64 ^ secret, bytes);
            cookie_of(secret, from, quantum) == (h ^ (h >> 32u64)) % 0x1_0000_0000
        }),
{
    reveal(cookie_of);
    assert(from.octets + wire::be16(from.port) + be64(quantum) =~= from.octets + wire::be16(
        from.port,
    ) + wire::be32((quantum / 0x1_0000_0000) as u32) + wire::be32(
        (quantum % 0x1_0000_0000) as u32,
    ));
}

} // verus!
