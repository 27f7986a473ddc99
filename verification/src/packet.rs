//! The SRT packet format.
//!
//! Every packet begins with a 16-byte header of four big-endian words. The top
//! bit of the first word tells a data packet (0) from a control packet (1).
//!
//! ```text
//! data                                  control
//! |0| sequence number (31)         |    |1| control type (15) | subtype (16) |
//! |PP|O|KK|R| message number (26)  |    | type-specific word               |
//! | timestamp                      |    | timestamp                        |
//! | destination socket id          |    | destination socket id            |
//! | payload ...                    |    | control information field ...    |
//! ```

use crate::buffer;
use crate::control::{ControlBody, ControlView};
use crate::error::PacketError;
use crate::seq::SeqNumber;
use crate::timestamp::Timestamp;
use crate::wire;
use bytes::{Bytes, BytesMut};
use vstd::prelude::*;
use vstd::slice::slice_subrange;

verus! {

/// Size of the common header.
pub const HEADER_LEN: usize = 16;

/// A 32-bit socket identifier.
#[derive(Debug, Clone, Copy, PartialEq, Eq, Hash, Structural)]
pub struct SocketId(pub u32);

impl SocketId {
    /// Wraps a raw socket id.
    #[must_use]
    pub fn new(value: u32) -> (r: Self)
        ensures
            r.0 == value,
    {
        SocketId(value)
    }

    /// The raw socket id.
    #[must_use]
    pub fn value(self) -> (r: u32)
        ensures
            r == self.0,
    {
        self.0
    }
}

/// A 26-bit message number. Its view is the number.
#[derive(Debug, Clone, Copy, PartialEq, Eq, Hash)]
pub struct MsgNumber(u32);

impl View for MsgNumber {
    type V = u32;

    closed spec fn view(&self) -> u32 {
        self.0
    }
}

impl MsgNumber {
    #[verifier::type_invariant]
    spec fn in_range(self) -> bool {
        self.0 < 0x400_0000
    }

    /// Keeps the low 26 bits of `value`, the width of the field on the wire.
    #[must_use]
    pub fn new(value: u32) -> (r: Self)
        ensures
            r@ == value % 0x400_0000,
    {
        MsgNumber(value % 0x400_0000)
    }

    /// The number.
    #[must_use]
    pub fn value(self) -> (r: u32)
        ensures
            r == self@,
            r < 0x400_0000,
    {
        proof {
            use_type_invariant(self);
        }
        self.0
    }
}

/// Position of a packet within a message.
#[derive(Debug, Clone, Copy, PartialEq, Eq, Hash, Structural)]
pub enum PacketPosition {
    /// First packet of a longer message (`0b10`).
    First,
    /// A packet in the middle (`0b00`).
    Middle,
    /// Last packet of a longer message (`0b01`).
    Last,
    /// A whole message in one packet (`0b11`).
    Single,
}

impl PacketPosition {
    /// The two bits on the wire.
    pub open spec fn bits(self) -> u8 {
        match self {
            PacketPosition::First => 2,
            PacketPosition::Middle => 0,
            PacketPosition::Last => 1,
            PacketPosition::Single => 3,
        }
    }

    /// The position with the given bits, of which the low two count.
    pub open spec fn of_bits(bits: int) -> PacketPosition {
        if bits % 4 == 2 {
            PacketPosition::First
        } else if bits % 4 == 1 {
            PacketPosition::Last
        } else if bits % 4 == 3 {
            PacketPosition::Single
        } else {
            PacketPosition::Middle
        }
    }

    fn to_bits(self) -> (r: u8)
        ensures
            r == self.bits(),
            r < 4,
    {
        match self {
            PacketPosition::First => 2,
            PacketPosition::Middle => 0,
            PacketPosition::Last => 1,
            PacketPosition::Single => 3,
        }
    }

    fn from_bits(bits: u8) -> (r: Self)
        ensures
            r == Self::of_bits(bits as int),
    {
        match bits % 4 {
            2 => PacketPosition::First,
            1 => PacketPosition::Last,
            3 => PacketPosition::Single,
            _ => PacketPosition::Middle,
        }
    }
}

/// Which key, if any, encrypts a data packet's payload.
#[derive(Debug, Clone, Copy, PartialEq, Eq, Hash, Structural)]
pub enum Encryption {
    /// Not encrypted (`0b00`).
    Unencrypted,
    /// Encrypted with the even key (`0b01`).
    Even,
    /// Encrypted with the odd key (`0b10`).
    Odd,
}

impl Encryption {
    /// The two bits on the wire.
    pub open spec fn bits(self) -> u8 {
        match self {
            Encryption::Unencrypted => 0,
            Encryption::Even => 1,
            Encryption::Odd => 2,
        }
    }

    /// The selection with the given bits, of which the low two count; `0b11` is
    /// not valid on a data packet.
    pub open spec fn of_bits(bits: int) -> Result<Encryption, PacketError> {
        if bits % 4 == 0 {
            Ok(Encryption::Unencrypted)
        } else if bits % 4 == 1 {
            Ok(Encryption::Even)
        } else if bits % 4 == 2 {
            Ok(Encryption::Odd)
        } else {
            Err(PacketError::InvalidKeyFlag(3))
        }
    }

    pub(crate) fn to_bits(self) -> (r: u8)
        ensures
            r == self.bits(),
            r < 3,
    {
        match self {
            Encryption::Unencrypted => 0,
            Encryption::Even => 1,
            Encryption::Odd => 2,
        }
    }

    pub(crate) fn from_bits(bits: u8) -> (r: Result<Self, PacketError>)
        ensures
            r == Self::of_bits(bits as int),
    {
        match bits % 4 {
            0 => Ok(Encryption::Unencrypted),
            1 => Ok(Encryption::Even),
            2 => Ok(Encryption::Odd),
            other => Err(PacketError::InvalidKeyFlag(other)),
        }
    }
}

/// A data packet.
#[derive(Debug, Clone, PartialEq, Eq)]
pub struct DataPacket {
    /// Sequence number.
    pub seq: SeqNumber,
    /// Position within the message.
    pub position: PacketPosition,
    /// Whether in-order delivery is required.
    pub in_order: bool,
    /// Which key encrypts the payload.
    pub encryption: Encryption,
    /// Whether this is a retransmission.
    pub retransmitted: bool,
    /// Message number.
    pub message_number: MsgNumber,
    /// Sender timestamp.
    pub timestamp: Timestamp,
    /// Destination socket id.
    pub dest_socket_id: SocketId,
    /// Payload, possibly encrypted.
    pub payload: Bytes,
}

/// What a [`DataPacket`] holds.
#[verifier::ext_equal]
pub struct DataView {
    /// Sequence number.
    pub seq: u32,
    /// Position within the message.
    pub position: PacketPosition,
    /// Whether in-order delivery is required.
    pub in_order: bool,
    /// Which key encrypts the payload.
    pub encryption: Encryption,
    /// Whether this is a retransmission.
    pub retransmitted: bool,
    /// Message number.
    pub message_number: u32,
    /// Sender timestamp.
    pub timestamp: u32,
    /// Destination socket id.
    pub dest_socket_id: SocketId,
    /// Payload.
    pub payload: Seq<u8>,
}

impl View for DataPacket {
    type V = DataView;

    open spec fn view(&self) -> DataView {
        DataView {
            seq: self.seq@,
            position: self.position,
            in_order: self.in_order,
            encryption: self.encryption,
            retransmitted: self.retransmitted,
            message_number: self.message_number@,
            timestamp: self.timestamp@,
            dest_socket_id: self.dest_socket_id,
            payload: buffer::bytes_seq(self.payload),
        }
    }
}

/// 1 for `true`, 0 for `false`.
pub open spec fn bit(b: bool) -> int {
    if b {
        1
    } else {
        0
    }
}

impl DataView {
    /// The second header word.
    pub open spec fn flags_word(self) -> u32 {
        (self.position.bits() * 0x4000_0000 + bit(self.in_order) * 0x2000_0000
            + self.encryption.bits() * 0x800_0000 + bit(self.retransmitted) * 0x400_0000
            + self.message_number) as u32
    }

    /// The header on the wire.
    pub open spec fn header(self) -> Seq<u8> {
        wire::be32(self.seq) + wire::be32(self.flags_word()) + wire::be32(self.timestamp)
            + wire::be32(self.dest_socket_id.0)
    }

    /// The numbers have the widths they have on the wire.
    pub open spec fn in_range(self) -> bool {
        self.seq < 0x8000_0000 && self.message_number < 0x400_0000
    }

    /// The header that an authenticated payload is bound to: the header of the
    /// first transmission, so that a retransmission authenticates as well.
    pub open spec fn authenticated_header(self) -> Seq<u8> {
        DataView { retransmitted: false, ..self }.header()
    }
}

impl DataPacket {
    /// Another handle on the same packet.
    pub(crate) fn copy(&self) -> (r: Self)
        ensures
            r@ == self@,
    {
        DataPacket {
            seq: self.seq,
            position: self.position,
            in_order: self.in_order,
            encryption: self.encryption,
            retransmitted: self.retransmitted,
            message_number: self.message_number,
            timestamp: self.timestamp,
            dest_socket_id: self.dest_socket_id,
            payload: self.payload.clone(),
        }
    }

    /// The second header word.
    fn flags_word(&self, retransmitted: bool) -> (r: u32)
        ensures
            r == (DataView { retransmitted, ..self@ }).flags_word(),
    {
        let in_order: u32 = if self.in_order { 0x2000_0000 } else { 0 };
        let resent: u32 = if retransmitted { 0x400_0000 } else { 0 };
        self.position.to_bits() as u32 * 0x4000_0000 + in_order + self.encryption.to_bits() as u32
            * 0x800_0000 + resent + self.message_number.value()
    }

    /// The 16 header bytes that AES-GCM authenticates along with the payload:
    /// the encoded header with the retransmission flag clear.
    #[must_use]
    pub fn header_aad(&self) -> (r: [u8; 16])
        ensures
            r@ == self@.authenticated_header(),
    {
        let a: [u8; 4] = wire::to_be32(self.seq.value());
        let b: [u8; 4] = wire::to_be32(self.flags_word(false));
        let c: [u8; 4] = wire::to_be32(self.timestamp.as_micros());
        let d: [u8; 4] = wire::to_be32(self.dest_socket_id.value());
        let r: [u8; 16] = [
            a[0], a[1], a[2], a[3],
            b[0], b[1], b[2], b[3],
            c[0], c[1], c[2], c[3],
            d[0], d[1], d[2], d[3],
        ];
        assert(r@ =~= self@.authenticated_header());
        r
    }
}

/// A control packet.
#[derive(Debug, Clone, PartialEq, Eq)]
pub struct ControlPacket {
    /// Sender timestamp.
    pub timestamp: Timestamp,
    /// Destination socket id.
    pub dest_socket_id: SocketId,
    /// The typed body.
    pub body: ControlBody,
}

/// A packet.
#[derive(Debug, Clone, PartialEq, Eq)]
pub enum Packet {
    /// A data packet.
    Data(DataPacket),
    /// A control packet.
    Control(ControlPacket),
}

/// What a [`Packet`] holds.
#[verifier::ext_equal]
pub enum PacketView {
    /// A data packet.
    Data(DataView),
    /// A control packet.
    Control {
        /// Sender timestamp.
        timestamp: u32,
        /// Destination socket id.
        dest_socket_id: SocketId,
        /// The body.
        body: ControlView,
    },
}

impl View for Packet {
    type V = PacketView;

    open spec fn view(&self) -> PacketView {
        match *self {
            Packet::Data(d) => PacketView::Data(d@),
            Packet::Control(c) => PacketView::Control {
                timestamp: c.timestamp@,
                dest_socket_id: c.dest_socket_id,
                body: c.body@,
            },
        }
    }
}

/// The header of a control packet.
pub open spec fn control_header(timestamp: u32, dest_socket_id: SocketId, body: ControlView) -> Seq<
    u8,
> {
    wire::be32(
        (0x8000_0000 + body.control_type().raw() * 0x1_0000 + body.subtype()) as u32,
    ) + wire::be32(body.type_specific()) + wire::be32(timestamp) + wire::be32(dest_socket_id.0)
}

impl PacketView {
    /// A handshake's extensions fit their length fields.
    pub open spec fn encodable(self) -> bool {
        self matches PacketView::Control { body, .. } ==> body.encodable()
    }

    /// Decoding the packet's own encoding gives the packet back.
    pub open spec fn canonical(self) -> bool {
        match self {
            PacketView::Data(d) => d.in_range(),
            PacketView::Control { body, .. } => body.canonical(),
        }
    }

    /// The packet on the wire.
    pub open spec fn bytes(self) -> Seq<u8> {
        match self {
            PacketView::Data(d) => d.header() + d.payload,
            PacketView::Control { timestamp, dest_socket_id, body } => control_header(
                timestamp,
                dest_socket_id,
                body,
            ) + body.cif_bytes(),
        }
    }

    /// The packet in `s`.
    pub open spec fn of_bytes(s: Seq<u8>) -> Result<PacketView, PacketError> {
        let w0 = wire::read32(s, 0);
        let w1 = wire::read32(s, 4);
        let timestamp = wire::read32(s, 8);
        let dest_socket_id = SocketId(wire::read32(s, 12));
        let rest = s.subrange(16, s.len() as int);
        if s.len() < HEADER_LEN {
            Err(PacketError::TooShort { need: HEADER_LEN, got: s.len() as usize })
        } else if w0 >= 0x8000_0000 {
            match ControlView::of_wire(
                (w0 / 0x1_0000 % 0x8000) as u16,
                (w0 % 0x1_0000) as u16,
                w1,
                rest,
            ) {
                Ok(body) => Ok(PacketView::Control { timestamp, dest_socket_id, body }),
                Err(e) => Err(PacketError::Control(e)),
            }
        } else {
            match Encryption::of_bits(w1 as int / 0x800_0000) {
                Ok(encryption) => Ok(
                    PacketView::Data(
                        DataView {
                            seq: w0,
                            position: PacketPosition::of_bits(w1 as int / 0x4000_0000),
                            in_order: w1 / 0x2000_0000 % 2 == 1,
                            encryption,
                            retransmitted: w1 / 0x400_0000 % 2 == 1,
                            message_number: (w1 % 0x400_0000) as u32,
                            timestamp,
                            dest_socket_id,
                            payload: rest,
                        },
                    ),
                ),
                Err(e) => Err(e),
            }
        }
    }
}

impl Packet {
    /// Appends the packet to `out`. A handshake whose extension is too long for
    /// its length field cannot be encoded.
    pub fn encode(&self, out: &mut BytesMut)
        requires
            self@.encodable(),
        ensures
            buffer::buf_seq(*final(out)) == buffer::buf_seq(*old(out)) + self@.bytes(),
    {
        let ghost before = buffer::buf_seq(*out);
        match self {
            Packet::Data(d) => {
                wire::put_u32(out, d.seq.value());
                wire::put_u32(out, d.flags_word(d.retransmitted));
                wire::put_u32(out, d.timestamp.as_micros());
                wire::put_u32(out, d.dest_socket_id.value());
                buffer::put_slice(out, buffer::as_slice(&d.payload));
                assert(DataView { retransmitted: d.retransmitted, ..d@ } == d@);
            },
            Packet::Control(c) => {
                let (control_type, subtype, type_specific) = c.body.to_wire();
                wire::put_u32(
                    out,
                    0x8000_0000 + control_type as u32 * 0x1_0000 + subtype as u32,
                );
                wire::put_u32(out, type_specific);
                wire::put_u32(out, c.timestamp.as_micros());
                wire::put_u32(out, c.dest_socket_id.value());
                c.body.encode_cif(out);
            },
        }
        assert(buffer::buf_seq(*out) =~= before + self@.bytes());
    }

    /// Decodes a packet. A buffer shorter than the header, the reserved key flag
    /// on a data packet and a malformed or unknown control body are errors.
    #[verifier::spinoff_prover]
    #[verifier::rlimit(60)]
    pub fn decode(buf: &[u8]) -> (r: Result<Self, PacketError>)
        ensures
            match r {
                Ok(p) => PacketView::of_bytes(buf@) == Ok::<PacketView, PacketError>(p@),
                Err(e) => PacketView::of_bytes(buf@) == Err::<PacketView, PacketError>(e),
            },
    {
        if buf.len() < HEADER_LEN {
            return Err(PacketError::TooShort { need: HEADER_LEN, got: buf.len() });
        }
        let w0: u32 = wire::get_u32(buf, 0);
        let w1: u32 = wire::get_u32(buf, 4);
        let timestamp = Timestamp::from_micros(wire::get_u32(buf, 8));
        let dest_socket_id = SocketId::new(wire::get_u32(buf, 12));
        let rest = slice_subrange(buf, HEADER_LEN, buf.len());
        if w0 >= 0x8000_0000 {
            let raw_type: u16 = (w0 / 0x1_0000 % 0x8000) as u16;
            let subtype: u16 = (w0 % 0x1_0000) as u16;
            match ControlBody::decode(raw_type, subtype, w1, rest) {
                Ok(body) => Ok(Packet::Control(ControlPacket { timestamp, dest_socket_id, body })),
                Err(e) => Err(PacketError::Control(e)),
            }
        } else {
            match Encryption::from_bits((w1 / 0x800_0000) as u8) {
                Ok(encryption) => Ok(
                    Packet::Data(
                        DataPacket {
                            seq: SeqNumber::new(w0),
                            position: PacketPosition::from_bits((w1 / 0x4000_0000) as u8),
                            in_order: w1 / 0x2000_0000 % 2 == 1,
                            encryption,
                            retransmitted: w1 / 0x400_0000 % 2 == 1,
                            message_number: MsgNumber::new(w1),
                            timestamp,
                            dest_socket_id,
                            payload: buffer::copy_from_slice(rest),
                        },
                    ),
                ),
                Err(e) => Err(e),
            }
        }
    }
}

/// Taking apart the second header word of a data packet.
proof fn lemma_flags_fields(pp: int, o: int, kk: int, r: int, m: int, w: int)
    requires
        0 <= pp < 4,
        0 <= o < 2,
        0 <= kk < 4,
        0 <= r < 2,
        0 <= m < 0x400_0000,
        w == pp * 0x4000_0000 + o * 0x2000_0000 + kk * 0x800_0000 + r * 0x400_0000 + m,
    ensures
        0 <= w < 0x1_0000_0000,
        w / 0x4000_0000 == pp,
        w / 0x2000_0000 % 2 == o,
        w / 0x800_0000 % 4 == kk,
        w / 0x400_0000 % 2 == r,
        w % 0x400_0000 == m,
{
    assert(w / 0x400_0000 == pp * 16 + o * 8 + kk * 2 + r);
    assert(w / 0x800_0000 == pp * 8 + o * 4 + kk);
    assert(w / 0x2000_0000 == pp * 2 + o);
}

/// Putting the second header word of a data packet together again.
proof fn lemma_flags_word(w: int)
    requires
        0 <= w < 0x1_0000_0000,
    ensures
        w == w / 0x4000_0000 * 0x4000_0000 + w / 0x2000_0000 % 2 * 0x2000_0000 + w / 0x800_0000 % 4
            * 0x800_0000 + w / 0x400_0000 % 2 * 0x400_0000 + w % 0x400_0000,
        0 <= w / 0x4000_0000 < 4,
{
    let a = w / 0x400_0000;
    let b = w / 0x800_0000;
    let c = w / 0x2000_0000;
    let d = w / 0x4000_0000;
    assert(w == a * 0x400_0000 + w % 0x400_0000);
    assert(a / 2 == b);
    assert(b / 4 == c);
    assert(c / 2 == d);
}

/// Taking apart the first header word of a control packet.
proof fn lemma_control_word(raw: int, subtype: int)
    requires
        0 <= raw < 0x8000,
        0 <= subtype < 0x1_0000,
    ensures
        (0x8000_0000 + raw * 0x1_0000 + subtype) / 0x1_0000 % 0x8000 == raw,
        (0x8000_0000 + raw * 0x1_0000 + subtype) % 0x1_0000 == subtype,
        0x8000_0000 <= 0x8000_0000 + raw * 0x1_0000 + subtype < 0x1_0000_0000,
{
    assert((0x8000_0000 + raw * 0x1_0000 + subtype) / 0x1_0000 == 0x8000 + raw);
}

/// The words of a header that begins `s`.
proof fn lemma_header_words(s: Seq<u8>, a: u32, b: u32, c: u32, d: u32, rest: Seq<u8>)
    requires
        s == wire::be32(a) + wire::be32(b) + wire::be32(c) + wire::be32(d) + rest,
    ensures
        s.len() == 16 + rest.len(),
        wire::read32(s, 0) == a,
        wire::read32(s, 4) == b,
        wire::read32(s, 8) == c,
        wire::read32(s, 12) == d,
        s.subrange(16, s.len() as int) == rest,
{
    assert(s.subrange(0, 4) =~= wire::be32(a));
    assert(s.subrange(4, 8) =~= wire::be32(b));
    assert(s.subrange(8, 12) =~= wire::be32(c));
    assert(s.subrange(12, 16) =~= wire::be32(d));
    assert(s.subrange(16, s.len() as int) =~= rest);
    wire::lemma_read32_be32(s, 0, a);
    wire::lemma_read32_be32(s, 4, b);
    wire::lemma_read32_be32(s, 8, c);
    wire::lemma_read32_be32(s, 12, d);
}

proof fn lemma_data_round_trips(d: DataView)
    requires
        d.in_range(),
    ensures
        PacketView::of_bytes(PacketView::Data(d).bytes()) == Ok::<PacketView, PacketError>(
            PacketView::Data(d),
        ),
{
    let s = PacketView::Data(d).bytes();
    let pp = d.position.bits() as int;
    let kk = d.encryption.bits() as int;
    let w1 = pp * 0x4000_0000 + bit(d.in_order) * 0x2000_0000 + kk * 0x800_0000 + bit(
        d.retransmitted,
    ) * 0x400_0000 + d.message_number;
    lemma_flags_fields(
        pp,
        bit(d.in_order),
        kk,
        bit(d.retransmitted),
        d.message_number as int,
        w1,
    );
    lemma_header_words(
        s,
        d.seq,
        d.flags_word(),
        d.timestamp,
        d.dest_socket_id.0,
        d.payload,
    );
    assert(d.flags_word() == w1);
    assert(Encryption::of_bits(w1 / 0x800_0000) == Ok::<Encryption, PacketError>(d.encryption));
    assert(PacketPosition::of_bits(w1 / 0x4000_0000) == d.position);
}

proof fn lemma_control_round_trips(timestamp: u32, dest_socket_id: SocketId, body: ControlView)
    requires
        body.encodable(),
        body.canonical(),
    ensures
        PacketView::of_bytes(
            (PacketView::Control { timestamp, dest_socket_id, body }).bytes(),
        ) == Ok::<PacketView, PacketError>(
            (PacketView::Control { timestamp, dest_socket_id, body }),
        ),
{
    let s = (PacketView::Control { timestamp, dest_socket_id, body }).bytes();
    let raw = body.control_type().raw();
    let cif = body.cif_bytes();
    assert(raw < 0x8000);
    crate::control::law_control_body_round_trips(body);
    let subtype = body.subtype();
    let type_specific = body.type_specific();
    lemma_control_packet(s, raw, subtype, type_specific, timestamp, dest_socket_id, cif);
}

/// A control packet with the given header fields decodes by its body.
proof fn lemma_control_packet(
    s: Seq<u8>,
    raw: u16,
    subtype: u16,
    type_specific: u32,
    timestamp: u32,
    dest_socket_id: SocketId,
    cif: Seq<u8>,
)
    requires
        raw < 0x8000,
        s == wire::be32((0x8000_0000 + raw * 0x1_0000 + subtype) as u32) + wire::be32(type_specific)
            + wire::be32(timestamp) + wire::be32(dest_socket_id.0) + cif,
    ensures
        PacketView::of_bytes(s) == (match ControlView::of_wire(raw, subtype, type_specific, cif) {
            Ok(body) => Ok(PacketView::Control { timestamp, dest_socket_id, body }),
            Err(e) => Err(PacketError::Control(e)),
        }),
{
    lemma_control_word(raw as int, subtype as int);
    let w0 = (0x8000_0000 + raw * 0x1_0000 + subtype) as u32;
    lemma_header_words(s, w0, type_specific, timestamp, dest_socket_id.0, cif);
}

/// Decoding an encoded packet gives the packet back.
pub proof fn law_packet_round_trips(p: PacketView)
    requires
        p.encodable(),
        p.canonical(),
    ensures
        PacketView::of_bytes(p.bytes()) == Ok::<PacketView, PacketError>(p),
{
    match p {
        PacketView::Data(d) => lemma_data_round_trips(d),
        PacketView::Control { timestamp, dest_socket_id, body } => lemma_control_round_trips(
            timestamp,
            dest_socket_id,
            body,
        ),
    }
}

/// A data packet that was decoded encodes to the bytes it was decoded from.
pub proof fn law_decoded_data_reencodes(s: Seq<u8>)
    ensures
        PacketView::of_bytes(s) matches Ok(PacketView::Data(d)) ==> PacketView::Data(d).bytes()
            == s && d.in_range(),
{
    if let Ok(PacketView::Data(d)) = PacketView::of_bytes(s) {
        let w1 = wire::read32(s, 4);
        lemma_flags_word(w1 as int);
        assert(d.flags_word() == w1);
        wire::lemma_be32_read32(s, 0);
        wire::lemma_be32_read32(s, 4);
        wire::lemma_be32_read32(s, 8);
        wire::lemma_be32_read32(s, 12);
        assert(PacketView::Data(d).bytes() =~= s);
    }
}

/// The top bit of the first byte tells data from control packets.
pub proof fn law_first_byte_tells_the_kind(p: PacketView)
    requires
        p.canonical(),
    ensures
        p is Data ==> p.bytes()[0] < 0x80,
        p is Control ==> p.bytes()[0] >= 0x80,
{
    if let PacketView::Control { body, .. } = p {
        assert(body.control_type().raw() < 0x8000);
    }
}

} // verus!
