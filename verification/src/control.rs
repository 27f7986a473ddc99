//! Typed control packet bodies.
//!
//! The meaning of a control packet lies in its control type, its subtype, its
//! type-specific word and its control information field (CIF). [`ControlBody`]
//! folds these into one typed value per control type. User-defined packets are
//! kept raw.

use crate::buffer;
use crate::error::ControlError;
use crate::handshake::{Handshake, HandshakeView};
use crate::loss_list;
use crate::loss_list::LossRange;
use crate::seq::SeqNumber;
use crate::wire;
use bytes::{Bytes, BytesMut};
use vstd::prelude::*;

verus! {

/// The 15-bit control type.
#[derive(Debug, Clone, Copy, PartialEq, Eq, Hash, Structural)]
pub enum ControlType {
    /// Connection handshake (`0x0000`).
    Handshake,
    /// Keep-alive (`0x0001`).
    Keepalive,
    /// Acknowledgement (`0x0002`).
    Ack,
    /// Loss report (`0x0003`).
    Nak,
    /// Congestion warning (`0x0004`).
    CongestionWarning,
    /// Shutdown (`0x0005`).
    Shutdown,
    /// Acknowledgement of an ACK (`0x0006`).
    AckAck,
    /// Message drop request (`0x0007`).
    DropReq,
    /// Peer error (`0x0008`).
    PeerError,
    /// User-defined control packet (`0x7FFF`).
    UserDefined,
}

impl ControlType {
    /// The wire value.
    pub open spec fn raw(self) -> u16 {
        match self {
            ControlType::Handshake => 0x0000,
            ControlType::Keepalive => 0x0001,
            ControlType::Ack => 0x0002,
            ControlType::Nak => 0x0003,
            ControlType::CongestionWarning => 0x0004,
            ControlType::Shutdown => 0x0005,
            ControlType::AckAck => 0x0006,
            ControlType::DropReq => 0x0007,
            ControlType::PeerError => 0x0008,
            ControlType::UserDefined => 0x7FFF,
        }
    }

    fn to_raw(self) -> (r: u16)
        ensures
            r == self.raw(),
            r < 0x8000,
    {
        match self {
            ControlType::Handshake => 0x0000,
            ControlType::Keepalive => 0x0001,
            ControlType::Ack => 0x0002,
            ControlType::Nak => 0x0003,
            ControlType::CongestionWarning => 0x0004,
            ControlType::Shutdown => 0x0005,
            ControlType::AckAck => 0x0006,
            ControlType::DropReq => 0x0007,
            ControlType::PeerError => 0x0008,
            ControlType::UserDefined => 0x7FFF,
        }
    }

    fn from_raw(raw: u16) -> (r: Result<Self, ControlError>)
        ensures
            match r {
                Ok(t) => t.raw() == raw,
                Err(e) => e == ControlError::UnknownType(raw) && 0x0008 < raw && raw != 0x7FFF,
            },
    {
        match raw {
            0x0000 => Ok(ControlType::Handshake),
            0x0001 => Ok(ControlType::Keepalive),
            0x0002 => Ok(ControlType::Ack),
            0x0003 => Ok(ControlType::Nak),
            0x0004 => Ok(ControlType::CongestionWarning),
            0x0005 => Ok(ControlType::Shutdown),
            0x0006 => Ok(ControlType::AckAck),
            0x0007 => Ok(ControlType::DropReq),
            0x0008 => Ok(ControlType::PeerError),
            0x7FFF => Ok(ControlType::UserDefined),
            other => Err(ControlError::UnknownType(other)),
        }
    }
}

/// How much detail an acknowledgement carries.
#[derive(Debug, Clone, Copy, PartialEq, Eq)]
pub enum AckCif {
    /// Only the acknowledged sequence number (4 bytes).
    Light,
    /// Round-trip figures and free buffer too (16 bytes).
    Small {
        /// Smoothed round-trip time, microseconds.
        rtt: u32,
        /// Round-trip time variance, microseconds.
        rtt_variance: u32,
        /// Free receive buffer, packets.
        avail_buffer_size: u32,
    },
    /// The fields of a small acknowledgement and rate estimates (28 bytes).
    Full {
        /// Smoothed round-trip time, microseconds.
        rtt: u32,
        /// Round-trip time variance, microseconds.
        rtt_variance: u32,
        /// Free receive buffer, packets.
        avail_buffer_size: u32,
        /// Receiving rate, packets per second.
        packets_recv_rate: u32,
        /// Estimated link capacity, packets per second.
        estimated_link_capacity: u32,
        /// Receiving rate, bytes per second.
        receiving_rate: u32,
    },
}

/// An acknowledgement.
#[derive(Debug, Clone, Copy, PartialEq, Eq)]
pub struct Ack {
    /// The acknowledgement's number, echoed in an ACKACK.
    pub ack_number: u32,
    /// One past the last packet received without a gap.
    pub last_ack_seq: SeqNumber,
    /// How much detail the acknowledgement carries.
    pub cif: AckCif,
}

/// A typed control packet body.
#[derive(Debug, Clone, PartialEq, Eq)]
pub enum ControlBody {
    /// Keep-alive.
    Keepalive,
    /// Shutdown.
    Shutdown,
    /// Congestion warning.
    CongestionWarning,
    /// Acknowledgement of a full acknowledgement.
    AckAck {
        /// The number of the acknowledgement being confirmed.
        ack_number: u32,
    },
    /// Message drop request.
    DropReq {
        /// The message being dropped.
        message_number: u32,
        /// First dropped sequence number.
        first: SeqNumber,
        /// Last dropped sequence number.
        last: SeqNumber,
    },
    /// Peer error.
    PeerError {
        /// The error code.
        error_code: u32,
    },
    /// Acknowledgement.
    Ack(Ack),
    /// Loss report.
    Nak {
        /// The lost sequence numbers.
        loss: Vec<LossRange>,
    },
    /// Connection handshake.
    Handshake(Handshake),
    /// A control packet whose body is not parsed.
    Raw {
        /// The control type.
        control_type: ControlType,
        /// The subtype.
        subtype: u16,
        /// The type-specific word.
        type_specific: u32,
        /// The CIF bytes.
        cif: Bytes,
    },
}

/// What a [`ControlBody`] holds.
#[verifier::ext_equal]
#[allow(inconsistent_fields)]
pub enum ControlView {
    /// Keep-alive.
    Keepalive,
    /// Shutdown.
    Shutdown,
    /// Congestion warning.
    CongestionWarning,
    /// Acknowledgement of a full acknowledgement.
    AckAck {
        /// The number of the acknowledgement being confirmed.
        ack_number: u32,
    },
    /// Message drop request.
    DropReq {
        /// The message being dropped.
        message_number: u32,
        /// First dropped sequence number.
        first: u32,
        /// Last dropped sequence number.
        last: u32,
    },
    /// Peer error.
    PeerError {
        /// The error code.
        error_code: u32,
    },
    /// Acknowledgement.
    Ack {
        /// The acknowledgement's number.
        ack_number: u32,
        /// One past the last packet received without a gap.
        last_ack_seq: u32,
        /// How much detail the acknowledgement carries.
        cif: AckCif,
    },
    /// Loss report.
    Nak {
        /// The lost sequence numbers.
        loss: Seq<(u32, u32)>,
    },
    /// Connection handshake.
    Handshake(HandshakeView),
    /// A control packet whose body is not parsed.
    Raw {
        /// The control type.
        control_type: ControlType,
        /// The subtype.
        subtype: u16,
        /// The type-specific word.
        type_specific: u32,
        /// The CIF bytes.
        cif: Seq<u8>,
    },
}

impl View for ControlBody {
    type V = ControlView;

    open spec fn view(&self) -> ControlView {
        match *self {
            ControlBody::Keepalive => ControlView::Keepalive,
            ControlBody::Shutdown => ControlView::Shutdown,
            ControlBody::CongestionWarning => ControlView::CongestionWarning,
            ControlBody::AckAck { ack_number } => ControlView::AckAck { ack_number },
            ControlBody::DropReq { message_number, first, last } => ControlView::DropReq {
                message_number,
                first: first@,
                last: last@,
            },
            ControlBody::PeerError { error_code } => ControlView::PeerError { error_code },
            ControlBody::Ack(ack) => ControlView::Ack {
                ack_number: ack.ack_number,
                last_ack_seq: ack.last_ack_seq@,
                cif: ack.cif,
            },
            ControlBody::Nak { loss } => ControlView::Nak { loss: loss_list::views(loss@) },
            ControlBody::Handshake(hs) => ControlView::Handshake(hs@),
            ControlBody::Raw { control_type, subtype, type_specific, cif } => ControlView::Raw {
                control_type,
                subtype,
                type_specific,
                cif: buffer::bytes_seq(cif),
            },
        }
    }
}

/// The CIF of an acknowledgement.
pub open spec fn ack_bytes(last_ack_seq: u32, cif: AckCif) -> Seq<u8> {
    match cif {
        AckCif::Light => wire::be32(last_ack_seq),
        AckCif::Small { rtt, rtt_variance, avail_buffer_size } => wire::be32(last_ack_seq)
            + wire::be32(rtt) + wire::be32(rtt_variance) + wire::be32(avail_buffer_size),
        AckCif::Full {
            rtt,
            rtt_variance,
            avail_buffer_size,
            packets_recv_rate,
            estimated_link_capacity,
            receiving_rate,
        } => wire::be32(last_ack_seq) + wire::be32(rtt) + wire::be32(rtt_variance) + wire::be32(
            avail_buffer_size,
        ) + wire::be32(packets_recv_rate) + wire::be32(estimated_link_capacity) + wire::be32(
            receiving_rate,
        ),
    }
}

/// The acknowledgement in a CIF; its length tells how much detail it carries.
pub open spec fn ack_of(ack_number: u32, cif: Seq<u8>) -> Result<ControlView, ControlError> {
    let last_ack_seq = (wire::read32(cif, 0) % 0x8000_0000) as u32;
    if cif.len() == 4 {
        Ok(ControlView::Ack { ack_number, last_ack_seq, cif: AckCif::Light })
    } else if cif.len() == 16 {
        Ok(
            ControlView::Ack {
                ack_number,
                last_ack_seq,
                cif: AckCif::Small {
                    rtt: wire::read32(cif, 4),
                    rtt_variance: wire::read32(cif, 8),
                    avail_buffer_size: wire::read32(cif, 12),
                },
            },
        )
    } else if cif.len() == 28 {
        Ok(
            ControlView::Ack {
                ack_number,
                last_ack_seq,
                cif: AckCif::Full {
                    rtt: wire::read32(cif, 4),
                    rtt_variance: wire::read32(cif, 8),
                    avail_buffer_size: wire::read32(cif, 12),
                    packets_recv_rate: wire::read32(cif, 16),
                    estimated_link_capacity: wire::read32(cif, 20),
                    receiving_rate: wire::read32(cif, 24),
                },
            },
        )
    } else {
        Err(ControlError::InvalidCifLength { kind: "ACK", len: cif.len() as usize })
    }
}

impl ControlView {
    /// The control type.
    pub open spec fn control_type(self) -> ControlType {
        match self {
            ControlView::Keepalive => ControlType::Keepalive,
            ControlView::Shutdown => ControlType::Shutdown,
            ControlView::CongestionWarning => ControlType::CongestionWarning,
            ControlView::AckAck { .. } => ControlType::AckAck,
            ControlView::DropReq { .. } => ControlType::DropReq,
            ControlView::PeerError { .. } => ControlType::PeerError,
            ControlView::Ack { .. } => ControlType::Ack,
            ControlView::Nak { .. } => ControlType::Nak,
            ControlView::Handshake(_) => ControlType::Handshake,
            ControlView::Raw { control_type, .. } => control_type,
        }
    }

    /// The subtype.
    pub open spec fn subtype(self) -> u16 {
        match self {
            ControlView::Raw { subtype, .. } => subtype,
            _ => 0,
        }
    }

    /// The type-specific word.
    pub open spec fn type_specific(self) -> u32 {
        match self {
            ControlView::AckAck { ack_number } => ack_number,
            ControlView::DropReq { message_number, .. } => message_number,
            ControlView::PeerError { error_code } => error_code,
            ControlView::Ack { ack_number, .. } => ack_number,
            ControlView::Raw { type_specific, .. } => type_specific,
            _ => 0,
        }
    }

    /// The CIF bytes.
    pub open spec fn cif_bytes(self) -> Seq<u8> {
        match self {
            ControlView::DropReq { first, last, .. } => wire::be32(first) + wire::be32(last),
            ControlView::Ack { last_ack_seq, cif, .. } => ack_bytes(last_ack_seq, cif),
            ControlView::Nak { loss } => loss_list::encode_list(loss),
            ControlView::Handshake(hs) => hs.bytes(),
            ControlView::Raw { cif, .. } => cif,
            _ => Seq::empty(),
        }
    }

    /// A handshake's extensions fit their length fields.
    pub open spec fn encodable(self) -> bool {
        self matches ControlView::Handshake(hs) ==> hs.encodable()
    }

    /// The body with the given header words and CIF.
    pub open spec fn of_wire(
        raw_type: u16,
        subtype: u16,
        type_specific: u32,
        cif: Seq<u8>,
    ) -> Result<ControlView, ControlError> {
        if raw_type == 0x0000 {
            match HandshakeView::of_bytes(cif) {
                Ok(hs) => Ok(ControlView::Handshake(hs)),
                Err(e) => Err(ControlError::Handshake(e)),
            }
        } else if raw_type == 0x0001 {
            Ok(ControlView::Keepalive)
        } else if raw_type == 0x0002 {
            ack_of(type_specific, cif)
        } else if raw_type == 0x0003 {
            match loss_list::decode_list(cif) {
                Ok(loss) => Ok(ControlView::Nak { loss }),
                Err(e) => Err(ControlError::LossList(e)),
            }
        } else if raw_type == 0x0004 {
            Ok(ControlView::CongestionWarning)
        } else if raw_type == 0x0005 {
            Ok(ControlView::Shutdown)
        } else if raw_type == 0x0006 {
            Ok(ControlView::AckAck { ack_number: type_specific })
        } else if raw_type == 0x0007 {
            if cif.len() != 8 {
                Err(
                    ControlError::InvalidCifLength {
                        kind: "drop request",
                        len: cif.len() as usize,
                    },
                )
            } else {
                Ok(
                    ControlView::DropReq {
                        message_number: type_specific,
                        first: (wire::read32(cif, 0) % 0x8000_0000) as u32,
                        last: (wire::read32(cif, 4) % 0x8000_0000) as u32,
                    },
                )
            }
        } else if raw_type == 0x0008 {
            Ok(ControlView::PeerError { error_code: type_specific })
        } else if raw_type == 0x7FFF {
            Ok(
                ControlView::Raw {
                    control_type: ControlType::UserDefined,
                    subtype,
                    type_specific,
                    cif,
                },
            )
        } else {
            Err(ControlError::UnknownType(raw_type))
        }
    }

    /// Decoding the body's own encoding gives the body back: sequence numbers
    /// are 31-bit, a raw body is a user-defined one, a handshake is canonical.
    pub open spec fn canonical(self) -> bool {
        match self {
            ControlView::DropReq { first, last, .. } => first < 0x8000_0000 && last < 0x8000_0000,
            ControlView::Ack { last_ack_seq, .. } => last_ack_seq < 0x8000_0000,
            ControlView::Nak { loss } => forall|k: int|
                0 <= k < loss.len() ==> loss_list::valid_range(#[trigger] loss[k]),
            ControlView::Handshake(hs) => hs.canonical(),
            ControlView::Raw { control_type, .. } => control_type == ControlType::UserDefined,
            _ => true,
        }
    }
}

impl ControlBody {
    /// The control type, the subtype and the type-specific word.
    pub(crate) fn to_wire(&self) -> (r: (u16, u16, u32))
        ensures
            r.0 == self@.control_type().raw(),
            r.0 < 0x8000,
            r.1 == self@.subtype(),
            r.2 == self@.type_specific(),
    {
        match self {
            ControlBody::Keepalive => (ControlType::Keepalive.to_raw(), 0, 0),
            ControlBody::Shutdown => (ControlType::Shutdown.to_raw(), 0, 0),
            ControlBody::CongestionWarning => (ControlType::CongestionWarning.to_raw(), 0, 0),
            ControlBody::AckAck { ack_number } => (ControlType::AckAck.to_raw(), 0, *ack_number),
            ControlBody::DropReq { message_number, .. } => {
                (ControlType::DropReq.to_raw(), 0, *message_number)
            },
            ControlBody::PeerError { error_code } => {
                (ControlType::PeerError.to_raw(), 0, *error_code)
            },
            ControlBody::Ack(ack) => (ControlType::Ack.to_raw(), 0, ack.ack_number),
            ControlBody::Nak { .. } => (ControlType::Nak.to_raw(), 0, 0),
            ControlBody::Handshake(_) => (ControlType::Handshake.to_raw(), 0, 0),
            ControlBody::Raw { control_type, subtype, type_specific, .. } => {
                (control_type.to_raw(), *subtype, *type_specific)
            },
        }
    }

    /// Appends the CIF.
    pub(crate) fn encode_cif(&self, out: &mut BytesMut)
        requires
            self@.encodable(),
        ensures
            buffer::buf_seq(*final(out)) == buffer::buf_seq(*old(out)) + self@.cif_bytes(),
    {
        let ghost before = buffer::buf_seq(*out);
        match self {
            ControlBody::Keepalive => {},
            ControlBody::Shutdown => {},
            ControlBody::CongestionWarning => {},
            ControlBody::AckAck { .. } => {},
            ControlBody::PeerError { .. } => {},
            ControlBody::DropReq { first, last, .. } => {
                wire::put_u32(out, first.value());
                wire::put_u32(out, last.value());
            },
            ControlBody::Ack(ack) => {
                wire::put_u32(out, ack.last_ack_seq.value());
                match ack.cif {
                    AckCif::Light => {},
                    AckCif::Small { rtt, rtt_variance, avail_buffer_size } => {
                        wire::put_u32(out, rtt);
                        wire::put_u32(out, rtt_variance);
                        wire::put_u32(out, avail_buffer_size);
                    },
                    AckCif::Full {
                        rtt,
                        rtt_variance,
                        avail_buffer_size,
                        packets_recv_rate,
                        estimated_link_capacity,
                        receiving_rate,
                    } => {
                        wire::put_u32(out, rtt);
                        wire::put_u32(out, rtt_variance);
                        wire::put_u32(out, avail_buffer_size);
                        wire::put_u32(out, packets_recv_rate);
                        wire::put_u32(out, estimated_link_capacity);
                        wire::put_u32(out, receiving_rate);
                    },
                }
            },
            ControlBody::Nak { loss } => loss_list::encode(loss.as_slice(), out),
            ControlBody::Handshake(hs) => hs.encode(out),
            ControlBody::Raw { cif, .. } => buffer::put_slice(out, buffer::as_slice(cif)),
        }
        assert(buffer::buf_seq(*out) =~= before + self@.cif_bytes());
    }

    /// Decodes a body from its header words and CIF. The CIF of a type that has
    /// none is ignored.
    pub(crate) fn decode(raw_type: u16, subtype: u16, type_specific: u32, cif: &[u8]) -> (r: Result<
        Self,
        ControlError,
    >)
        ensures
            match r {
                Ok(body) => ControlView::of_wire(raw_type, subtype, type_specific, cif@) == Ok::<
                    ControlView,
                    ControlError,
                >(body@),
                Err(e) => ControlView::of_wire(raw_type, subtype, type_specific, cif@) == Err::<
                    ControlView,
                    ControlError,
                >(e),
            },
    {
        let control_type = match ControlType::from_raw(raw_type) {
            Ok(control_type) => control_type,
            Err(e) => {
                return Err(e);
            },
        };
        match control_type {
            ControlType::Keepalive => Ok(ControlBody::Keepalive),
            ControlType::Shutdown => Ok(ControlBody::Shutdown),
            ControlType::CongestionWarning => Ok(ControlBody::CongestionWarning),
            ControlType::AckAck => Ok(ControlBody::AckAck { ack_number: type_specific }),
            ControlType::PeerError => Ok(ControlBody::PeerError { error_code: type_specific }),
            ControlType::DropReq => {
                if cif.len() != 8 {
                    return Err(
                        ControlError::InvalidCifLength { kind: "drop request", len: cif.len() },
                    );
                }
                Ok(
                    ControlBody::DropReq {
                        message_number: type_specific,
                        first: SeqNumber::new(wire::get_u32(cif, 0)),
                        last: SeqNumber::new(wire::get_u32(cif, 4)),
                    },
                )
            },
            ControlType::Ack => decode_ack(type_specific, cif),
            ControlType::Nak => match loss_list::decode(cif) {
                Ok(loss) => Ok(ControlBody::Nak { loss }),
                Err(e) => Err(ControlError::LossList(e)),
            },
            ControlType::Handshake => match Handshake::decode(cif) {
                Ok(hs) => Ok(ControlBody::Handshake(hs)),
                Err(e) => Err(ControlError::Handshake(e)),
            },
            ControlType::UserDefined => Ok(
                ControlBody::Raw {
                    control_type,
                    subtype,
                    type_specific,
                    cif: buffer::copy_from_slice(cif),
                },
            ),
        }
    }
}

/// Decodes an acknowledgement by the length of its CIF.
fn decode_ack(ack_number: u32, cif: &[u8]) -> (r: Result<ControlBody, ControlError>)
    ensures
        match r {
            Ok(body) => ack_of(ack_number, cif@) == Ok::<ControlView, ControlError>(body@),
            Err(e) => ack_of(ack_number, cif@) == Err::<ControlView, ControlError>(e),
        },
{
    let len: usize = cif.len();
    if len != 4 && len != 16 && len != 28 {
        return Err(ControlError::InvalidCifLength { kind: "ACK", len });
    }
    let last_ack_seq = SeqNumber::new(wire::get_u32(cif, 0));
    let cif = if len == 4 {
        AckCif::Light
    } else if len == 16 {
        AckCif::Small {
            rtt: wire::get_u32(cif, 4),
            rtt_variance: wire::get_u32(cif, 8),
            avail_buffer_size: wire::get_u32(cif, 12),
        }
    } else {
        AckCif::Full {
            rtt: wire::get_u32(cif, 4),
            rtt_variance: wire::get_u32(cif, 8),
            avail_buffer_size: wire::get_u32(cif, 12),
            packets_recv_rate: wire::get_u32(cif, 16),
            estimated_link_capacity: wire::get_u32(cif, 20),
            receiving_rate: wire::get_u32(cif, 24),
        }
    };
    Ok(ControlBody::Ack(Ack { ack_number, last_ack_seq, cif }))
}

/// An acknowledgement survives encoding and decoding.
#[verifier::spinoff_prover]
#[verifier::rlimit(60)]
proof fn lemma_ack_round_trips(ack_number: u32, last_ack_seq: u32, cif: AckCif)
    requires
        last_ack_seq < 0x8000_0000,
    ensures
        ack_of(ack_number, ack_bytes(last_ack_seq, cif)) == Ok::<ControlView, ControlError>(
            ControlView::Ack { ack_number, last_ack_seq, cif },
        ),
{
    let s = ack_bytes(last_ack_seq, cif);
    assert(s.subrange(0, 4) =~= wire::be32(last_ack_seq));
    wire::lemma_read32_be32(s, 0, last_ack_seq);
    match cif {
        AckCif::Light => {},
        AckCif::Small { rtt, rtt_variance, avail_buffer_size } => {
            assert(s.subrange(4, 8) =~= wire::be32(rtt));
            assert(s.subrange(8, 12) =~= wire::be32(rtt_variance));
            assert(s.subrange(12, 16) =~= wire::be32(avail_buffer_size));
            wire::lemma_read32_be32(s, 4, rtt);
            wire::lemma_read32_be32(s, 8, rtt_variance);
            wire::lemma_read32_be32(s, 12, avail_buffer_size);
        },
        AckCif::Full {
            rtt,
            rtt_variance,
            avail_buffer_size,
            packets_recv_rate,
            estimated_link_capacity,
            receiving_rate,
        } => {
            assert(s.subrange(4, 8) =~= wire::be32(rtt));
            assert(s.subrange(8, 12) =~= wire::be32(rtt_variance));
            assert(s.subrange(12, 16) =~= wire::be32(avail_buffer_size));
            assert(s.subrange(16, 20) =~= wire::be32(packets_recv_rate));
            assert(s.subrange(20, 24) =~= wire::be32(estimated_link_capacity));
            assert(s.subrange(24, 28) =~= wire::be32(receiving_rate));
            wire::lemma_read32_be32(s, 4, rtt);
            wire::lemma_read32_be32(s, 8, rtt_variance);
            wire::lemma_read32_be32(s, 12, avail_buffer_size);
            wire::lemma_read32_be32(s, 16, packets_recv_rate);
            wire::lemma_read32_be32(s, 20, estimated_link_capacity);
            wire::lemma_read32_be32(s, 24, receiving_rate);
        },
    }
}

/// A drop request survives encoding and decoding.
proof fn lemma_drop_request_round_trips(message_number: u32, first: u32, last: u32, subtype: u16)
    requires
        first < 0x8000_0000,
        last < 0x8000_0000,
    ensures
        ControlView::of_wire(
            0x0007,
            subtype,
            message_number,
            wire::be32(first) + wire::be32(last),
        ) == Ok::<ControlView, ControlError>(
            ControlView::DropReq { message_number, first, last },
        ),
{
    let s = wire::be32(first) + wire::be32(last);
    assert(s.subrange(0, 4) =~= wire::be32(first));
    assert(s.subrange(4, 8) =~= wire::be32(last));
    wire::lemma_read32_be32(s, 0, first);
    wire::lemma_read32_be32(s, 4, last);
}

/// A handshake survives encoding and decoding.
proof fn lemma_handshake_body_round_trips(hs: HandshakeView, subtype: u16, type_specific: u32)
    requires
        hs.encodable(),
        hs.canonical(),
    ensures
        ControlView::of_wire(0x0000, subtype, type_specific, hs.bytes()) == Ok::<
            ControlView,
            ControlError,
        >(ControlView::Handshake(hs)),
{
    crate::handshake::law_handshake_round_trips(hs);
    let s = hs.bytes();
    let r = HandshakeView::of_bytes(s);
    assert(r == Ok::<HandshakeView, crate::error::HandshakeError>(hs));
}

/// Decoding the header words and CIF of a body gives the body back.
pub proof fn law_control_body_round_trips(body: ControlView)
    requires
        body.encodable(),
        body.canonical(),
    ensures
        ControlView::of_wire(
            body.control_type().raw(),
            body.subtype(),
            body.type_specific(),
            body.cif_bytes(),
        ) == Ok::<ControlView, ControlError>(body),
{
    match body {
        ControlView::DropReq { message_number, first, last } => {
            lemma_drop_request_round_trips(message_number, first, last, 0);
        },
        ControlView::Ack { ack_number, last_ack_seq, cif } => {
            lemma_ack_round_trips(ack_number, last_ack_seq, cif);
        },
        ControlView::Nak { loss } => {
            loss_list::law_decode_encode(loss);
        },
        ControlView::Handshake(hs) => {
            lemma_handshake_body_round_trips(hs, 0, 0);
        },
        _ => {},
    }
}

} // verus!
