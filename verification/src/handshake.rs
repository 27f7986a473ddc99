//! The handshake control body and its extensions.
//!
//! A handshake is a fixed 48-byte header followed by extensions, each a type, a
//! length in 4-byte words and that much content. The SRT handshake extensions
//! and the Stream ID are typed; every other extension is carried as raw bytes.
//!
//! A Stream ID is zero-padded to whole 4-byte blocks, and the bytes are reversed
//! inside each block.

use crate::buffer;
use crate::error::HandshakeError;
use crate::packet::SocketId;
use crate::seq::SeqNumber;
use crate::wire;
use bytes::{Bytes, BytesMut};
use vstd::prelude::*;
use vstd::slice::slice_subrange;
use vstd::utf8;

verus! {

/// Size of the fixed part of a handshake.
pub const BASE_LEN: usize = 48;

/// Extension type of an SRT handshake request.
pub const EXT_HSREQ: u16 = 1;

/// Extension type of an SRT handshake response.
pub const EXT_HSRSP: u16 = 2;

/// Extension type of a Stream ID.
pub const EXT_SID: u16 = 5;

/// Content length of an SRT handshake request or response.
pub const SRT_HS_LEN: usize = 12;

/// The most content an extension can hold: its length field counts up to
/// `0xFFFF` blocks, and a partial block is not counted.
pub const MAX_EXT_CONTENT: usize = 0x4_0000;

/// The advertised encryption. The wire value is the key length in bytes divided
/// by eight.
#[derive(Debug, Clone, Copy, PartialEq, Eq, Hash, Structural)]
pub enum EncryptionField {
    /// No encryption advertised (`0`).
    Unencrypted,
    /// AES-128 (`2`).
    Aes128,
    /// AES-192 (`3`).
    Aes192,
    /// AES-256 (`4`).
    Aes256,
}

impl EncryptionField {
    /// The wire value.
    pub open spec fn raw(self) -> u16 {
        match self {
            EncryptionField::Unencrypted => 0,
            EncryptionField::Aes128 => 2,
            EncryptionField::Aes192 => 3,
            EncryptionField::Aes256 => 4,
        }
    }

    /// The field with wire value `raw`.
    pub open spec fn of_raw(raw: u16) -> Result<EncryptionField, HandshakeError> {
        if raw == 0 {
            Ok(EncryptionField::Unencrypted)
        } else if raw == 2 {
            Ok(EncryptionField::Aes128)
        } else if raw == 3 {
            Ok(EncryptionField::Aes192)
        } else if raw == 4 {
            Ok(EncryptionField::Aes256)
        } else {
            Err(HandshakeError::InvalidEncryptionField(raw))
        }
    }

    pub(crate) fn to_raw(self) -> (r: u16)
        ensures
            r == self.raw(),
    {
        match self {
            EncryptionField::Unencrypted => 0,
            EncryptionField::Aes128 => 2,
            EncryptionField::Aes192 => 3,
            EncryptionField::Aes256 => 4,
        }
    }

    pub(crate) fn from_raw(raw: u16) -> (r: Result<Self, HandshakeError>)
        ensures
            r == Self::of_raw(raw),
    {
        match raw {
            0 => Ok(EncryptionField::Unencrypted),
            2 => Ok(EncryptionField::Aes128),
            3 => Ok(EncryptionField::Aes192),
            4 => Ok(EncryptionField::Aes256),
            other => Err(HandshakeError::InvalidEncryptionField(other)),
        }
    }
}

/// Why a peer refused a handshake.
#[derive(Debug, Clone, Copy, PartialEq, Eq, Hash, Structural)]
#[non_exhaustive]
pub enum RejectReason {
    /// No specific reason (code 0).
    Unknown,
    /// The peer is too old or too new (code 8).
    Version,
    /// The passphrases do not match (code 10).
    BadSecret,
    /// Exactly one side wants encryption (code 11).
    Unsecure,
    /// Any other code; applications use codes from 2000 on.
    Other(u32),
}

/// The largest code that a rejection can carry.
pub const MAX_REJECT_CODE: u32 = 0x7FFF_FC17;

impl RejectReason {
    /// The reason's code.
    pub open spec fn code(self) -> u32 {
        match self {
            RejectReason::Unknown => 0,
            RejectReason::Version => 8,
            RejectReason::BadSecret => 10,
            RejectReason::Unsecure => 11,
            RejectReason::Other(code) => if code > MAX_REJECT_CODE {
                MAX_REJECT_CODE
            } else {
                code
            },
        }
    }

    /// The reason with the given code.
    pub open spec fn of_code(code: u32) -> RejectReason {
        if code == 0 {
            RejectReason::Unknown
        } else if code == 8 {
            RejectReason::Version
        } else if code == 10 {
            RejectReason::BadSecret
        } else if code == 11 {
            RejectReason::Unsecure
        } else {
            RejectReason::Other(code)
        }
    }
}

/// The handshake type: one of the named phases, or a rejection. Unknown values
/// are kept as they are.
#[derive(Debug, Clone, Copy, PartialEq, Eq, Hash, Structural)]
pub struct HandshakeType(pub u32);

impl HandshakeType {
    /// Raw value of the rendezvous "wavehand".
    pub const WAVEHAND: u32 = 0x0000_0000;

    /// Raw value of the induction, the first phase.
    pub const INDUCTION: u32 = 0x0000_0001;

    /// Raw value of the conclusion, the second phase.
    pub const CONCLUSION: u32 = 0xFFFF_FFFF;

    /// Raw value of the rendezvous agreement.
    pub const AGREEMENT: u32 = 0xFFFF_FFFE;

    /// Raw value of the rendezvous end.
    pub const DONE: u32 = 0xFFFF_FFFD;

    /// The reason a type carries, if it is a rejection: the values from 1000 on
    /// that are not negative as signed integers.
    pub open spec fn reason(self) -> Option<RejectReason> {
        if 1000 <= self.0 < 0x8000_0000 {
            Some(RejectReason::of_code((self.0 - 1000) as u32))
        } else {
            None
        }
    }

    /// Wraps a raw value.
    #[must_use]
    pub fn from_raw(value: u32) -> (r: Self)
        ensures
            r.0 == value,
    {
        HandshakeType(value)
    }

    /// The raw value.
    #[must_use]
    pub fn to_raw(self) -> (r: u32)
        ensures
            r == self.0,
    {
        self.0
    }

    /// The type that refuses a handshake for `reason`: 1000 plus its code.
    #[must_use]
    pub fn rejection(reason: RejectReason) -> (r: Self)
        ensures
            r.0 == 1000 + reason.code(),
    {
        let code: u32 = match reason {
            RejectReason::Unknown => 0,
            RejectReason::Version => 8,
            RejectReason::BadSecret => 10,
            RejectReason::Unsecure => 11,
            RejectReason::Other(code) => if code > MAX_REJECT_CODE {
                MAX_REJECT_CODE
            } else {
                code
            },
        };
        HandshakeType(1000 + code)
    }

    /// The reason a rejection carries; `None` for the handshake phases.
    #[must_use]
    pub fn reject_reason(self) -> (r: Option<RejectReason>)
        ensures
            r == self.reason(),
    {
        if self.0 < 1000 || self.0 >= 0x8000_0000 {
            return None;
        }
        let code: u32 = self.0 - 1000;
        Some(
            match code {
                0 => RejectReason::Unknown,
                8 => RejectReason::Version,
                10 => RejectReason::BadSecret,
                11 => RejectReason::Unsecure,
                other => RejectReason::Other(other),
            },
        )
    }
}

/// A reason survives the trip through the handshake type, unless it is an
/// `Other` that names a code with a variant of its own or a code too large to
/// carry.
pub proof fn law_reject_reason_round_trips(reason: RejectReason, sent: HandshakeType)
    requires
        sent.0 == 1000 + reason.code(),
        reason matches RejectReason::Other(code) ==> code != 0 && code != 8 && code != 10 && code
            != 11 && code <= MAX_REJECT_CODE,
    ensures
        sent.reason() == Some(reason),
{
}

/// SRT capability flags. Unknown bits are kept.
#[derive(Debug, Clone, Copy, PartialEq, Eq, Hash, Structural)]
pub struct SrtFlags(pub u32);

impl SrtFlags {
    /// The sender supports timestamp-based delivery.
    pub const TSBPD_SND: u32 = 0x0000_0001;

    /// The receiver supports timestamp-based delivery.
    pub const TSBPD_RCV: u32 = 0x0000_0002;

    /// Encryption is in use.
    pub const CRYPT: u32 = 0x0000_0004;

    /// Too-late packet drop is enabled.
    pub const TLPKTDROP: u32 = 0x0000_0008;

    /// Periodic NAK reports are enabled.
    pub const PERIODIC_NAK: u32 = 0x0000_0010;

    /// The retransmission flag in data packets is meaningful.
    pub const REXMIT: u32 = 0x0000_0020;

    /// Stream mode rather than message mode.
    pub const STREAM: u32 = 0x0000_0040;

    /// A packet filter is configured.
    pub const PACKET_FILTER: u32 = 0x0000_0080;

    /// Wraps a raw flags word.
    #[must_use]
    pub fn from_bits(bits: u32) -> (r: Self)
        ensures
            r.0 == bits,
    {
        SrtFlags(bits)
    }

    /// The raw flags word.
    #[must_use]
    pub fn bits(self) -> (r: u32)
        ensures
            r == self.0,
    {
        self.0
    }

    /// Whether all bits of `flag` are set.
    #[must_use]
    pub fn contains(self, flag: u32) -> (r: bool)
        ensures
            r == (self.0 & flag == flag),
    {
        self.0 & flag == flag
    }
}

/// The content of an SRT handshake request or response.
#[derive(Debug, Clone, Copy, PartialEq, Eq, Hash)]
pub struct SrtHandshake {
    /// SRT version (`major * 0x10000 + minor * 0x100 + patch`).
    pub srt_version: u32,
    /// Capability flags.
    pub flags: SrtFlags,
    /// Receiver delivery delay, milliseconds.
    pub recv_tsbpd_delay: u16,
    /// Sender delivery delay, milliseconds.
    pub send_tsbpd_delay: u16,
}

impl SrtHandshake {
    /// The twelve bytes of the content.
    pub open spec fn bytes(self) -> Seq<u8> {
        wire::be32(self.srt_version) + wire::be32(self.flags.0) + wire::be16(self.recv_tsbpd_delay)
            + wire::be16(self.send_tsbpd_delay)
    }

    /// The content at the beginning of `s`.
    pub open spec fn of_bytes(s: Seq<u8>) -> SrtHandshake {
        SrtHandshake {
            srt_version: wire::read32(s, 0),
            flags: SrtFlags(wire::read32(s, 4)),
            recv_tsbpd_delay: wire::read16(s, 8),
            send_tsbpd_delay: wire::read16(s, 10),
        }
    }

    fn encode(&self, out: &mut BytesMut)
        ensures
            buffer::buf_seq(*final(out)) == buffer::buf_seq(*old(out)) + self.bytes(),
    {
        let ghost before = buffer::buf_seq(*out);
        wire::put_u32(out, self.srt_version);
        wire::put_u32(out, self.flags.bits());
        wire::put_u16(out, self.recv_tsbpd_delay);
        wire::put_u16(out, self.send_tsbpd_delay);
        assert(buffer::buf_seq(*out) =~= before + self.bytes());
    }

    fn decode(content: &[u8]) -> (r: Self)
        requires
            content@.len() == SRT_HS_LEN,
        ensures
            r == Self::of_bytes(content@),
    {
        SrtHandshake {
            srt_version: wire::get_u32(content, 0),
            flags: SrtFlags::from_bits(wire::get_u32(content, 4)),
            recv_tsbpd_delay: wire::get_u16(content, 8),
            send_tsbpd_delay: wire::get_u16(content, 10),
        }
    }
}

/// `s` with zeros behind it up to the next multiple of four.
pub open spec fn padded(s: Seq<u8>) -> Seq<u8> {
    Seq::new(((s.len() + 3) / 4 * 4) as nat, |i: int| if i < s.len() { s[i] } else { 0 })
}

/// The whole 4-byte blocks of `s`, each reversed.
pub open spec fn swapped(s: Seq<u8>) -> Seq<u8> {
    Seq::new((s.len() / 4 * 4) as nat, |i: int| s[i / 4 * 4 + 3 - i % 4])
}

/// `s` without the zeros at its end.
pub open spec fn trimmed(s: Seq<u8>) -> Seq<u8>
    decreases s.len(),
{
    if s.len() > 0 && s.last() == 0 {
        trimmed(s.drop_last())
    } else {
        s
    }
}

/// The extension content that carries a Stream ID.
pub open spec fn stream_id_bytes(id: Seq<char>) -> Seq<u8> {
    swapped(padded(utf8::encode_utf8(id)))
}

/// The Stream ID in an extension content.
pub open spec fn stream_id_of(content: Seq<u8>) -> Result<Seq<char>, HandshakeError> {
    let bytes = trimmed(swapped(content));
    if utf8::valid_utf8(bytes) {
        Ok(utf8::decode_utf8(bytes))
    } else {
        Err(HandshakeError::InvalidStreamId)
    }
}

/// `String::from_utf8`: the string whose UTF-8 encoding is `bytes`, or `None` if
/// `bytes` is not valid UTF-8.
#[verifier::external_body]
fn string_from_utf8(bytes: Vec<u8>) -> (r: Option<String>)
    ensures
        match r {
            Some(s) => utf8::valid_utf8(bytes@) && s@ == utf8::decode_utf8(bytes@),
            None => !utf8::valid_utf8(bytes@),
        },
{
    String::from_utf8(bytes).ok()
}

/// Appends the extension content that carries `stream_id`.
pub fn encode_stream_id(stream_id: &str, out: &mut BytesMut)
    ensures
        buffer::buf_seq(*final(out)) == buffer::buf_seq(*old(out)) + stream_id_bytes(stream_id@),
{
    let ghost before = buffer::buf_seq(*out);
    let bytes = stream_id.as_bytes();
    let len: usize = bytes.len();
    let ghost whole = stream_id_bytes(stream_id@);
    let mut i: usize = 0;
    while i < len
        invariant
            len == bytes@.len(),
            i % 4 == 0,
            i <= whole.len(),
            len <= whole.len() < len + 4,
            whole.len() % 4 == 0,
            whole == swapped(padded(bytes@)),
            whole == stream_id_bytes(stream_id@),
            before == buffer::buf_seq(*old(out)),
            buffer::buf_seq(*out) == before + whole.take(i as int),
        decreases whole.len() - i,
    {
        let b0: u8 = bytes[i];
        let b1: u8 = if len - i > 1 { bytes[i + 1] } else { 0 };
        let b2: u8 = if len - i > 2 { bytes[i + 2] } else { 0 };
        let b3: u8 = if len - i > 3 { bytes[i + 3] } else { 0 };
        let block: [u8; 4] = [b3, b2, b1, b0];
        buffer::put_slice(out, &block);
        assert(whole.take(i + 4) =~= whole.take(i as int) + block@) by {
            assert forall|k: int| i <= k < i + 4 implies whole[k] == block@[k - i] by {
                assert(k / 4 * 4 == i && k % 4 == k - i);
            }
        }
        if len - i <= 4 {
            assert(whole.take(i + 4) =~= whole);
            return;
        }
        i += 4;
    }
    assert(whole.take(i as int) =~= whole);
}

/// Decodes a Stream ID: reverses each block and trims the zero padding.
pub fn decode_stream_id(content: &[u8]) -> (r: Result<String, HandshakeError>)
    ensures
        match r {
            Ok(id) => stream_id_of(content@) == Ok::<Seq<char>, HandshakeError>(id@),
            Err(e) => stream_id_of(content@) == Err::<Seq<char>, HandshakeError>(e),
        },
{
    let mut bytes: Vec<u8> = Vec::new();
    let ghost whole = swapped(content@);
    let mut i: usize = 0;
    while content.len() - i >= 4
        invariant
            i % 4 == 0,
            i <= content@.len(),
            whole == swapped(content@),
            i <= whole.len(),
            bytes@ == whole.take(i as int),
        decreases content@.len() - i,
    {
        bytes.push(content[i + 3]);
        bytes.push(content[i + 2]);
        bytes.push(content[i + 1]);
        bytes.push(content[i]);
        assert(bytes@ =~= whole.take(i + 4)) by {
            assert forall|k: int| i <= k < i + 4 implies bytes@[k] == whole[k] by {
                assert(k / 4 * 4 == i && k % 4 == k - i);
            }
        }
        i += 4;
    }
    assert(bytes@ =~= whole);
    let mut end: usize = bytes.len();
    assert(bytes@.take(end as int) =~= bytes@);
    while end > 0 && bytes[end - 1] == 0
        invariant
            end <= bytes@.len(),
            trimmed(bytes@) == trimmed(bytes@.take(end as int)),
        decreases end,
    {
        assert(bytes@.take(end as int).drop_last() =~= bytes@.take(end - 1));
        end -= 1;
    }
    bytes.truncate(end);
    match string_from_utf8(bytes) {
        Some(id) => Ok(id),
        None => Err(HandshakeError::InvalidStreamId),
    }
}

/// A handshake extension.
#[derive(Debug, Clone, PartialEq, Eq)]
pub enum HandshakeExtension {
    /// SRT handshake request.
    HsReq(SrtHandshake),
    /// SRT handshake response.
    HsRsp(SrtHandshake),
    /// Stream ID.
    StreamId(String),
    /// Any other extension.
    Raw {
        /// The extension type.
        ext_type: u16,
        /// The content, a multiple of 4 bytes.
        content: Bytes,
    },
}

/// What a [`HandshakeExtension`] holds.
#[verifier::ext_equal]
pub enum ExtensionView {
    /// SRT handshake request.
    HsReq(SrtHandshake),
    /// SRT handshake response.
    HsRsp(SrtHandshake),
    /// Stream ID.
    StreamId(Seq<char>),
    /// Any other extension.
    Raw {
        /// The extension type.
        ext_type: u16,
        /// The content.
        content: Seq<u8>,
    },
}

impl View for HandshakeExtension {
    type V = ExtensionView;

    open spec fn view(&self) -> ExtensionView {
        match *self {
            HandshakeExtension::HsReq(hs) => ExtensionView::HsReq(hs),
            HandshakeExtension::HsRsp(hs) => ExtensionView::HsRsp(hs),
            HandshakeExtension::StreamId(id) => ExtensionView::StreamId(id@),
            HandshakeExtension::Raw { ext_type, content } => ExtensionView::Raw {
                ext_type,
                content: buffer::bytes_seq(content),
            },
        }
    }
}

impl ExtensionView {
    /// The extension type.
    pub open spec fn ext_type(self) -> u16 {
        match self {
            ExtensionView::HsReq(_) => EXT_HSREQ,
            ExtensionView::HsRsp(_) => EXT_HSRSP,
            ExtensionView::StreamId(_) => EXT_SID,
            ExtensionView::Raw { ext_type, .. } => ext_type,
        }
    }

    /// The content bytes.
    pub open spec fn content(self) -> Seq<u8> {
        match self {
            ExtensionView::HsReq(hs) => hs.bytes(),
            ExtensionView::HsRsp(hs) => hs.bytes(),
            ExtensionView::StreamId(id) => stream_id_bytes(id),
            ExtensionView::Raw { content, .. } => content,
        }
    }

    /// The content's length can be expressed in the length field.
    pub open spec fn encodable(self) -> bool {
        self.content().len() < MAX_EXT_CONTENT
    }

    /// The extension on the wire.
    pub open spec fn bytes(self) -> Seq<u8> {
        wire::be16(self.ext_type()) + wire::be16((self.content().len() / 4) as u16)
            + self.content()
    }

    /// The extension with the given type and content.
    pub open spec fn of_content(ext_type: u16, content: Seq<u8>) -> Result<
        ExtensionView,
        HandshakeError,
    > {
        if ext_type == EXT_HSREQ || ext_type == EXT_HSRSP {
            if content.len() != SRT_HS_LEN {
                Err(HandshakeError::ExtensionContent { ext_type, len: content.len() as usize })
            } else if ext_type == EXT_HSREQ {
                Ok(ExtensionView::HsReq(SrtHandshake::of_bytes(content)))
            } else {
                Ok(ExtensionView::HsRsp(SrtHandshake::of_bytes(content)))
            }
        } else if ext_type == EXT_SID {
            match stream_id_of(content) {
                Ok(id) => Ok(ExtensionView::StreamId(id)),
                Err(e) => Err(e),
            }
        } else {
            Ok(ExtensionView::Raw { ext_type, content })
        }
    }

    /// What comes back after encoding and decoding is the extension itself: raw
    /// content is whole blocks under a type that is not one of the typed ones,
    /// and a Stream ID does not end in a NUL.
    pub open spec fn canonical(self) -> bool {
        match self {
            ExtensionView::StreamId(id) => id.len() > 0 ==> id.last() != '\0',
            ExtensionView::Raw { ext_type, content } => {
                &&& content.len() % 4 == 0
                &&& ext_type != EXT_HSREQ
                &&& ext_type != EXT_HSRSP
                &&& ext_type != EXT_SID
            },
            _ => true,
        }
    }
}

/// Appends an extension header: the type, and the length in 4-byte words.
fn put_ext_header(out: &mut BytesMut, ext_type: u16, content_len: usize)
    requires
        content_len < MAX_EXT_CONTENT,
    ensures
        buffer::buf_seq(*final(out)) == buffer::buf_seq(*old(out)) + wire::be16(ext_type)
            + wire::be16((content_len / 4) as u16),
{
    wire::put_u16(out, ext_type);
    wire::put_u16(out, (content_len / 4) as u16);
}

impl HandshakeExtension {
    /// A copy.
    fn copy(&self) -> (r: Self)
        ensures
            r@ == self@,
    {
        match self {
            HandshakeExtension::HsReq(hs) => HandshakeExtension::HsReq(*hs),
            HandshakeExtension::HsRsp(hs) => HandshakeExtension::HsRsp(*hs),
            HandshakeExtension::StreamId(id) => HandshakeExtension::StreamId(id.clone()),
            HandshakeExtension::Raw { ext_type, content } => HandshakeExtension::Raw {
                ext_type: *ext_type,
                content: content.clone(),
            },
        }
    }

    fn encode(&self, out: &mut BytesMut)
        requires
            self@.encodable(),
        ensures
            buffer::buf_seq(*final(out)) == buffer::buf_seq(*old(out)) + self@.bytes(),
    {
        let ghost before = buffer::buf_seq(*out);
        match self {
            HandshakeExtension::HsReq(hs) => {
                put_ext_header(out, EXT_HSREQ, SRT_HS_LEN);
                hs.encode(out);
            },
            HandshakeExtension::HsRsp(hs) => {
                put_ext_header(out, EXT_HSRSP, SRT_HS_LEN);
                hs.encode(out);
            },
            HandshakeExtension::StreamId(id) => {
                let mut content = buffer::buf_new();
                encode_stream_id(id.as_str(), &mut content);
                let content = buffer::freeze(content);
                let bytes = buffer::as_slice(&content);
                assert(bytes@ =~= stream_id_bytes(id@));
                put_ext_header(out, EXT_SID, bytes.len());
                buffer::put_slice(out, bytes);
            },
            HandshakeExtension::Raw { ext_type, content } => {
                let bytes = buffer::as_slice(content);
                put_ext_header(out, *ext_type, bytes.len());
                buffer::put_slice(out, bytes);
            },
        }
        assert(buffer::buf_seq(*out) =~= before + self@.bytes());
    }

    fn decode(ext_type: u16, content: &[u8]) -> (r: Result<Self, HandshakeError>)
        ensures
            match r {
                Ok(ext) => ExtensionView::of_content(ext_type, content@) == Ok::<
                    ExtensionView,
                    HandshakeError,
                >(ext@),
                Err(e) => ExtensionView::of_content(ext_type, content@) == Err::<
                    ExtensionView,
                    HandshakeError,
                >(e),
            },
    {
        if ext_type == EXT_HSREQ || ext_type == EXT_HSRSP {
            if content.len() != SRT_HS_LEN {
                Err(HandshakeError::ExtensionContent { ext_type, len: content.len() })
            } else if ext_type == EXT_HSREQ {
                Ok(HandshakeExtension::HsReq(SrtHandshake::decode(content)))
            } else {
                Ok(HandshakeExtension::HsRsp(SrtHandshake::decode(content)))
            }
        } else if ext_type == EXT_SID {
            match decode_stream_id(content) {
                Ok(id) => Ok(HandshakeExtension::StreamId(id)),
                Err(e) => Err(e),
            }
        } else {
            Ok(HandshakeExtension::Raw { ext_type, content: buffer::copy_from_slice(content) })
        }
    }
}

/// A handshake control body.
#[derive(Debug, Clone, PartialEq, Eq)]
pub struct Handshake {
    /// Protocol version (4 during induction, 5 afterwards).
    pub version: u32,
    /// Advertised encryption.
    pub encryption: EncryptionField,
    /// The SRT magic during induction, extension flags during conclusion.
    pub extension_field: u16,
    /// Initial packet sequence number.
    pub initial_seq: SeqNumber,
    /// Maximum transmission unit, bytes.
    pub mtu: u32,
    /// Maximum flow window size, packets.
    pub max_flow_window: u32,
    /// Handshake phase, or a rejection.
    pub handshake_type: HandshakeType,
    /// The sender's socket id.
    pub srt_socket_id: SocketId,
    /// SYN cookie.
    pub syn_cookie: u32,
    /// Peer IP address (IPv4 occupies the first word).
    pub peer_ip: [u8; 16],
    /// Extensions, in order.
    pub extensions: Vec<HandshakeExtension>,
}

/// What a [`Handshake`] holds.
#[verifier::ext_equal]
pub struct HandshakeView {
    /// Protocol version.
    pub version: u32,
    /// Advertised encryption.
    pub encryption: EncryptionField,
    /// Magic or extension flags.
    pub extension_field: u16,
    /// Initial packet sequence number.
    pub initial_seq: u32,
    /// Maximum transmission unit.
    pub mtu: u32,
    /// Maximum flow window.
    pub max_flow_window: u32,
    /// Phase or rejection.
    pub handshake_type: HandshakeType,
    /// The sender's socket id.
    pub srt_socket_id: SocketId,
    /// SYN cookie.
    pub syn_cookie: u32,
    /// Peer IP address.
    pub peer_ip: Seq<u8>,
    /// Extensions, in order.
    pub extensions: Seq<ExtensionView>,
}

/// The views of a sequence of extensions.
pub open spec fn ext_views(exts: Seq<HandshakeExtension>) -> Seq<ExtensionView> {
    exts.map_values(|e: HandshakeExtension| e@)
}

impl View for Handshake {
    type V = HandshakeView;

    open spec fn view(&self) -> HandshakeView {
        HandshakeView {
            version: self.version,
            encryption: self.encryption,
            extension_field: self.extension_field,
            initial_seq: self.initial_seq@,
            mtu: self.mtu,
            max_flow_window: self.max_flow_window,
            handshake_type: self.handshake_type,
            srt_socket_id: self.srt_socket_id,
            syn_cookie: self.syn_cookie,
            peer_ip: self.peer_ip@,
            extensions: ext_views(self.extensions@),
        }
    }
}

/// The extensions on the wire, one after the other.
pub open spec fn ext_bytes(exts: Seq<ExtensionView>) -> Seq<u8> {
    wire::concat(exts.map_values(|e: ExtensionView| e.bytes()))
}

/// Reads extensions of `s` from `pos` on, behind those already read, until
/// fewer than four bytes are left.
pub open spec fn exts_from(s: Seq<u8>, pos: int, read: Seq<ExtensionView>) -> Result<
    Seq<ExtensionView>,
    HandshakeError,
>
    decreases s.len() - pos,
{
    if pos < 0 || pos + 4 > s.len() {
        Ok(read)
    } else {
        let ext_type = wire::read16(s, pos);
        let claimed = wire::read16(s, pos + 2) * 4;
        if pos + 4 + claimed > s.len() {
            Err(
                HandshakeError::ExtensionLength {
                    ext_type,
                    claimed: claimed as usize,
                    available: (s.len() - pos - 4) as usize,
                },
            )
        } else {
            match ExtensionView::of_content(ext_type, s.subrange(pos + 4, pos + 4 + claimed)) {
                Ok(ext) => exts_from(s, pos + 4 + claimed, read.push(ext)),
                Err(e) => Err(e),
            }
        }
    }
}

impl HandshakeView {
    /// Every extension fits its length field.
    pub open spec fn encodable(self) -> bool {
        forall|i: int|
            0 <= i < self.extensions.len() ==> (#[trigger] self.extensions[i]).encodable()
    }

    /// The fixed part on the wire.
    pub open spec fn base_bytes(self) -> Seq<u8> {
        wire::be32(self.version) + wire::be16(self.encryption.raw()) + wire::be16(
            self.extension_field,
        ) + wire::be32(self.initial_seq) + wire::be32(self.mtu) + wire::be32(self.max_flow_window)
            + wire::be32(self.handshake_type.0) + wire::be32(self.srt_socket_id.0) + wire::be32(
            self.syn_cookie,
        ) + self.peer_ip
    }

    /// The handshake on the wire.
    pub open spec fn bytes(self) -> Seq<u8> {
        self.base_bytes() + ext_bytes(self.extensions)
    }

    /// The handshake in `s`.
    pub open spec fn of_bytes(s: Seq<u8>) -> Result<HandshakeView, HandshakeError> {
        if s.len() < BASE_LEN {
            Err(HandshakeError::TooShort { need: BASE_LEN, got: s.len() as usize })
        } else {
            match EncryptionField::of_raw(wire::read16(s, 4)) {
                Err(e) => Err(e),
                Ok(encryption) => match exts_from(s, 48, Seq::empty()) {
                    Err(e) => Err(e),
                    Ok(extensions) => Ok(
                        HandshakeView {
                            version: wire::read32(s, 0),
                            encryption,
                            extension_field: wire::read16(s, 6),
                            initial_seq: (wire::read32(s, 8) % 0x8000_0000) as u32,
                            mtu: wire::read32(s, 12),
                            max_flow_window: wire::read32(s, 16),
                            handshake_type: HandshakeType(wire::read32(s, 20)),
                            srt_socket_id: SocketId(wire::read32(s, 24)),
                            syn_cookie: wire::read32(s, 28),
                            peer_ip: s.subrange(32, 48),
                            extensions,
                        },
                    ),
                },
            }
        }
    }

    /// The fields have the widths they have on the wire, and every extension
    /// comes back from its own encoding.
    pub open spec fn canonical(self) -> bool {
        &&& self.initial_seq < 0x8000_0000
        &&& self.peer_ip.len() == 16
        &&& forall|i: int|
            0 <= i < self.extensions.len() ==> (#[trigger] self.extensions[i]).canonical()
    }
}

impl Handshake {
    /// A copy.
    pub(crate) fn copy(&self) -> (r: Self)
        ensures
            r@ == self@,
    {
        let mut extensions: Vec<HandshakeExtension> = Vec::new();
        let mut i: usize = 0;
        while i < self.extensions.len()
            invariant
                i <= self.extensions@.len(),
                extensions@.len() == i,
                forall|k: int|
                    0 <= k < i ==> (#[trigger] extensions@[k])@ == self.extensions@[k]@,
            decreases self.extensions@.len() - i,
        {
            extensions.push(self.extensions[i].copy());
            i += 1;
        }
        assert(ext_views(extensions@) =~= ext_views(self.extensions@));
        Handshake {
            version: self.version,
            encryption: self.encryption,
            extension_field: self.extension_field,
            initial_seq: self.initial_seq,
            mtu: self.mtu,
            max_flow_window: self.max_flow_window,
            handshake_type: self.handshake_type,
            srt_socket_id: self.srt_socket_id,
            syn_cookie: self.syn_cookie,
            peer_ip: self.peer_ip,
            extensions,
        }
    }

    /// Appends the encoded handshake body to `out`.
    pub fn encode(&self, out: &mut BytesMut)
        requires
            self@.encodable(),
        ensures
            buffer::buf_seq(*final(out)) == buffer::buf_seq(*old(out)) + self@.bytes(),
    {
        let ghost before = buffer::buf_seq(*out);
        wire::put_u32(out, self.version);
        wire::put_u16(out, self.encryption.to_raw());
        wire::put_u16(out, self.extension_field);
        wire::put_u32(out, self.initial_seq.value());
        wire::put_u32(out, self.mtu);
        wire::put_u32(out, self.max_flow_window);
        wire::put_u32(out, self.handshake_type.to_raw());
        wire::put_u32(out, self.srt_socket_id.value());
        wire::put_u32(out, self.syn_cookie);
        buffer::put_slice(out, self.peer_ip.as_slice());
        let ghost base = buffer::buf_seq(*out);
        assert(base =~= before + self@.base_bytes());
        let ghost parts = self@.extensions.map_values(|e: ExtensionView| e.bytes());
        assert(parts.take(0) =~= Seq::<Seq<u8>>::empty());
        let mut i: usize = 0;
        while i < self.extensions.len()
            invariant
                self@.encodable(),
                i <= self.extensions@.len(),
                parts == self@.extensions.map_values(|e: ExtensionView| e.bytes()),
                buffer::buf_seq(*out) == base + wire::concat(parts.take(i as int)),
            decreases self.extensions@.len() - i,
        {
            assert(self@.extensions[i as int].encodable());
            assert(self@.extensions[i as int] == self.extensions@[i as int]@);
            self.extensions[i].encode(out);
            proof {
                wire::lemma_concat_part(parts, i as int);
                assert(parts[i as int] == self.extensions@[i as int]@.bytes());
                assert(buffer::buf_seq(*out) =~= base + (wire::concat(parts.take(i as int))
                    + parts[i as int]));
            }
            i += 1;
        }
        assert(parts.take(i as int) =~= parts);
        assert(buffer::buf_seq(*out) =~= before + self@.bytes());
    }

    /// Decodes a handshake body.
    pub fn decode(cif: &[u8]) -> (r: Result<Self, HandshakeError>)
        ensures
            match r {
                Ok(hs) => HandshakeView::of_bytes(cif@) == Ok::<HandshakeView, HandshakeError>(hs@),
                Err(e) => HandshakeView::of_bytes(cif@) == Err::<HandshakeView, HandshakeError>(e),
            },
    {
        if cif.len() < BASE_LEN {
            return Err(HandshakeError::TooShort { need: BASE_LEN, got: cif.len() });
        }
        let encryption = match EncryptionField::from_raw(wire::get_u16(cif, 4)) {
            Ok(encryption) => encryption,
            Err(e) => {
                return Err(e);
            },
        };
        let mut peer_ip: [u8; 16] = [0u8; 16];
        let mut k: usize = 0;
        while k < 16
            invariant
                k <= 16,
                cif@.len() >= 48,
                forall|j: int| 0 <= j < k ==> peer_ip@[j] == cif@[32 + j],
            decreases 16 - k,
        {
            peer_ip[k] = cif[32 + k];
            k += 1;
        }
        assert(peer_ip@ =~= cif@.subrange(32, 48));
        let mut extensions: Vec<HandshakeExtension> = Vec::new();
        assert(ext_views(extensions@) =~= Seq::<ExtensionView>::empty());
        let mut pos: usize = BASE_LEN;
        while cif.len() - pos >= 4
            invariant
                48 <= pos <= cif@.len(),
                EncryptionField::of_raw(wire::read16(cif@, 4)) == Ok::<
                    EncryptionField,
                    HandshakeError,
                >(encryption),
                exts_from(cif@, 48, Seq::empty()) == exts_from(
                    cif@,
                    pos as int,
                    ext_views(extensions@),
                ),
            decreases cif@.len() - pos,
        {
            let ext_type: u16 = wire::get_u16(cif, pos);
            let claimed: usize = wire::get_u16(cif, pos + 2) as usize * 4;
            let available: usize = cif.len() - pos - 4;
            if available < claimed {
                return Err(HandshakeError::ExtensionLength { ext_type, claimed, available });
            }
            let content = slice_subrange(cif, pos + 4, pos + 4 + claimed);
            let ghost read = ext_views(extensions@);
            match HandshakeExtension::decode(ext_type, content) {
                Ok(ext) => {
                    extensions.push(ext);
                    assert(ext_views(extensions@) =~= read.push(ext@));
                },
                Err(e) => {
                    return Err(e);
                },
            }
            pos = pos + 4 + claimed;
        }
        Ok(
            Handshake {
                version: wire::get_u32(cif, 0),
                encryption,
                extension_field: wire::get_u16(cif, 6),
                initial_seq: SeqNumber::new(wire::get_u32(cif, 8)),
                mtu: wire::get_u32(cif, 12),
                max_flow_window: wire::get_u32(cif, 16),
                handshake_type: HandshakeType::from_raw(wire::get_u32(cif, 20)),
                srt_socket_id: SocketId::new(wire::get_u32(cif, 24)),
                syn_cookie: wire::get_u32(cif, 28),
                peer_ip,
                extensions,
            },
        )
    }
}

/// Cutting zeros off the end makes nothing longer.
proof fn lemma_trimmed_len(s: Seq<u8>)
    ensures
        trimmed(s).len() <= s.len(),
    decreases s.len(),
{
    if s.len() > 0 && s.last() == 0 {
        lemma_trimmed_len(s.drop_last());
    }
}

proof fn lemma_decoded_extension_fits(ext_type: u16, content: Seq<u8>)
    requires
        content.len() % 4 == 0,
        content.len() < MAX_EXT_CONTENT,
    ensures
        ExtensionView::of_content(ext_type, content) matches Ok(ext) ==> ext.encodable(),
{
    if ext_type == EXT_HSREQ || ext_type == EXT_HSRSP {
    } else if ext_type == EXT_SID {
        let text = trimmed(swapped(content));
        lemma_trimmed_len(swapped(content));
        if utf8::valid_utf8(text) {
            utf8::decode_utf8_encode_utf8(text);
        }
    }
}

proof fn lemma_decoded_extensions_fit(s: Seq<u8>, pos: int, read: Seq<ExtensionView>)
    requires
        forall|i: int| 0 <= i < read.len() ==> (#[trigger] read[i]).encodable(),
    ensures
        exts_from(s, pos, read) matches Ok(exts) ==> forall|i: int|
            0 <= i < exts.len() ==> (#[trigger] exts[i]).encodable(),
    decreases s.len() - pos,
{
    if !(pos < 0 || pos + 4 > s.len()) {
        let ext_type = wire::read16(s, pos);
        let claimed = wire::read16(s, pos + 2) * 4;
        if pos + 4 + claimed <= s.len() {
            let content = s.subrange(pos + 4, pos + 4 + claimed);
            lemma_decoded_extension_fits(ext_type, content);
            match ExtensionView::of_content(ext_type, content) {
                Ok(ext) => {
                    lemma_decoded_extensions_fit(s, pos + 4 + claimed, read.push(ext));
                },
                Err(_) => {},
            }
        }
    }
}

/// A handshake that was decoded can be encoded.
pub proof fn law_decoded_handshake_is_encodable(s: Seq<u8>)
    ensures
        HandshakeView::of_bytes(s) matches Ok(hs) ==> hs.encodable(),
{
    lemma_decoded_extensions_fit(s, 48, Seq::empty());
}

/// The last byte of an encoded text is zero only if its last character is NUL.
proof fn lemma_utf8_last_byte(id: Seq<char>)
    requires
        id.len() > 0,
        id.last() != '\0',
    ensures
        utf8::encode_utf8(id).len() > 0,
        utf8::encode_utf8(id).last() != 0,
    decreases id.len(),
{
    let rest = id.drop_first();
    let c = id[0] as u32;
    let head = utf8::encode_scalar(c);
    if rest.len() == 0 {
        assert(utf8::encode_utf8(rest) =~= Seq::<u8>::empty());
        assert(utf8::encode_utf8(id) =~= head);
        utf8::char_is_scalar(id[0]);
        utf8::char_u32_cast(id[0], c);
        assert(c != 0);
        if utf8::has_width_1_encoding(c) {
            assert((c & 0x7F) as u8 != 0) by (bit_vector)
                requires
                    0 < c <= 0x7F,
            ;
        } else {
            assert(0x80 | (c & 0x3F) as u8 != 0) by (bit_vector);
        }
    } else {
        assert(rest.last() == id.last());
        lemma_utf8_last_byte(rest);
        assert(utf8::encode_utf8(id).last() == utf8::encode_utf8(rest).last());
    }
}

/// Trimming takes away the zeros behind a text that does not end in one.
proof fn lemma_trim_zeros(text: Seq<u8>, s: Seq<u8>)
    requires
        text.len() > 0 ==> text.last() != 0,
        text.len() <= s.len(),
        s.take(text.len() as int) == text,
        forall|i: int| text.len() <= i < s.len() ==> s[i] == 0,
    ensures
        trimmed(s) == text,
    decreases s.len(),
{
    if s.len() > text.len() {
        assert(s.drop_last().take(text.len() as int) =~= s.take(text.len() as int));
        lemma_trim_zeros(text, s.drop_last());
    } else {
        assert(s =~= text);
    }
}

/// A Stream ID that does not end in NUL survives encoding and decoding, and its
/// encoding is whole 4-byte blocks.
pub proof fn law_stream_id_round_trips(id: Seq<char>)
    requires
        id.len() > 0 ==> id.last() != '\0',
    ensures
        stream_id_of(stream_id_bytes(id)) == Ok::<Seq<char>, HandshakeError>(id),
        stream_id_bytes(id).len() % 4 == 0,
{
    let text = utf8::encode_utf8(id);
    let whole = padded(text);
    let sent = swapped(whole);
    assert(swapped(sent) =~= whole) by {
        assert forall|i: int| 0 <= i < whole.len() implies swapped(sent)[i] == whole[i] by {
            let j = i / 4 * 4 + 3 - i % 4;
            assert(0 <= j < sent.len() && j / 4 == i / 4 && j % 4 == 3 - i % 4);
        }
    }
    if id.len() > 0 {
        lemma_utf8_last_byte(id);
    }
    assert(whole.take(text.len() as int) =~= text);
    lemma_trim_zeros(text, whole);
    utf8::encode_utf8_valid_utf8(id);
    utf8::encode_utf8_decode_utf8(id);
}

/// An SRT handshake extension content survives encoding and decoding.
pub proof fn law_srt_handshake_round_trips(hs: SrtHandshake)
    ensures
        SrtHandshake::of_bytes(hs.bytes()) == hs,
        hs.bytes().len() == SRT_HS_LEN,
{
    let s = hs.bytes();
    assert(s.subrange(0, 4) =~= wire::be32(hs.srt_version));
    assert(s.subrange(4, 8) =~= wire::be32(hs.flags.0));
    assert(s.subrange(8, 10) =~= wire::be16(hs.recv_tsbpd_delay));
    assert(s.subrange(10, 12) =~= wire::be16(hs.send_tsbpd_delay));
    wire::lemma_read32_be32(s, 0, hs.srt_version);
    wire::lemma_read32_be32(s, 4, hs.flags.0);
    wire::lemma_read16_be16(s, 8, hs.recv_tsbpd_delay);
    wire::lemma_read16_be16(s, 10, hs.send_tsbpd_delay);
}

/// An extension is rebuilt from its type and content.
proof fn lemma_extension_round_trips(ext: ExtensionView)
    requires
        ext.canonical(),
    ensures
        ExtensionView::of_content(ext.ext_type(), ext.content()) == Ok::<
            ExtensionView,
            HandshakeError,
        >(ext),
        ext.content().len() % 4 == 0,
{
    match ext {
        ExtensionView::HsReq(hs) => law_srt_handshake_round_trips(hs),
        ExtensionView::HsRsp(hs) => law_srt_handshake_round_trips(hs),
        ExtensionView::StreamId(id) => law_stream_id_round_trips(id),
        ExtensionView::Raw { .. } => {},
    }
}

/// Behind the fixed part and the first `i` extensions comes extension `i`.
proof fn lemma_exts_step(base: Seq<u8>, exts: Seq<ExtensionView>, i: int)
    requires
        0 <= i < exts.len(),
        exts[i].canonical(),
        exts[i].encodable(),
    ensures
        exts_from(
            base + ext_bytes(exts),
            (base.len() + ext_bytes(exts.take(i)).len()) as int,
            exts.take(i),
        ) == exts_from(
            base + ext_bytes(exts),
            (base.len() + ext_bytes(exts.take(i + 1)).len()) as int,
            exts.take(i + 1),
        ),
{
    let enc = |e: ExtensionView| e.bytes();
    let parts = exts.map_values(enc);
    let tail = ext_bytes(exts);
    let s = base + tail;
    let ext = exts[i];
    wire::lemma_concat_part(parts, i);
    assert(parts.take(i) =~= exts.take(i).map_values(enc));
    assert(parts.take(i + 1) =~= exts.take(i + 1).map_values(enc));
    let from = ext_bytes(exts.take(i)).len() as int;
    let pos = base.len() + from;
    let part = ext.bytes();
    let content = ext.content();
    lemma_extension_round_trips(ext);
    assert(tail.subrange(from, from + part.len()) == part);
    assert(s.subrange(pos, pos + part.len()) =~= part);
    assert(s.subrange(pos, pos + 2) =~= part.subrange(0, 2));
    assert(part.subrange(0, 2) =~= wire::be16(ext.ext_type()));
    assert(s.subrange(pos + 2, pos + 4) =~= part.subrange(2, 4));
    assert(part.subrange(2, 4) =~= wire::be16((content.len() / 4) as u16));
    wire::lemma_read16_be16(s, pos, ext.ext_type());
    wire::lemma_read16_be16(s, pos + 2, (content.len() / 4) as u16);
    assert(s.subrange(pos + 4, pos + 4 + content.len()) =~= part.subrange(4, part.len() as int));
    assert(part.subrange(4, part.len() as int) =~= content);
    assert(exts.take(i + 1) =~= exts.take(i).push(ext));
}

proof fn lemma_exts_prefix(base: Seq<u8>, exts: Seq<ExtensionView>, i: int)
    requires
        0 <= i <= exts.len(),
        forall|k: int|
            0 <= k < exts.len() ==> (#[trigger] exts[k]).canonical() && exts[k].encodable(),
    ensures
        exts_from(base + ext_bytes(exts), base.len() as int, Seq::empty()) == exts_from(
            base + ext_bytes(exts),
            (base.len() + ext_bytes(exts.take(i)).len()) as int,
            exts.take(i),
        ),
    decreases i,
{
    if i == 0 {
        assert(exts.take(0) =~= Seq::<ExtensionView>::empty());
        assert(exts.take(0).map_values(|e: ExtensionView| e.bytes()) =~= Seq::<Seq<u8>>::empty());
    } else {
        lemma_exts_prefix(base, exts, i - 1);
        lemma_exts_step(base, exts, i - 1);
    }
}

/// Decoding an encoded handshake gives the handshake back.
#[verifier::spinoff_prover]
#[verifier::rlimit(60)]
pub proof fn law_handshake_round_trips(hs: HandshakeView)
    requires
        hs.encodable(),
        hs.canonical(),
    ensures
        HandshakeView::of_bytes(hs.bytes()) == Ok::<HandshakeView, HandshakeError>(hs),
{
    let s = hs.bytes();
    let base = hs.base_bytes();
    assert(base.len() == 48);
    assert(s.subrange(0, 4) =~= wire::be32(hs.version));
    assert(s.subrange(4, 6) =~= wire::be16(hs.encryption.raw()));
    assert(s.subrange(6, 8) =~= wire::be16(hs.extension_field));
    assert(s.subrange(8, 12) =~= wire::be32(hs.initial_seq));
    assert(s.subrange(12, 16) =~= wire::be32(hs.mtu));
    assert(s.subrange(16, 20) =~= wire::be32(hs.max_flow_window));
    assert(s.subrange(20, 24) =~= wire::be32(hs.handshake_type.0));
    assert(s.subrange(24, 28) =~= wire::be32(hs.srt_socket_id.0));
    assert(s.subrange(28, 32) =~= wire::be32(hs.syn_cookie));
    assert(s.subrange(32, 48) =~= hs.peer_ip);
    wire::lemma_read32_be32(s, 0, hs.version);
    wire::lemma_read16_be16(s, 4, hs.encryption.raw());
    wire::lemma_read16_be16(s, 6, hs.extension_field);
    wire::lemma_read32_be32(s, 8, hs.initial_seq);
    wire::lemma_read32_be32(s, 12, hs.mtu);
    wire::lemma_read32_be32(s, 16, hs.max_flow_window);
    wire::lemma_read32_be32(s, 20, hs.handshake_type.0);
    wire::lemma_read32_be32(s, 24, hs.srt_socket_id.0);
    wire::lemma_read32_be32(s, 28, hs.syn_cookie);
    let exts = hs.extensions;
    lemma_exts_prefix(base, exts, exts.len() as int);
    assert(exts.take(exts.len() as int) =~= exts);
}

} // verus!
