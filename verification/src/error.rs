//! The error types, layered by abstraction: the loss-list, handshake and
//! control codecs have their own enums, the packet codec wraps them, and the
//! connection layer sits above the packet layer.

use crate::handshake::RejectReason;
use vstd::prelude::*;

verus! {

/// Failure of a connection.
#[derive(Debug, Clone, PartialEq, Eq)]
#[non_exhaustive]
pub enum ConnectionError {
    /// The handshake did not complete in time.
    HandshakeTimeout,
    /// An established connection heard nothing from the peer for too long.
    Timeout,
    /// The peer refused the handshake.
    Rejected(RejectReason),
    /// The operation is not allowed in the connection's current state.
    InvalidState,
    /// A received packet could not be decoded.
    Decode(PacketError),
    /// Encryption setup failed.
    Crypto(CryptoError),
}

/// Failure while decoding a NAK loss list.
#[derive(Debug, Clone, PartialEq, Eq)]
#[non_exhaustive]
pub enum LossListError {
    /// The loss list is not a whole number of 32-bit words.
    Misaligned(usize),
    /// A range-start word was the last word, with no end word.
    TruncatedRange,
}

/// Failure while decoding a handshake control body.
#[derive(Debug, Clone, PartialEq, Eq)]
#[non_exhaustive]
pub enum HandshakeError {
    /// The control information field is shorter than the fixed header.
    TooShort {
        /// Minimum number of bytes required.
        need: usize,
        /// Number of bytes actually present.
        got: usize,
    },
    /// The encryption field held an undefined value.
    InvalidEncryptionField(u16),
    /// An extension declared a length that runs past the buffer.
    ExtensionLength {
        /// The extension type whose length was wrong.
        ext_type: u16,
        /// The content length the extension claimed, in bytes.
        claimed: usize,
        /// The number of bytes actually available.
        available: usize,
    },
    /// An extension's content was the wrong size for its type.
    ExtensionContent {
        /// The extension type.
        ext_type: u16,
        /// The content length that was present.
        len: usize,
    },
    /// The Stream ID extension did not contain valid UTF-8.
    InvalidStreamId,
}

/// Failure while decoding a control packet body.
#[derive(Debug, Clone, PartialEq, Eq)]
#[non_exhaustive]
pub enum ControlError {
    /// The control type field matched no known control packet.
    UnknownType(u16),
    /// A control packet's information field was not the size its type requires.
    InvalidCifLength {
        /// Human-readable name of the control packet type.
        kind: &'static str,
        /// The length that was actually present.
        len: usize,
    },
    /// The loss list of a NAK was malformed.
    LossList(LossListError),
    /// The handshake body was malformed.
    Handshake(HandshakeError),
}

/// Failure while decoding a packet from raw bytes.
#[derive(Debug, Clone, PartialEq, Eq)]
#[non_exhaustive]
pub enum PacketError {
    /// The buffer is smaller than the common header.
    TooShort {
        /// Minimum number of bytes required.
        need: usize,
        /// Number of bytes actually present.
        got: usize,
    },
    /// A data packet carried the key flag `0b11`, which only a Key Material
    /// message may use.
    InvalidKeyFlag(u8),
    /// The control packet body could not be decoded.
    Control(ControlError),
}

/// Failure in the encryption layer: Key Material decoding, key derivation, key
/// unwrapping or payload authentication.
#[derive(Debug, Clone, PartialEq, Eq)]
#[non_exhaustive]
pub enum CryptoError {
    /// A Key Material message was shorter than required.
    TooShort {
        /// Minimum number of bytes required.
        need: usize,
        /// Number of bytes actually present.
        got: usize,
    },
    /// The Key Material version field was not 1.
    UnsupportedVersion(u8),
    /// The Key Material packet type was not 2.
    InvalidPacketType(u8),
    /// The Key Material signature was not `0x2029`.
    InvalidSignature(u16),
    /// The key flags were invalid.
    InvalidKeyFlags(u8),
    /// The cipher field named an unsupported cipher.
    UnsupportedCipher(u8),
    /// The salt was not 16 bytes long.
    InvalidSaltLength(usize),
    /// The key was not 16, 24 or 32 bytes long.
    InvalidKeyLength(usize),
    /// Key unwrapping failed its integrity check: the passphrase is wrong.
    IntegrityCheckFailed,
    /// The authentication tag of a payload did not verify.
    AuthFailed,
    /// An encrypted connection was required but the peer sent no Key Material.
    MissingKeyMaterial,
    /// The peer sent Key Material but this side is configured without
    /// encryption.
    UnexpectedKeyMaterial,
}

/// An invalid configuration value.
#[derive(Debug, Clone, PartialEq, Eq)]
#[non_exhaustive]
pub enum ConfigError {
    /// Latency below the useful floor.
    LatencyTooLow {
        /// The enforced floor in milliseconds.
        min_ms: u64,
    },
    /// MTU outside the range SRT can carry over UDP/IP.
    MtuOutOfRange {
        /// The rejected value.
        mtu: u32,
    },
    /// Flow window too small to sustain a connection.
    FlowWindowTooSmall {
        /// The enforced floor in packets.
        min: u32,
    },
    /// Passphrase outside the accepted length range.
    PassphraseLength {
        /// The rejected length in bytes.
        len: usize,
    },
    /// Connect timeout too short for one handshake round trip.
    ConnectTimeoutTooLow,
    /// Peer-idle timeout shorter than the keepalive period.
    PeerIdleTimeoutTooLow,
}

} // verus!
