//! Connection configuration and the parameters a handshake agrees on.

use crate::crypto::key_material::CipherMode;
use crate::error::ConfigError;
use crate::handshake;
use crate::handshake::EncryptionField;
use crate::packet::SocketId;
use crate::seq::SeqNumber;
use crate::time::Duration;
use vstd::prelude::*;
use vstd::slice::slice_to_vec;

verus! {

/// Shortest useful latency, nanoseconds.
pub const MIN_LATENCY_NANOS: u64 = 20_000_000;

/// Smallest MTU: IP, UDP and SRT headers.
pub const MIN_MTU: u32 = 76;

/// Largest MTU.
pub const MAX_MTU: u32 = 1500;

/// Smallest flow window, packets.
pub const MIN_FLOW_WINDOW: u32 = 32;

/// Shortest passphrase, bytes.
pub const MIN_PASSPHRASE: usize = 10;

/// Longest passphrase, bytes.
pub const MAX_PASSPHRASE: usize = 79;

/// Shortest connect timeout, nanoseconds.
pub const MIN_CONNECT_TIMEOUT_NANOS: u64 = 100_000_000;

/// Shortest peer-idle timeout, nanoseconds.
pub const MIN_PEER_IDLE_NANOS: u64 = 1_000_000_000;

/// Per-connection configuration. Start from [`Config::default`] and refine it
/// with the `with_*` builders; [`Config::validate`] reports a value that a peer
/// would refuse.
#[derive(Debug, Clone)]
#[non_exhaustive]
pub struct Config {
    /// Delivery latency to advertise, on the wire in whole milliseconds. A
    /// connection uses the larger of the two advertised values.
    pub latency: Duration,
    /// Maximum transmission unit, bytes.
    pub mtu: u32,
    /// Flow window, packets.
    pub flow_window: u32,
    /// Stream ID to advertise when calling.
    pub stream_id: Option<String>,
    /// Encryption settings; `None` for an unencrypted connection.
    pub encryption: Option<EncryptionSettings>,
    /// Sending bandwidth limit in bytes per second; 0 sends without pacing.
    pub max_bw: u64,
    /// Packets to send under one key before rotating; 0 selects the default.
    pub km_refresh_rate: u32,
    /// Forward error correction; `None` disables it. Both peers have to agree on
    /// it out of band.
    pub fec: Option<FecConfig>,
    /// How long a caller retries the handshake.
    pub connect_timeout: Duration,
    /// How long an established connection tolerates silence from the peer.
    pub peer_idle_timeout: Duration,
    /// How long a closing connection waits for unacknowledged data.
    pub linger: Duration,
}

/// What a [`Config`] holds.
#[verifier::ext_equal]
pub struct ConfigView {
    /// Delivery latency, nanoseconds.
    pub latency: int,
    /// Maximum transmission unit.
    pub mtu: u32,
    /// Flow window.
    pub flow_window: u32,
    /// Stream ID.
    pub stream_id: Option<Seq<char>>,
    /// Encryption settings.
    pub encryption: Option<EncryptionView>,
    /// Bandwidth limit.
    pub max_bw: u64,
    /// Packets per key.
    pub km_refresh_rate: u32,
    /// Forward error correction.
    pub fec: Option<FecConfig>,
    /// Connect timeout, nanoseconds.
    pub connect_timeout: int,
    /// Peer-idle timeout, nanoseconds.
    pub peer_idle_timeout: int,
    /// Linger window, nanoseconds.
    pub linger: int,
}

impl View for Config {
    type V = ConfigView;

    open spec fn view(&self) -> ConfigView {
        ConfigView {
            latency: self.latency@,
            mtu: self.mtu,
            flow_window: self.flow_window,
            stream_id: match self.stream_id {
                Some(id) => Some(id@),
                None => None,
            },
            encryption: match self.encryption {
                Some(enc) => Some(enc@),
                None => None,
            },
            max_bw: self.max_bw,
            km_refresh_rate: self.km_refresh_rate,
            fec: self.fec,
            connect_timeout: self.connect_timeout@,
            peer_idle_timeout: self.peer_idle_timeout@,
            linger: self.linger@,
        }
    }
}

impl ConfigView {
    /// The values of [`Config::default`].
    pub open spec fn standard() -> ConfigView {
        ConfigView {
            latency: 120_000_000,
            mtu: 1500,
            flow_window: 25600,
            stream_id: None,
            encryption: None,
            max_bw: 0,
            km_refresh_rate: 0,
            fec: None,
            connect_timeout: 3_000_000_000,
            peer_idle_timeout: 5_000_000_000,
            linger: 3_000_000_000,
        }
    }

    /// The first limit that the configuration breaks.
    pub open spec fn check(self) -> Result<(), ConfigError> {
        if self.latency < MIN_LATENCY_NANOS {
            Err(ConfigError::LatencyTooLow { min_ms: 20 })
        } else if !(MIN_MTU <= self.mtu <= MAX_MTU) {
            Err(ConfigError::MtuOutOfRange { mtu: self.mtu })
        } else if self.flow_window < MIN_FLOW_WINDOW {
            Err(ConfigError::FlowWindowTooSmall { min: MIN_FLOW_WINDOW })
        } else if self.encryption is Some && !(MIN_PASSPHRASE
            <= self.encryption->0.passphrase.len() <= MAX_PASSPHRASE) {
            Err(
                ConfigError::PassphraseLength {
                    len: self.encryption->0.passphrase.len() as usize,
                },
            )
        } else if self.connect_timeout < MIN_CONNECT_TIMEOUT_NANOS {
            Err(ConfigError::ConnectTimeoutTooLow)
        } else if self.peer_idle_timeout < MIN_PEER_IDLE_NANOS {
            Err(ConfigError::PeerIdleTimeoutTooLow)
        } else {
            Ok(())
        }
    }

    /// The Stream ID, if any, fits a handshake extension.
    pub open spec fn encodable(self) -> bool {
        self.stream_id matches Some(id) ==> handshake::stream_id_bytes(id).len()
            < handshake::MAX_EXT_CONTENT
    }
}

impl Default for Config {
    fn default() -> (r: Self)
        ensures
            r@ == ConfigView::standard(),
    {
        Config {
            latency: Duration::from_millis(120),
            mtu: 1500,
            flow_window: 25600,
            stream_id: None,
            encryption: None,
            max_bw: 0,
            km_refresh_rate: 0,
            fec: None,
            connect_timeout: Duration::from_secs(3),
            peer_idle_timeout: Duration::from_secs(5),
            linger: Duration::from_secs(3),
        }
    }
}

impl Config {
    /// Replaces the advertised latency.
    #[must_use]
    pub fn with_latency(self, latency: Duration) -> (r: Self)
        ensures
            r@ == (ConfigView { latency: latency@, ..self@ }),
    {
        Config { latency, ..self }
    }

    /// Replaces the MTU.
    #[must_use]
    pub fn with_mtu(self, mtu: u32) -> (r: Self)
        ensures
            r@ == (ConfigView { mtu, ..self@ }),
    {
        Config { mtu, ..self }
    }

    /// Replaces the flow window.
    #[must_use]
    pub fn with_flow_window(self, packets: u32) -> (r: Self)
        ensures
            r@ == (ConfigView { flow_window: packets, ..self@ }),
    {
        Config { flow_window: packets, ..self }
    }

    /// Sets the Stream ID to advertise when calling.
    #[must_use]
    pub fn with_stream_id(self, stream_id: &str) -> (r: Self)
        ensures
            r@ == (ConfigView { stream_id: Some(stream_id@), ..self@ }),
    {
        Config { stream_id: Some(stream_id.to_owned()), ..self }
    }

    /// Enables AES-128-CTR encryption with `passphrase`.
    #[must_use]
    pub fn with_passphrase(self, passphrase: &[u8]) -> (r: Self)
        ensures
            r@ == (ConfigView {
                encryption: Some(
                    EncryptionView {
                        passphrase: passphrase@,
                        key_size: KeySize::Aes128,
                        cipher: CipherMode::Ctr,
                    },
                ),
                ..self@
            }),
    {
        Config {
            encryption: Some(
                EncryptionSettings {
                    passphrase: slice_to_vec(passphrase),
                    key_size: KeySize::Aes128,
                    cipher: CipherMode::Ctr,
                },
            ),
            ..self
        }
    }

    /// Sets the encryption settings.
    #[must_use]
    pub fn with_encryption(self, encryption: EncryptionSettings) -> (r: Self)
        ensures
            r@ == (ConfigView { encryption: Some(encryption@), ..self@ }),
    {
        Config { encryption: Some(encryption), ..self }
    }

    /// Sets the bandwidth limit in bytes per second.
    #[must_use]
    pub fn with_max_bw(self, bytes_per_second: u64) -> (r: Self)
        ensures
            r@ == (ConfigView { max_bw: bytes_per_second, ..self@ }),
    {
        Config { max_bw: bytes_per_second, ..self }
    }

    /// Sets the number of packets per key.
    #[must_use]
    pub fn with_km_refresh_rate(self, packets: u32) -> (r: Self)
        ensures
            r@ == (ConfigView { km_refresh_rate: packets, ..self@ }),
    {
        Config { km_refresh_rate: packets, ..self }
    }

    /// Enables forward error correction.
    #[must_use]
    pub fn with_fec(self, fec: FecConfig) -> (r: Self)
        ensures
            r@ == (ConfigView { fec: Some(fec), ..self@ }),
    {
        Config { fec: Some(fec), ..self }
    }

    /// Sets the connect timeout.
    #[must_use]
    pub fn with_connect_timeout(self, timeout: Duration) -> (r: Self)
        ensures
            r@ == (ConfigView { connect_timeout: timeout@, ..self@ }),
    {
        Config { connect_timeout: timeout, ..self }
    }

    /// Sets the peer-idle timeout.
    #[must_use]
    pub fn with_peer_idle_timeout(self, timeout: Duration) -> (r: Self)
        ensures
            r@ == (ConfigView { peer_idle_timeout: timeout@, ..self@ }),
    {
        Config { peer_idle_timeout: timeout, ..self }
    }

    /// Sets the linger window.
    #[must_use]
    pub fn with_linger(self, linger: Duration) -> (r: Self)
        ensures
            r@ == (ConfigView { linger: linger@, ..self@ }),
    {
        Config { linger, ..self }
    }

    /// Checks the limits that a peer or the protocol would enforce, and returns
    /// the first one that is broken.
    pub fn validate(&self) -> (r: Result<(), ConfigError>)
        ensures
            r == self@.check(),
    {
        if self.latency.shorter_than(Duration::from_nanos(MIN_LATENCY_NANOS)) {
            return Err(ConfigError::LatencyTooLow { min_ms: 20 });
        }
        if self.mtu < MIN_MTU || self.mtu > MAX_MTU {
            return Err(ConfigError::MtuOutOfRange { mtu: self.mtu });
        }
        if self.flow_window < MIN_FLOW_WINDOW {
            return Err(ConfigError::FlowWindowTooSmall { min: MIN_FLOW_WINDOW });
        }
        if let Some(enc) = &self.encryption {
            let len: usize = enc.passphrase.len();
            if len < MIN_PASSPHRASE || len > MAX_PASSPHRASE {
                return Err(ConfigError::PassphraseLength { len });
            }
        }
        if self.connect_timeout.shorter_than(Duration::from_nanos(MIN_CONNECT_TIMEOUT_NANOS)) {
            return Err(ConfigError::ConnectTimeoutTooLow);
        }
        if self.peer_idle_timeout.shorter_than(Duration::from_nanos(MIN_PEER_IDLE_NANOS)) {
            return Err(ConfigError::PeerIdleTimeoutTooLow);
        }
        Ok(())
    }

    /// A copy of the configuration.
    pub(crate) fn copy(&self) -> (r: Self)
        ensures
            r@ == self@,
    {
        Config {
            latency: self.latency,
            mtu: self.mtu,
            flow_window: self.flow_window,
            stream_id: match &self.stream_id {
                Some(id) => Some(id.clone()),
                None => None,
            },
            encryption: match &self.encryption {
                Some(enc) => Some(
                    EncryptionSettings {
                        passphrase: slice_to_vec(enc.passphrase.as_slice()),
                        key_size: enc.key_size,
                        cipher: enc.cipher,
                    },
                ),
                None => None,
            },
            max_bw: self.max_bw,
            km_refresh_rate: self.km_refresh_rate,
            fec: self.fec,
            connect_timeout: self.connect_timeout,
            peer_idle_timeout: self.peer_idle_timeout,
            linger: self.linger,
        }
    }
}

/// Forward error correction parameters: one parity packet per group of
/// `group_size` data packets.
#[derive(Debug, Clone, Copy, PartialEq, Eq)]
pub struct FecConfig {
    /// Data packets per group; values below 2 count as 2.
    pub group_size: usize,
}

/// AES key size.
#[derive(Debug, Clone, Copy, PartialEq, Eq, Structural)]
pub enum KeySize {
    /// AES-128.
    Aes128,
    /// AES-192.
    Aes192,
    /// AES-256.
    Aes256,
}

impl KeySize {
    /// The key length in bytes.
    pub open spec fn len(self) -> usize {
        match self {
            KeySize::Aes128 => 16,
            KeySize::Aes192 => 24,
            KeySize::Aes256 => 32,
        }
    }

    /// The matching handshake field.
    pub open spec fn field(self) -> EncryptionField {
        match self {
            KeySize::Aes128 => EncryptionField::Aes128,
            KeySize::Aes192 => EncryptionField::Aes192,
            KeySize::Aes256 => EncryptionField::Aes256,
        }
    }

    /// The key length in bytes.
    #[must_use]
    pub fn bytes(self) -> (r: usize)
        ensures
            r == self.len(),
    {
        match self {
            KeySize::Aes128 => 16,
            KeySize::Aes192 => 24,
            KeySize::Aes256 => 32,
        }
    }

    /// The matching handshake field.
    pub(crate) fn to_field(self) -> (r: EncryptionField)
        ensures
            r == self.field(),
    {
        match self {
            KeySize::Aes128 => EncryptionField::Aes128,
            KeySize::Aes192 => EncryptionField::Aes192,
            KeySize::Aes256 => EncryptionField::Aes256,
        }
    }
}

/// Encryption configuration. Both peers configure the same passphrase.
#[derive(Debug, Clone)]
pub struct EncryptionSettings {
    /// The shared passphrase.
    pub passphrase: Vec<u8>,
    /// The key size.
    pub key_size: KeySize,
    /// The payload cipher. The caller chooses; the acceptor adopts the choice.
    pub cipher: CipherMode,
}

/// What an [`EncryptionSettings`] holds.
#[verifier::ext_equal]
pub struct EncryptionView {
    /// The shared passphrase.
    pub passphrase: Seq<u8>,
    /// The key size.
    pub key_size: KeySize,
    /// The payload cipher.
    pub cipher: CipherMode,
}

impl View for EncryptionSettings {
    type V = EncryptionView;

    open spec fn view(&self) -> EncryptionView {
        EncryptionView {
            passphrase: self.passphrase@,
            key_size: self.key_size,
            cipher: self.cipher,
        }
    }
}

/// The parameters that a completed handshake agreed on.
#[derive(Debug, Clone, PartialEq, Eq)]
#[non_exhaustive]
pub struct Negotiated {
    /// The peer's socket id.
    pub peer_socket_id: SocketId,
    /// The peer's initial sequence number.
    pub peer_initial_seq: SeqNumber,
    /// The agreed latency, the larger of the two advertised ones.
    pub latency: Duration,
    /// The agreed encryption.
    pub encryption: EncryptionField,
}

/// What a [`Negotiated`] holds.
pub struct NegotiatedView {
    /// The peer's socket id.
    pub peer_socket_id: SocketId,
    /// The peer's initial sequence number.
    pub peer_initial_seq: u32,
    /// The agreed latency, nanoseconds.
    pub latency: int,
    /// The agreed encryption.
    pub encryption: EncryptionField,
}

impl View for Negotiated {
    type V = NegotiatedView;

    open spec fn view(&self) -> NegotiatedView {
        NegotiatedView {
            peer_socket_id: self.peer_socket_id,
            peer_initial_seq: self.peer_initial_seq@,
            latency: self.latency@,
            encryption: self.encryption,
        }
    }
}

/// A configuration is valid exactly within the limits of the protocol: a latency of 20 ms
/// or more, packets of 76 to 1500 bytes, a window of 32 packets or more, a passphrase of
/// 10 to 79 bytes if there is one, a connect timeout of 100 ms or more, and an idle
/// timeout of a second or more.
pub proof fn law_valid_configurations_are_within_the_limits(config: ConfigView)
    ensures
        config.check() is Ok <==> config.latency >= 20_000_000 && 76 <= config.mtu <= 1500
            && config.flow_window >= 32 && (config.encryption matches Some(enc) ==> 10
            <= enc.passphrase.len() <= 79) && config.connect_timeout >= 100_000_000
            && config.peer_idle_timeout >= 1_000_000_000,
{
}

} // verus!
