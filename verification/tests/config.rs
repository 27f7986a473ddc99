use srt_protocol::connection::{CipherMode, Config, KeySize};
use srt_protocol::error::ConfigError;
use srt_protocol::time::Duration;

#[test]
fn defaults_are_deployment_ready() {
    let c = Config::default();
    assert_eq!(c.latency, Duration::from_millis(120));
    assert_eq!(c.mtu, 1500);
    assert_eq!(c.flow_window, 25600);
    assert_eq!(c.max_bw, 0);
    assert_eq!(c.km_refresh_rate, 0);
    assert!(c.stream_id.is_none());
    assert!(c.encryption.is_none());
    assert!(c.fec.is_none());
    assert_eq!(c.connect_timeout, Duration::from_secs(3));
    assert_eq!(c.peer_idle_timeout, Duration::from_secs(5));
    assert_eq!(c.linger, Duration::from_secs(3));
    assert!(c.validate().is_ok(), "the default config validates");
}

#[test]
fn builders_chain_and_set() {
    let c = Config::default()
        .with_latency(Duration::from_millis(300))
        .with_mtu(1400)
        .with_flow_window(8192)
        .with_stream_id("live/cam1")
        .with_passphrase(b"0123456789abcdef")
        .with_max_bw(125_000_000)
        .with_connect_timeout(Duration::from_secs(1))
        .with_peer_idle_timeout(Duration::from_secs(10))
        .with_linger(Duration::from_secs(1));
    assert_eq!(c.latency, Duration::from_millis(300));
    assert_eq!(c.mtu, 1400);
    assert_eq!(c.flow_window, 8192);
    assert_eq!(c.stream_id.as_deref(), Some("live/cam1"));
    let enc = c.encryption.as_ref().expect("passphrase set");
    assert_eq!(enc.passphrase, b"0123456789abcdef");
    assert!(matches!(enc.key_size, KeySize::Aes128));
    assert!(matches!(enc.cipher, CipherMode::Ctr));
    assert_eq!(c.max_bw, 125_000_000);
    assert_eq!(c.connect_timeout, Duration::from_secs(1));
    assert_eq!(c.peer_idle_timeout, Duration::from_secs(10));
    assert_eq!(c.linger, Duration::from_secs(1));
    assert!(c.validate().is_ok());
}

#[test]
fn validation_enforces_srt_limits() {
    let bad = |c: Config| c.validate().expect_err("must be rejected");

    bad(Config::default().with_passphrase(b"short"));
    bad(Config::default().with_passphrase("x".repeat(80).as_bytes()));
    assert!(
        Config::default()
            .with_passphrase(b"0123456789")
            .validate()
            .is_ok(),
        "10 bytes is the minimum valid passphrase"
    );
    assert!(
        Config::default()
            .with_passphrase("x".repeat(79).as_bytes())
            .validate()
            .is_ok(),
        "79 bytes is the maximum valid passphrase"
    );

    bad(Config::default().with_latency(Duration::from_millis(5)));
    bad(Config::default().with_mtu(75));
    bad(Config::default().with_mtu(1501));
    bad(Config::default().with_flow_window(16));
    bad(Config::default().with_connect_timeout(Duration::from_millis(50)));
    bad(Config::default().with_peer_idle_timeout(Duration::from_millis(500)));
}

#[test]
fn each_broken_limit_has_its_error() {
    let err = |c: Config| c.validate().unwrap_err();
    assert_eq!(
        err(Config::default().with_latency(Duration::from_micros(19_999))),
        ConfigError::LatencyTooLow { min_ms: 20 }
    );
    assert!(Config::default().with_latency(Duration::from_millis(20)).validate().is_ok());
    assert_eq!(
        err(Config::default().with_mtu(75)),
        ConfigError::MtuOutOfRange { mtu: 75 }
    );
    assert!(Config::default().with_mtu(76).validate().is_ok());
    assert_eq!(
        err(Config::default().with_flow_window(31)),
        ConfigError::FlowWindowTooSmall { min: 32 }
    );
    assert_eq!(
        err(Config::default().with_passphrase(b"too short")),
        ConfigError::PassphraseLength { len: 9 }
    );
    assert_eq!(
        err(Config::default().with_connect_timeout(Duration::from_millis(99))),
        ConfigError::ConnectTimeoutTooLow
    );
    assert_eq!(
        err(Config::default().with_peer_idle_timeout(Duration::from_millis(999))),
        ConfigError::PeerIdleTimeoutTooLow
    );
    // The first broken limit is the one that is reported.
    assert_eq!(
        err(Config::default().with_mtu(0).with_flow_window(0)),
        ConfigError::MtuOutOfRange { mtu: 0 }
    );
}

#[test]
fn key_sizes_are_in_bytes() {
    assert_eq!(KeySize::Aes128.bytes(), 16);
    assert_eq!(KeySize::Aes192.bytes(), 24);
    assert_eq!(KeySize::Aes256.bytes(), 32);
}
