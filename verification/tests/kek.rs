use sha1::Sha1;
use srt_protocol::crypto::kek::derive_kek;

#[test]
fn pbkdf2_primitive_matches_rfc6070() {
    let mut out = [0u8; 20];
    pbkdf2::pbkdf2_hmac::<Sha1>(b"password", b"salt", 1, &mut out);
    assert_eq!(
        out,
        [
            0x0c, 0x60, 0xc8, 0x0f, 0x96, 0x1f, 0x0e, 0x71, 0xf3, 0xa9, 0xb5, 0x24, 0xaf, 0x60,
            0x12, 0x06, 0x2f, 0xe0, 0x37, 0xa6
        ]
    );
}

#[test]
fn produces_the_requested_key_length() {
    let salt = [0x11u8; 16];
    for klen in [16usize, 24, 32] {
        assert_eq!(derive_kek(b"secret", &salt, klen).len(), klen);
    }
}

#[test]
fn is_deterministic() {
    let salt = [0x22u8; 16];
    assert_eq!(
        derive_kek(b"secret", &salt, 16),
        derive_kek(b"secret", &salt, 16)
    );
}

#[test]
fn depends_only_on_the_low_64_bits_of_salt() {
    let mut salt_a = [0u8; 16];
    let mut salt_b = [0u8; 16];
    // Differ only in the high 8 bytes (salt[0..8]) - the KDF ignores them.
    salt_a[0..8].copy_from_slice(&[1, 2, 3, 4, 5, 6, 7, 8]);
    salt_b[0..8].copy_from_slice(&[9, 9, 9, 9, 9, 9, 9, 9]);
    assert_eq!(
        derive_kek(b"pass", &salt_a, 16),
        derive_kek(b"pass", &salt_b, 16),
        "high salt bytes must not affect the KEK"
    );
    // Differ in the low 8 bytes (salt[8..16]) - the KDF uses them.
    salt_b = salt_a;
    salt_b[8] ^= 0xFF;
    assert_ne!(
        derive_kek(b"pass", &salt_a, 16),
        derive_kek(b"pass", &salt_b, 16),
        "low salt bytes must change the KEK"
    );
}

#[test]
fn different_passphrases_yield_different_keks() {
    let salt = [0x33u8; 16];
    assert_ne!(
        derive_kek(b"alice", &salt, 16),
        derive_kek(b"bob", &salt, 16)
    );
}

#[test]
fn a_key_encryption_key_has_this_value() {
    let salt: [u8; 16] = core::array::from_fn(|i| i as u8);
    let kek = derive_kek(b"passphrase", &salt, 32);
    assert_eq!(
        kek,
        [
            0xe0, 0xba, 0xa2, 0x9b, 0x92, 0x55, 0x68, 0x4d, 0xee, 0x5e, 0x05, 0x01, 0x95, 0xfd,
            0xcd, 0x19, 0x4b, 0x24, 0xf5, 0x5f, 0x34, 0x9b, 0x13, 0x21, 0x77, 0x68, 0x8a, 0xd7,
            0xfe, 0xb2, 0xee, 0x86
        ]
    );
    assert_eq!(derive_kek(b"passphrase", &salt, 16), kek[..16]);
}
