use bytes::{Bytes, BytesMut};
use srt_protocol::crypto::key_material::{
    CipherMode, KeyFlags, KeyMaterial, ICV_LEN, SALT_LEN, SIGN,
};
use srt_protocol::error::CryptoError;

const CIPHER_AES_CTR: u8 = 2;
const SE_MPEGTS_SRT: u8 = 2;
const SALT_WORDS: u8 = 4;

fn sample(key_flags: KeyFlags, key_length: u8) -> KeyMaterial {
    sample_cipher(key_flags, CipherMode::Ctr, key_length)
}

fn sample_cipher(key_flags: KeyFlags, cipher: CipherMode, key_length: u8) -> KeyMaterial {
    let n = key_flags.key_count();
    let wrapped_len = n * usize::from(key_length) + ICV_LEN;
    KeyMaterial {
        key_flags,
        cipher,
        key_length,
        salt: [0xAB; SALT_LEN],
        wrapped: Bytes::from(vec![0xCD; wrapped_len]),
    }
}

#[test]
fn round_trips_a_gcm_key() {
    round_trip(&sample_cipher(KeyFlags::Even, CipherMode::Gcm, 16));
}

fn round_trip(km: &KeyMaterial) {
    let mut buf = BytesMut::new();
    km.encode(&mut buf);
    assert_eq!(buf.len() % 4, 0, "KM message is word-aligned");
    assert_eq!(&KeyMaterial::decode(&buf).unwrap(), km);
}

#[test]
fn round_trips_one_even_key() {
    round_trip(&sample(KeyFlags::Even, 16));
}

#[test]
fn round_trips_both_keys_aes256() {
    round_trip(&sample(KeyFlags::Both, 32));
}

#[test]
fn encodes_the_fixed_header_fields() {
    let mut buf = BytesMut::new();
    sample(KeyFlags::Odd, 24).encode(&mut buf);
    assert_eq!(buf[0], 0x12, "S=0, V=1, PT=2");
    assert_eq!(u16::from_be_bytes([buf[1], buf[2]]), SIGN);
    assert_eq!(buf[3] & 0b11, 0b10, "KK = odd");
    assert_eq!(buf[8], CIPHER_AES_CTR);
    assert_eq!(buf[10], SE_MPEGTS_SRT);
    assert_eq!(buf[14], SALT_WORDS, "SLen/4");
    assert_eq!(buf[15], 24 / 4, "KLen/4");
}

#[test]
fn rejects_a_bad_signature() {
    let mut buf = BytesMut::new();
    sample(KeyFlags::Even, 16).encode(&mut buf);
    buf[1] = 0xFF;
    assert_eq!(
        KeyMaterial::decode(&buf),
        Err(CryptoError::InvalidSignature(0xFF29))
    );
}

#[test]
fn key_material_rejects_an_invalid_key_length() {
    let mut buf = BytesMut::new();
    sample(KeyFlags::Even, 16).encode(&mut buf);
    buf[15] = 5; // 5*4 = 20, not a valid AES key length
    assert_eq!(
        KeyMaterial::decode(&buf),
        Err(CryptoError::InvalidKeyLength(20))
    );
}

#[test]
fn rejects_zero_key_flags() {
    let mut buf = BytesMut::new();
    sample(KeyFlags::Even, 16).encode(&mut buf);
    buf[3] = 0; // KK = 00 (no key)
    assert_eq!(
        KeyMaterial::decode(&buf),
        Err(CryptoError::InvalidKeyFlags(0))
    );
}

/// An encoded message with one byte replaced, decoded.
fn decode_with(at: usize, value: u8) -> Result<KeyMaterial, CryptoError> {
    let mut buf = BytesMut::new();
    sample(KeyFlags::Even, 16).encode(&mut buf);
    buf[at] = value;
    KeyMaterial::decode(&buf)
}

#[test]
fn each_malformed_field_has_its_error() {
    assert_eq!(decode_with(0, 0x22), Err(CryptoError::UnsupportedVersion(2)));
    assert_eq!(decode_with(0, 0x13), Err(CryptoError::InvalidPacketType(3)));
    assert_eq!(decode_with(2, 0x2A), Err(CryptoError::InvalidSignature(0x202A)));
    assert_eq!(decode_with(8, 1), Err(CryptoError::UnsupportedCipher(1)));
    assert_eq!(decode_with(14, 3), Err(CryptoError::InvalidSaltLength(12)));
    assert!(decode_with(4, 0xEE).is_ok(), "reserved bytes are ignored");
}

#[test]
fn a_truncated_message_is_too_short() {
    let mut buf = BytesMut::new();
    sample(KeyFlags::Both, 16).encode(&mut buf);
    assert_eq!(buf.len(), 16 + 16 + 40);
    assert_eq!(
        KeyMaterial::decode(&buf[..15]),
        Err(CryptoError::TooShort { need: 16, got: 15 })
    );
    assert_eq!(
        KeyMaterial::decode(&buf[..71]),
        Err(CryptoError::TooShort { need: 72, got: 71 })
    );
}

#[test]
fn bytes_behind_the_wrapped_keys_are_ignored() {
    let km = sample(KeyFlags::Odd, 24);
    let mut buf = BytesMut::new();
    km.encode(&mut buf);
    buf.extend_from_slice(&[1, 2, 3, 4]);
    assert_eq!(KeyMaterial::decode(&buf).unwrap(), km);
}
