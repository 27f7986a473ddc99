use srt_protocol::crypto::wrap::{unwrap_key, wrap_key, WRAP_OVERHEAD};
use srt_protocol::error::CryptoError;

#[test]
fn matches_rfc3394_128bit_vector() {
    let kek: [u8; 16] = [
        0x00, 0x01, 0x02, 0x03, 0x04, 0x05, 0x06, 0x07, 0x08, 0x09, 0x0A, 0x0B, 0x0C, 0x0D,
        0x0E, 0x0F,
    ];
    let key_data: [u8; 16] = [
        0x00, 0x11, 0x22, 0x33, 0x44, 0x55, 0x66, 0x77, 0x88, 0x99, 0xAA, 0xBB, 0xCC, 0xDD,
        0xEE, 0xFF,
    ];
    let expected: [u8; 24] = [
        0x1F, 0xA6, 0x8B, 0x0A, 0x81, 0x12, 0xB4, 0x47, 0xAE, 0xF3, 0x4B, 0xD8, 0xFB, 0x5A,
        0x7B, 0x82, 0x9D, 0x3E, 0x86, 0x23, 0x71, 0xD2, 0xCF, 0xE5,
    ];
    assert_eq!(wrap_key(&kek, &key_data).unwrap(), expected);
    assert_eq!(unwrap_key(&kek, &expected).unwrap(), key_data);
}

#[test]
fn round_trips_each_key_size() {
    for klen in [16usize, 24, 32] {
        let kek = vec![0x42u8; klen];
        let sek = vec![0x37u8; klen];
        let wrapped = wrap_key(&kek, &sek).unwrap();
        assert_eq!(wrapped.len(), klen + WRAP_OVERHEAD);
        assert_eq!(unwrap_key(&kek, &wrapped).unwrap(), sek);
    }
}

#[test]
fn wrong_kek_fails_the_integrity_check() {
    let sek = [0x37u8; 16];
    let wrapped = wrap_key(&[0x42u8; 16], &sek).unwrap();
    let mut wrong_kek = [0x42u8; 16];
    wrong_kek[0] ^= 0x01;
    assert_eq!(
        unwrap_key(&wrong_kek, &wrapped),
        Err(CryptoError::IntegrityCheckFailed)
    );
}

#[test]
fn tampered_wrap_fails_the_integrity_check() {
    let wrapped = wrap_key(&[0x42u8; 16], &[0x37u8; 16]).unwrap();
    let mut tampered = wrapped.clone();
    tampered[10] ^= 0x80;
    assert_eq!(
        unwrap_key(&[0x42u8; 16], &tampered),
        Err(CryptoError::IntegrityCheckFailed)
    );
}

#[test]
fn longer_wrapping_keys_give_these_values() {
    let kek: Vec<u8> = (0..32).collect();
    let key: [u8; 16] = core::array::from_fn(|i| i as u8 * 0x11);
    assert_eq!(
        wrap_key(&kek[..24], &key).unwrap(),
        [
            0x96, 0x77, 0x8B, 0x25, 0xAE, 0x6C, 0xA4, 0x35, 0xF9, 0x2B, 0x5B, 0x97, 0xC0, 0x50,
            0xAE, 0xD2, 0x46, 0x8A, 0xB8, 0xA1, 0x7A, 0xD8, 0x4E, 0x5D
        ]
    );
    assert_eq!(
        wrap_key(&kek, &key).unwrap(),
        [
            0x64, 0xE8, 0xC3, 0xF9, 0xCE, 0x0F, 0x5B, 0xA2, 0x63, 0xE9, 0x77, 0x79, 0x05, 0x81,
            0x8A, 0x2A, 0x93, 0xC8, 0x19, 0x1E, 0x7D, 0x6E, 0x8A, 0xE7
        ]
    );
}

#[test]
fn impossible_lengths_are_refused() {
    assert_eq!(wrap_key(&[0; 20], &[0; 16]), Err(CryptoError::InvalidKeyLength(20)));
    assert_eq!(wrap_key(&[0; 16], &[0; 17]), Err(CryptoError::InvalidKeyLength(16)));
    assert_eq!(unwrap_key(&[0; 20], &[0; 24]), Err(CryptoError::IntegrityCheckFailed));
    assert_eq!(unwrap_key(&[0; 16], &[0; 7]), Err(CryptoError::IntegrityCheckFailed));
    assert_eq!(unwrap_key(&[0; 16], &[0; 25]), Err(CryptoError::IntegrityCheckFailed));
}
