use aes::Aes128;
use ctr::cipher::{KeyIvInit, StreamCipher};
use ctr::Ctr128BE;
use srt_protocol::crypto::cipher::{
    apply_ctr, counter_block, gcm_decrypt, gcm_encrypt, gcm_nonce,
};
use srt_protocol::error::CryptoError;

#[test]
fn nist_aes128_ctr_vector() {
    let key: [u8; 16] = [
        0x2b, 0x7e, 0x15, 0x16, 0x28, 0xae, 0xd2, 0xa6, 0xab, 0xf7, 0x15, 0x88, 0x09, 0xcf,
        0x4f, 0x3c,
    ];
    let iv: [u8; 16] = [
        0xf0, 0xf1, 0xf2, 0xf3, 0xf4, 0xf5, 0xf6, 0xf7, 0xf8, 0xf9, 0xfa, 0xfb, 0xfc, 0xfd,
        0xfe, 0xff,
    ];
    let mut block: [u8; 16] = [
        0x6b, 0xc1, 0xbe, 0xe2, 0x2e, 0x40, 0x9f, 0x96, 0xe9, 0x3d, 0x7e, 0x11, 0x73, 0x93,
        0x17, 0x2a,
    ];
    let expected: [u8; 16] = [
        0x87, 0x4d, 0x61, 0x91, 0xb6, 0x20, 0xe3, 0x26, 0x1b, 0xef, 0x68, 0x64, 0x99, 0x0d,
        0xb6, 0xce,
    ];
    let mut cipher = Ctr128BE::<Aes128>::new_from_slices(&key, &iv).unwrap();
    cipher.apply_keystream(&mut block);
    assert_eq!(block, expected);
}

#[test]
fn counter_block_layout() {
    let salt: [u8; 16] = core::array::from_fn(|i| u8::try_from(i + 1).unwrap()); // 1..=16
    let ctr = counter_block(&salt, 0x1234_5678);
    let mut expected = salt;
    // Sequence number XORed into bytes 10..14 (big-endian); the rest is salt
    // except the final two block-counter bytes, which are zeroed.
    expected[10] ^= 0x12;
    expected[11] ^= 0x34;
    expected[12] ^= 0x56;
    expected[13] ^= 0x78;
    expected[14] = 0;
    expected[15] = 0;
    assert_eq!(ctr, expected);
}

#[test]
fn encrypt_then_decrypt_round_trips_each_key_size() {
    let salt = [0xA5u8; 16];
    for klen in [16usize, 24, 32] {
        let sek = vec![0x3Cu8; klen];
        let plain = b"the quick brown fox jumps".to_vec();
        let mut buf = plain.clone();
        apply_ctr(&sek, &salt, 42, &mut buf).unwrap();
        assert_ne!(buf, plain, "payload is actually encrypted");
        apply_ctr(&sek, &salt, 42, &mut buf).unwrap();
        assert_eq!(buf, plain, "CTR is its own inverse");
    }
}

#[test]
fn different_sequence_numbers_produce_different_ciphertext() {
    let sek = [0x11u8; 16];
    let salt = [0x22u8; 16];
    let plain = [0u8; 32];
    let mut a = plain.to_vec();
    let mut b = plain.to_vec();
    apply_ctr(&sek, &salt, 1, &mut a).unwrap();
    apply_ctr(&sek, &salt, 2, &mut b).unwrap();
    assert_ne!(a, b, "the counter changes with the sequence number");
}

#[test]
fn cipher_rejects_an_invalid_key_length() {
    assert_eq!(
        apply_ctr(&[0u8; 20], &[0u8; 16], 0, &mut vec![0u8; 8]),
        Err(CryptoError::InvalidKeyLength(20))
    );
}

#[test]
fn counter_mode_gives_these_values_for_each_key_size() {
    // A zero key, salt and sequence number: the keystream is the encrypted zero
    // block.
    for (klen, expected) in [
        (16usize, [0x66u8, 0xe9, 0x4b, 0xd4, 0xef, 0x8a, 0x2c, 0x3b]),
        (24, [0xaa, 0xe0, 0x69, 0x92, 0xac, 0xbf, 0x52, 0xa3]),
        (32, [0xdc, 0x95, 0xc0, 0x78, 0xa2, 0x40, 0x89, 0x89]),
    ] {
        let mut data = vec![0u8; 8];
        apply_ctr(&vec![0u8; klen], &[0; 16], 0, &mut data).unwrap();
        assert_eq!(data, expected);
    }
}

#[test]
fn authenticated_mode_gives_these_values_for_each_key_size() {
    // A zero key, nonce and block, no additional data.
    for (klen, ciphertext, tag) in [
        (
            16usize,
            [0x03u8, 0x88, 0xda, 0xce, 0x60, 0xb6, 0xa3, 0x92],
            [0xabu8, 0x6e, 0x47, 0xd4, 0x2c, 0xec, 0x13, 0xbd],
        ),
        (
            24,
            [0x98, 0xe7, 0x24, 0x7c, 0x07, 0xf0, 0xfe, 0x41],
            [0x2f, 0xf5, 0x8d, 0x80, 0x03, 0x39, 0x27, 0xab],
        ),
        (
            32,
            [0xce, 0xa7, 0x40, 0x3d, 0x4d, 0x60, 0x6b, 0x6e],
            [0xd0, 0xd1, 0xc8, 0xa7, 0x99, 0x99, 0x6b, 0xf0],
        ),
    ] {
        let key = vec![0u8; klen];
        let sealed = gcm_encrypt(&key, &[0; 16], 0, &[], &[0; 16]).unwrap();
        assert_eq!(sealed.len(), 32);
        assert_eq!(sealed[..8], ciphertext);
        assert_eq!(sealed[16..24], tag);
        assert_eq!(gcm_decrypt(&key, &[0; 16], 0, &[], &sealed).unwrap(), [0; 16]);
    }
}

#[test]
fn a_payload_that_does_not_authenticate_is_an_error() {
    let key = [7u8; 24];
    let salt = [9u8; 16];
    let sealed = gcm_encrypt(&key, &salt, 5, b"header", b"payload").unwrap();
    assert_eq!(gcm_decrypt(&key, &salt, 5, b"header", &sealed).unwrap(), b"payload");
    assert_eq!(
        gcm_decrypt(&key, &salt, 6, b"header", &sealed),
        Err(CryptoError::AuthFailed)
    );
    assert_eq!(
        gcm_decrypt(&key, &salt, 5, b"leader", &sealed),
        Err(CryptoError::AuthFailed)
    );
    assert_eq!(
        gcm_decrypt(&key, &salt, 5, b"header", &sealed[..10]),
        Err(CryptoError::AuthFailed)
    );
    assert_eq!(
        gcm_encrypt(&key[..20], &salt, 5, b"header", b"payload"),
        Err(CryptoError::InvalidKeyLength(20))
    );
    assert_eq!(
        gcm_decrypt(&key[..20], &salt, 5, b"header", &sealed),
        Err(CryptoError::InvalidKeyLength(20))
    );
}

#[test]
fn the_nonce_binds_the_sequence_number() {
    let salt: [u8; 16] = core::array::from_fn(|i| i as u8);
    assert_eq!(
        gcm_nonce(&salt, 0x1122_3344),
        [0, 1, 2, 3, 4, 5, 6, 7, 8 ^ 0x11, 9 ^ 0x22, 10 ^ 0x33, 11 ^ 0x44]
    );
}
