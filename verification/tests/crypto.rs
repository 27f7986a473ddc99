use bytes::Bytes;
use srt_protocol::crypto::kek::derive_kek;
use srt_protocol::crypto::key_material::{CipherMode, KeyFlags, KeyMaterial};
use srt_protocol::crypto::wrap::wrap_key;
use srt_protocol::crypto::{SessionCrypto, SessionKeys, UnwrappedKm};
use srt_protocol::error::CryptoError;
use srt_protocol::packet::Encryption;

/// A fixed AAD for the unit tests (CTR ignores it; GCM authenticates it, so
/// the same value must be used to encrypt and decrypt).
const AAD: &[u8] = b"test-header-aad!";

/// Deterministic test keys: fills the SEK/salt with a seeded ramp.
fn keys(seed: u8) -> SessionKeys {
    keys_mode(seed, CipherMode::Ctr)
}

fn keys_mode(seed: u8, mode: CipherMode) -> SessionKeys {
    let ramp = |from: u8| -> [u8; 16] { core::array::from_fn(|i| from.wrapping_add(i as u8)) };
    SessionKeys::generate(b"passphrase", mode, ramp(seed), &ramp(seed.wrapping_add(16))).0
}

#[test]
fn decrypt_by_flag_round_trips_the_active_key() {
    let crypto = SessionCrypto::even(keys(1));
    let (ciphertext, flag) = crypto.encrypt(5, AAD, b"hello world");
    assert_eq!(flag, Encryption::Even);
    let plaintext = crypto
        .decrypt(5, Encryption::Even, AAD, &ciphertext)
        .unwrap();
    assert_eq!(&plaintext[..], b"hello world");
}

#[test]
fn missing_key_slot_drops_instead_of_corrupting() {
    let crypto = SessionCrypto::even(keys(1)); // only the even slot is set
    // A packet flagged odd (the peer rotated, we have not installed the odd
    // key yet) must NOT be decrypted with the even key - drop it.
    assert!(
        crypto
            .decrypt(5, Encryption::Odd, AAD, b"\x00\x01\x02\x03")
            .is_none()
    );
    assert!(crypto.decrypt(5, Encryption::Unencrypted, AAD, b"x").is_none());
}

#[test]
fn install_then_activate_rotates_to_the_odd_key() {
    let mut crypto = SessionCrypto::even(keys(1));
    // Before install, an odd-flagged packet can't be decrypted (no odd key).
    assert!(crypto.decrypt(7, Encryption::Odd, AAD, b"xxxx").is_none());
    crypto.install(KeyFlags::Odd, keys(99));
    crypto.activate(KeyFlags::Odd);

    let (ciphertext, flag) = crypto.encrypt(7, AAD, b"after rotation");
    assert_eq!(flag, Encryption::Odd, "new packets use the odd slot");
    assert_eq!(
        &crypto
            .decrypt(7, Encryption::Odd, AAD, &ciphertext)
            .unwrap()[..],
        b"after rotation"
    );
    // The even key would produce garbage for an odd packet - never a silent match.
    let wrong = crypto
        .decrypt(7, Encryption::Even, AAD, &ciphertext)
        .unwrap();
    assert_ne!(&wrong[..], b"after rotation");
}

#[test]
fn a_rekey_material_unwraps_back_to_the_new_key() {
    let salt = keys(1).salt();
    let sek = [0x5Au8; 16];
    let (new_keys, km) =
        SessionKeys::from_raw(b"passphrase", KeyFlags::Odd, CipherMode::Ctr, salt, &sek);
    assert_eq!(km.key_flags, KeyFlags::Odd);
    // The peer recovers the same SEK from the announced material.
    let recovered = SessionKeys::from_key_material(&km, b"passphrase").unwrap();
    let ct = new_keys.encrypt(3, AAD, b"payload");
    assert_eq!(&recovered.decrypt(3, AAD, &ct).unwrap()[..], b"payload");
}

#[test]
fn gcm_round_trips_and_detects_tampering() {
    // GCM encrypt -> decrypt round-trips, and a flipped byte fails the tag.
    let crypto = SessionCrypto::even(keys_mode(7, CipherMode::Gcm));
    let (ciphertext, flag) = crypto.encrypt(5, AAD, b"authenticated payload");
    assert_eq!(flag, Encryption::Even);
    assert_eq!(
        ciphertext.len(),
        b"authenticated payload".len() + 16,
        "GCM appends a 16-byte tag"
    );
    assert_eq!(
        &crypto
            .decrypt(5, Encryption::Even, AAD, &ciphertext)
            .unwrap()[..],
        b"authenticated payload"
    );
    // Tamper one byte -> authentication fails -> dropped (None), not corrupted.
    let mut tampered = ciphertext.to_vec();
    tampered[0] ^= 0x01;
    assert!(
        crypto
            .decrypt(5, Encryption::Even, AAD, &tampered)
            .is_none()
    );
}

#[test]
fn the_wrong_passphrase_does_not_unwrap() {
    let (_, km) = SessionKeys::generate(b"passphrase", CipherMode::Gcm, [4; 16], &[8; 32]);
    assert_eq!(km.key_length, 32);
    assert_eq!(
        SessionKeys::from_key_material(&km, b"passphrasf").err(),
        Some(CryptoError::IntegrityCheckFailed)
    );
    assert!(SessionKeys::from_key_material(&km, b"passphrase").unwrap().is_aead());
}

#[test]
fn a_message_with_both_keys_fills_both_slots() {
    let salt = [3u8; 16];
    let both: Vec<u8> = (0..32).collect();
    let kek = derive_kek(b"passphrase", &salt, 16);
    let km = KeyMaterial {
        key_flags: KeyFlags::Both,
        cipher: CipherMode::Ctr,
        key_length: 16,
        salt,
        wrapped: Bytes::from(wrap_key(&kek, &both).unwrap()),
    };
    let slots = UnwrappedKm::from_key_material(&km, b"passphrase").unwrap();
    let crypto = SessionCrypto::from_slots(slots);
    assert_eq!(crypto.active_encryption(), Encryption::Even);
    assert_eq!(crypto.salt(), Some(salt));

    let raw = |flags: KeyFlags, sek: &[u8]| {
        SessionKeys::from_raw(b"passphrase", flags, CipherMode::Ctr, salt, sek).0
    };
    let even = raw(KeyFlags::Even, &both[..16]).encrypt(1, AAD, b"under the even key");
    let odd = raw(KeyFlags::Odd, &both[16..]).encrypt(2, AAD, b"under the odd key");
    assert_eq!(
        &crypto.decrypt(1, Encryption::Even, AAD, &even).unwrap()[..],
        b"under the even key"
    );
    assert_eq!(
        &crypto.decrypt(2, Encryption::Odd, AAD, &odd).unwrap()[..],
        b"under the odd key"
    );
}

#[test]
fn a_rotation_keeps_the_old_key_for_what_is_still_under_way() {
    let mut crypto = SessionCrypto::even(keys(1));
    let (before, _) = crypto.encrypt(10, AAD, b"sent before the switch");
    assert_eq!(crypto.next_flags(), KeyFlags::Odd);
    crypto.install_slots(UnwrappedKm::single(KeyFlags::Odd, keys(50)));
    assert_eq!(crypto.active_encryption(), Encryption::Even, "installing does not switch");
    crypto.activate(KeyFlags::Odd);
    assert_eq!(crypto.next_flags(), KeyFlags::Even);
    assert_eq!(
        &crypto.decrypt(10, Encryption::Even, AAD, &before).unwrap()[..],
        b"sent before the switch"
    );
}

#[test]
fn key_material_of_impossible_lengths_is_refused() {
    let salt = [3u8; 16];
    let kek = derive_kek(b"passphrase", &salt, 16);
    let wrapped = |n: usize| Bytes::from(wrap_key(&kek, &vec![9u8; n]).unwrap());
    let open = |key_flags: KeyFlags, key_length: u8, wrapped: Bytes| {
        let km = KeyMaterial {
            key_flags,
            cipher: CipherMode::Ctr,
            key_length,
            salt,
            wrapped,
        };
        SessionKeys::from_key_material(&km, b"passphrase").map(|keys| keys.encrypt(1, AAD, b"x"))
    };
    let refused = Err(CryptoError::IntegrityCheckFailed);
    assert_eq!(open(KeyFlags::Even, 16, Bytes::from_static(b"short")), refused);
    assert_eq!(open(KeyFlags::Even, 5, wrapped(16)), refused);
    assert_eq!(open(KeyFlags::Odd, 16, wrapped(8)), refused);
    assert_eq!(open(KeyFlags::Both, 16, wrapped(16)), refused);
    assert!(open(KeyFlags::Both, 16, wrapped(32)).is_ok());
    assert!(open(KeyFlags::Even, 16, wrapped(16)).is_ok());
    // What counts for a single key is that the cipher takes it.
    assert!(open(KeyFlags::Even, 16, wrapped(24)).is_ok());
}
