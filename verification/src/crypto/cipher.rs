//! Payload ciphers: AES in counter mode and AES-GCM.
//!
//! Both take their initial block from the connection's salt and the packet's
//! sequence number, so that a receiver can decrypt any packet on its own.

use crate::error::CryptoError;
use crate::wire;
use aes::{Aes128, Aes192, Aes256};
use aes_gcm::aead::consts::U12;
use aes_gcm::aead::{Aead, KeyInit, Payload};
use aes_gcm::{Aes128Gcm, Aes256Gcm, AesGcm, Nonce};
use ctr::cipher::{KeyIvInit, StreamCipher};
use ctr::Ctr128BE;
use vstd::prelude::*;

verus! {

/// Bytes that AES-GCM adds to a payload.
pub const GCM_TAG_LEN: usize = 16;

/// The most bytes of payload, and of additional data, that AES-GCM takes.
pub const GCM_MAX_LEN: u64 = 0x10_0000_0000;

/// An AES key is 16, 24 or 32 bytes long.
pub open spec fn valid_key_len(n: int) -> bool {
    n == 16 || n == 24 || n == 32
}

/// AES-GCM takes a payload and additional data of these lengths.
pub open spec fn fits_gcm(aad: Seq<u8>, msg: Seq<u8>) -> bool {
    msg.len() <= GCM_MAX_LEN && aad.len() <= GCM_MAX_LEN
}

/// AES in counter mode: `data` XORed with the keystream that `key` produces from
/// the initial counter block `iv`.
pub uninterp spec fn aes_ctr(key: Seq<u8>, iv: Seq<u8>, data: Seq<u8>) -> Seq<u8>;

/// AES-GCM encryption: ciphertext and tag.
pub uninterp spec fn aes_gcm_seal(
    key: Seq<u8>,
    nonce: Seq<u8>,
    aad: Seq<u8>,
    msg: Seq<u8>,
) -> Seq<u8>;

/// AES-GCM decryption: the payload, or `None` if the tag does not verify.
pub uninterp spec fn aes_gcm_open(
    key: Seq<u8>,
    nonce: Seq<u8>,
    aad: Seq<u8>,
    data: Seq<u8>,
) -> Option<Seq<u8>>;

/// `Ctr128BE::<Aes128>::apply_keystream`: the data encrypted with a 16-byte key.
/// The keystream depends on key and counter block alone, so the same call again
/// restores the data.
#[verifier::external_body]
fn ctr_aes128(key: &[u8], iv: &[u8], data: &[u8]) -> (r: Vec<u8>)
    requires
        key@.len() == 16,
        iv@.len() == 16,
    ensures
        r@ == aes_ctr(key@, iv@, data@),
        r@.len() == data@.len(),
        aes_ctr(key@, iv@, r@) == data@,
{
    let mut out = data.to_vec();
    Ctr128BE::<Aes128>::new_from_slices(key, iv).expect("lengths").apply_keystream(&mut out);
    out
}

/// `Ctr128BE::<Aes192>::apply_keystream`: the data encrypted with a 24-byte key.
/// The keystream depends on key and counter block alone, so the same call again
/// restores the data.
#[verifier::external_body]
fn ctr_aes192(key: &[u8], iv: &[u8], data: &[u8]) -> (r: Vec<u8>)
    requires
        key@.len() == 24,
        iv@.len() == 16,
    ensures
        r@ == aes_ctr(key@, iv@, data@),
        r@.len() == data@.len(),
        aes_ctr(key@, iv@, r@) == data@,
{
    let mut out = data.to_vec();
    Ctr128BE::<Aes192>::new_from_slices(key, iv).expect("lengths").apply_keystream(&mut out);
    out
}

/// `Ctr128BE::<Aes256>::apply_keystream`: the data encrypted with a 32-byte key.
/// The keystream depends on key and counter block alone, so the same call again
/// restores the data.
#[verifier::external_body]
fn ctr_aes256(key: &[u8], iv: &[u8], data: &[u8]) -> (r: Vec<u8>)
    requires
        key@.len() == 32,
        iv@.len() == 16,
    ensures
        r@ == aes_ctr(key@, iv@, data@),
        r@.len() == data@.len(),
        aes_ctr(key@, iv@, r@) == data@,
{
    let mut out = data.to_vec();
    Ctr128BE::<Aes256>::new_from_slices(key, iv).expect("lengths").apply_keystream(&mut out);
    out
}

/// `Aes128Gcm::encrypt`: ciphertext with the 16-byte tag behind it, which
/// `decrypt` turns back into the payload; `None` for a payload or additional data
/// over the limit.
#[verifier::external_body]
fn seal_aes128(key: &[u8], nonce: &[u8], aad: &[u8], msg: &[u8]) -> (r: Option<Vec<u8>>)
    requires
        key@.len() == 16,
        nonce@.len() == 12,
    ensures
        match r {
            Some(sealed) => {
                &&& fits_gcm(aad@, msg@)
                &&& sealed@ == aes_gcm_seal(key@, nonce@, aad@, msg@)
                &&& sealed@.len() == msg@.len() + GCM_TAG_LEN
                &&& aes_gcm_open(key@, nonce@, aad@, sealed@) == Some(msg@)
            },
            None => !fits_gcm(aad@, msg@),
        },
{
    let cipher = Aes128Gcm::new_from_slice(key).expect("key length");
    cipher.encrypt(Nonce::from_slice(nonce), Payload { msg, aad }).ok()
}

/// `AesGcm::<Aes192, U12>::encrypt`: ciphertext with the 16-byte tag behind it,
/// which `decrypt` turns back into the payload; `None` for a payload or
/// additional data over the limit.
#[verifier::external_body]
fn seal_aes192(key: &[u8], nonce: &[u8], aad: &[u8], msg: &[u8]) -> (r: Option<Vec<u8>>)
    requires
        key@.len() == 24,
        nonce@.len() == 12,
    ensures
        match r {
            Some(sealed) => {
                &&& fits_gcm(aad@, msg@)
                &&& sealed@ == aes_gcm_seal(key@, nonce@, aad@, msg@)
                &&& sealed@.len() == msg@.len() + GCM_TAG_LEN
                &&& aes_gcm_open(key@, nonce@, aad@, sealed@) == Some(msg@)
            },
            None => !fits_gcm(aad@, msg@),
        },
{
    let cipher = AesGcm::<Aes192, U12>::new_from_slice(key).expect("key length");
    cipher.encrypt(Nonce::from_slice(nonce), Payload { msg, aad }).ok()
}

/// `Aes256Gcm::encrypt`: ciphertext with the 16-byte tag behind it, which
/// `decrypt` turns back into the payload; `None` for a payload or additional data
/// over the limit.
#[verifier::external_body]
fn seal_aes256(key: &[u8], nonce: &[u8], aad: &[u8], msg: &[u8]) -> (r: Option<Vec<u8>>)
    requires
        key@.len() == 32,
        nonce@.len() == 12,
    ensures
        match r {
            Some(sealed) => {
                &&& fits_gcm(aad@, msg@)
                &&& sealed@ == aes_gcm_seal(key@, nonce@, aad@, msg@)
                &&& sealed@.len() == msg@.len() + GCM_TAG_LEN
                &&& aes_gcm_open(key@, nonce@, aad@, sealed@) == Some(msg@)
            },
            None => !fits_gcm(aad@, msg@),
        },
{
    let cipher = Aes256Gcm::new_from_slice(key).expect("key length");
    cipher.encrypt(Nonce::from_slice(nonce), Payload { msg, aad }).ok()
}

/// `Aes128Gcm::decrypt`: the payload without its 16-byte tag, or `None` if the
/// tag does not verify.
#[verifier::external_body]
fn open_aes128(key: &[u8], nonce: &[u8], aad: &[u8], data: &[u8]) -> (r: Option<Vec<u8>>)
    requires
        key@.len() == 16,
        nonce@.len() == 12,
    ensures
        match r {
            Some(msg) => aes_gcm_open(key@, nonce@, aad@, data@) == Some(msg@) && msg@.len()
                + GCM_TAG_LEN == data@.len(),
            None => aes_gcm_open(key@, nonce@, aad@, data@) is None,
        },
{
    let cipher = Aes128Gcm::new_from_slice(key).expect("key length");
    cipher.decrypt(Nonce::from_slice(nonce), Payload { msg: data, aad }).ok()
}

/// `AesGcm::<Aes192, U12>::decrypt`: the payload without its 16-byte tag, or
/// `None` if the tag does not verify.
#[verifier::external_body]
fn open_aes192(key: &[u8], nonce: &[u8], aad: &[u8], data: &[u8]) -> (r: Option<Vec<u8>>)
    requires
        key@.len() == 24,
        nonce@.len() == 12,
    ensures
        match r {
            Some(msg) => aes_gcm_open(key@, nonce@, aad@, data@) == Some(msg@) && msg@.len()
                + GCM_TAG_LEN == data@.len(),
            None => aes_gcm_open(key@, nonce@, aad@, data@) is None,
        },
{
    let cipher = AesGcm::<Aes192, U12>::new_from_slice(key).expect("key length");
    cipher.decrypt(Nonce::from_slice(nonce), Payload { msg: data, aad }).ok()
}

/// `Aes256Gcm::decrypt`: the payload without its 16-byte tag, or `None` if the
/// tag does not verify.
#[verifier::external_body]
fn open_aes256(key: &[u8], nonce: &[u8], aad: &[u8], data: &[u8]) -> (r: Option<Vec<u8>>)
    requires
        key@.len() == 32,
        nonce@.len() == 12,
    ensures
        match r {
            Some(msg) => aes_gcm_open(key@, nonce@, aad@, data@) == Some(msg@) && msg@.len()
                + GCM_TAG_LEN == data@.len(),
            None => aes_gcm_open(key@, nonce@, aad@, data@) is None,
        },
{
    let cipher = Aes256Gcm::new_from_slice(key).expect("key length");
    cipher.decrypt(Nonce::from_slice(nonce), Payload { msg: data, aad }).ok()
}

/// The AES-GCM nonce of a packet: the first twelve bytes of the salt, the last
/// four of them XORed with the sequence number.
pub open spec fn nonce_bytes(salt: Seq<u8>, seq: u32) -> Seq<u8> {
    Seq::new(
        12,
        |i: int|
            if i < 8 {
                salt[i]
            } else {
                salt[i] ^ wire::be32(seq)[i - 8]
            },
    )
}

/// The first counter block of a packet: the first fourteen bytes of the salt, the
/// last four of them XORed with the sequence number, and a block count of zero.
pub open spec fn counter_bytes(salt: Seq<u8>, seq: u32) -> Seq<u8> {
    Seq::new(
        16,
        |i: int|
            if i < 10 {
                salt[i]
            } else if i < 14 {
                salt[i] ^ wire::be32(seq)[i - 10]
            } else {
                0
            },
    )
}

/// The AES-GCM nonce of the packet `seq`.
pub fn gcm_nonce(salt: &[u8; 16], seq: u32) -> (r: [u8; 12])
    ensures
        r@ == nonce_bytes(salt@, seq),
{
    let n: [u8; 4] = wire::to_be32(seq);
    let r: [u8; 12] = [
        salt[0], salt[1], salt[2], salt[3], salt[4], salt[5], salt[6], salt[7],
        salt[8] ^ n[0], salt[9] ^ n[1], salt[10] ^ n[2], salt[11] ^ n[3],
    ];
    assert(r@ =~= nonce_bytes(salt@, seq));
    r
}

/// The first counter block of the packet `seq`.
pub fn counter_block(salt: &[u8; 16], seq: u32) -> (r: [u8; 16])
    ensures
        r@ == counter_bytes(salt@, seq),
{
    let n: [u8; 4] = wire::to_be32(seq);
    let r: [u8; 16] = [
        salt[0], salt[1], salt[2], salt[3], salt[4], salt[5], salt[6], salt[7], salt[8], salt[9],
        salt[10] ^ n[0], salt[11] ^ n[1], salt[12] ^ n[2], salt[13] ^ n[3], 0, 0,
    ];
    assert(r@ =~= counter_bytes(salt@, seq));
    r
}

/// Encrypts `plaintext` with AES-GCM and authenticates `aad` along with it. The
/// tag stands behind the ciphertext.
pub fn gcm_encrypt(sek: &[u8], salt: &[u8; 16], seq: u32, aad: &[u8], plaintext: &[u8]) -> (r:
    Result<Vec<u8>, CryptoError>)
    ensures
        !valid_key_len(sek@.len() as int) ==> r == Err::<Vec<u8>, CryptoError>(
            CryptoError::InvalidKeyLength(sek@.len() as usize),
        ),
        valid_key_len(sek@.len() as int) ==> match r {
            Ok(sealed) => {
                &&& fits_gcm(aad@, plaintext@)
                &&& sealed@ == aes_gcm_seal(sek@, nonce_bytes(salt@, seq), aad@, plaintext@)
                &&& sealed@.len() == plaintext@.len() + GCM_TAG_LEN
                &&& aes_gcm_open(sek@, nonce_bytes(salt@, seq), aad@, sealed@) == Some(plaintext@)
            },
            Err(e) => e == CryptoError::AuthFailed && !fits_gcm(aad@, plaintext@),
        },
{
    let nonce: [u8; 12] = gcm_nonce(salt, seq);
    let sealed = match sek.len() {
        16 => seal_aes128(sek, nonce.as_slice(), aad, plaintext),
        24 => seal_aes192(sek, nonce.as_slice(), aad, plaintext),
        32 => seal_aes256(sek, nonce.as_slice(), aad, plaintext),
        n => {
            return Err(CryptoError::InvalidKeyLength(n));
        },
    };
    match sealed {
        Some(sealed) => Ok(sealed),
        None => Err(CryptoError::AuthFailed),
    }
}

/// Decrypts what [`gcm_encrypt`] made, or fails if the tag does not verify.
pub fn gcm_decrypt(sek: &[u8], salt: &[u8; 16], seq: u32, aad: &[u8], data: &[u8]) -> (r: Result<
    Vec<u8>,
    CryptoError,
>)
    ensures
        !valid_key_len(sek@.len() as int) ==> r == Err::<Vec<u8>, CryptoError>(
            CryptoError::InvalidKeyLength(sek@.len() as usize),
        ),
        valid_key_len(sek@.len() as int) ==> match r {
            Ok(msg) => aes_gcm_open(sek@, nonce_bytes(salt@, seq), aad@, data@) == Some(msg@)
                && msg@.len() + GCM_TAG_LEN == data@.len(),
            Err(e) => e == CryptoError::AuthFailed && aes_gcm_open(
                sek@,
                nonce_bytes(salt@, seq),
                aad@,
                data@,
            ) is None,
        },
{
    let nonce: [u8; 12] = gcm_nonce(salt, seq);
    let opened = match sek.len() {
        16 => open_aes128(sek, nonce.as_slice(), aad, data),
        24 => open_aes192(sek, nonce.as_slice(), aad, data),
        32 => open_aes256(sek, nonce.as_slice(), aad, data),
        n => {
            return Err(CryptoError::InvalidKeyLength(n));
        },
    };
    match opened {
        Some(msg) => Ok(msg),
        None => Err(CryptoError::AuthFailed),
    }
}

/// Encrypts or decrypts `data` in place with AES in counter mode. The same call
/// again restores the data.
pub fn apply_ctr(sek: &[u8], salt: &[u8; 16], seq: u32, data: &mut Vec<u8>) -> (r: Result<
    (),
    CryptoError,
>)
    ensures
        match r {
            Ok(_) => {
                &&& valid_key_len(sek@.len() as int)
                &&& final(data)@ == aes_ctr(sek@, counter_bytes(salt@, seq), old(data)@)
                &&& final(data)@.len() == old(data)@.len()
                &&& aes_ctr(sek@, counter_bytes(salt@, seq), final(data)@) == old(data)@
            },
            Err(e) => {
                &&& !valid_key_len(sek@.len() as int)
                &&& e == CryptoError::InvalidKeyLength(sek@.len() as usize)
                &&& final(data)@ == old(data)@
            },
        },
{
    let iv: [u8; 16] = counter_block(salt, seq);
    let done = match sek.len() {
        16 => ctr_aes128(sek, iv.as_slice(), data.as_slice()),
        24 => ctr_aes192(sek, iv.as_slice(), data.as_slice()),
        32 => ctr_aes256(sek, iv.as_slice(), data.as_slice()),
        n => {
            return Err(CryptoError::InvalidKeyLength(n));
        },
    };
    *data = done;
    Ok(())
}

proof fn lemma_xor_cancels(a: u8, x: u8, y: u8)
    by (bit_vector)
    requires
        a ^ x == a ^ y,
    ensures
        x == y,
{
}

/// No two packets under one key share their starting point: different numbers have
/// different counter blocks, and different nonces.
pub proof fn law_every_packet_has_its_own_keystream(salt: Seq<u8>, m: u32, n: u32)
    requires
        salt.len() == 16,
        m != n,
    ensures
        counter_bytes(salt, m) != counter_bytes(salt, n),
        nonce_bytes(salt, m) != nonce_bytes(salt, n),
{
    let x = wire::be32(m);
    let y = wire::be32(n);
    if counter_bytes(salt, m) == counter_bytes(salt, n) {
        assert forall|i: int| 0 <= i < 4 implies x[i] == y[i] by {
            assert(counter_bytes(salt, m)[i + 10] == counter_bytes(salt, n)[i + 10]);
            lemma_xor_cancels(salt[i + 10], x[i], y[i]);
        }
        lemma_same_bytes_same_number(m, n);
    }
    if nonce_bytes(salt, m) == nonce_bytes(salt, n) {
        assert forall|i: int| 0 <= i < 4 implies x[i] == y[i] by {
            assert(nonce_bytes(salt, m)[i + 8] == nonce_bytes(salt, n)[i + 8]);
            lemma_xor_cancels(salt[i + 8], x[i], y[i]);
        }
        lemma_same_bytes_same_number(m, n);
    }
}

proof fn lemma_same_bytes_same_number(m: u32, n: u32)
    requires
        forall|i: int| 0 <= i < 4 ==> (#[trigger] wire::be32(m)[i]) == wire::be32(n)[i],
    ensures
        m == n,
{
    assert(wire::be32(m)[0] == wire::be32(n)[0]);
    assert(wire::be32(m)[1] == wire::be32(n)[1]);
    assert(wire::be32(m)[2] == wire::be32(n)[2]);
    assert(wire::be32(m)[3] == wire::be32(n)[3]);
    assert(m == m / 0x100_0000 * 0x100_0000 + m / 0x1_0000 % 256 * 0x1_0000 + m / 256 % 256 * 256
        + m % 256);
    assert(n == n / 0x100_0000 * 0x100_0000 + n / 0x1_0000 % 256 * 0x1_0000 + n / 256 % 256 * 256
        + n % 256);
}

} // verus!
