//! The key that wraps the stream key: derived from the shared passphrase.

use sha1::Sha1;
use vstd::prelude::*;

verus! {

/// Rounds of the key derivation.
pub const ITERATIONS: u32 = 2048;

/// PBKDF2 with HMAC-SHA1.
pub uninterp spec fn pbkdf2_sha1(
    password: Seq<u8>,
    salt: Seq<u8>,
    rounds: u32,
    len: nat,
) -> Seq<u8>;

/// `pbkdf2::pbkdf2_hmac::<Sha1>`: a key of `len` bytes, a function of password,
/// salt and round count.
#[verifier::external_body]
fn pbkdf2_hmac_sha1(password: &[u8], salt: &[u8], rounds: u32, len: usize) -> (r: Vec<u8>)
    requires
        len <= 0xFFFF_FFFF,
    ensures
        r@ == pbkdf2_sha1(password@, salt@, rounds, len as nat),
        r@.len() == len,
{
    let mut key = vec![0u8; len];
    pbkdf2::pbkdf2_hmac::<Sha1>(password, salt, rounds, &mut key);
    key
}

/// The wrapping key for a passphrase and a salt, of which the last eight bytes
/// count.
pub open spec fn kek_of(passphrase: Seq<u8>, salt: Seq<u8>, key_length: nat) -> Seq<u8> {
    pbkdf2_sha1(passphrase, salt.subrange(8, 16), ITERATIONS, key_length)
}

/// Derives the wrapping key of `key_length` bytes.
pub fn derive_kek(passphrase: &[u8], salt: &[u8; 16], key_length: usize) -> (r: Vec<u8>)
    requires
        key_length <= 0xFFFF_FFFF,
    ensures
        r@ == kek_of(passphrase@, salt@, key_length as nat),
        r@.len() == key_length,
{
    let low: [u8; 8] = [
        salt[8], salt[9], salt[10], salt[11], salt[12], salt[13], salt[14], salt[15],
    ];
    assert(low@ =~= salt@.subrange(8, 16));
    pbkdf2_hmac_sha1(passphrase, low.as_slice(), ITERATIONS, key_length)
}

/// The wrapping key comes from the passphrase and the last eight bytes of the salt, in 2048
/// rounds.
pub proof fn law_wrapping_key_comes_from_half_the_salt(
    passphrase: Seq<u8>,
    salt: Seq<u8>,
    key_length: nat,
)
    requires
        salt.len() == 16,
    ensures
        kek_of(passphrase, salt, key_length) == pbkdf2_sha1(
            passphrase,
            salt.skip(8),
            2048,
            key_length,
        ),
{
    assert(salt.subrange(8, 16) =~= salt.skip(8));
}

} // verus!
