//! AES key wrap, which protects the stream key in a Key Material message.
//!
//! The wrapped key carries a check value of eight bytes: unwrapping with another
//! key than the wrapping one fails instead of yielding garbage.

use crate::error::CryptoError;
use aes::{Aes128, Aes192, Aes256};
use aes_kw::Kek;
use vstd::prelude::*;

verus! {

/// Bytes that wrapping adds to a key.
pub const WRAP_OVERHEAD: usize = 8;

/// The wrapped form of `key`.
pub uninterp spec fn aes_wrap(kek: Seq<u8>, key: Seq<u8>) -> Seq<u8>;

/// The key in a wrapped form, or `None` if the check value is wrong.
pub uninterp spec fn aes_unwrap(kek: Seq<u8>, wrapped: Seq<u8>) -> Option<Seq<u8>>;

/// `Kek::<Aes128>::wrap`: eight bytes longer than the key, and `unwrap` with the
/// same wrapping key gives the key back; `None` unless the key is whole 8-byte
/// blocks.
#[verifier::external_body]
fn wrap_aes128(kek: &[u8], key: &[u8]) -> (r: Option<Vec<u8>>)
    requires
        kek@.len() == 16,
        key@.len() + 8 <= usize::MAX,
    ensures
        r is Some <==> key@.len() % 8 == 0,
        r matches Some(w) ==> {
            &&& w@ == aes_wrap(kek@, key@)
            &&& w@.len() == key@.len() + WRAP_OVERHEAD
            &&& aes_unwrap(kek@, w@) == Some(key@)
        },
{
    let mut out = vec![0u8; key.len() + WRAP_OVERHEAD];
    let wrapper = Kek::<Aes128>::try_from(kek).ok()?;
    wrapper.wrap(key, &mut out).ok().map(|()| out)
}

/// `Kek::<Aes192>::wrap`: eight bytes longer than the key, and `unwrap` with the
/// same wrapping key gives the key back; `None` unless the key is whole 8-byte
/// blocks.
#[verifier::external_body]
fn wrap_aes192(kek: &[u8], key: &[u8]) -> (r: Option<Vec<u8>>)
    requires
        kek@.len() == 24,
        key@.len() + 8 <= usize::MAX,
    ensures
        r is Some <==> key@.len() % 8 == 0,
        r matches Some(w) ==> {
            &&& w@ == aes_wrap(kek@, key@)
            &&& w@.len() == key@.len() + WRAP_OVERHEAD
            &&& aes_unwrap(kek@, w@) == Some(key@)
        },
{
    let mut out = vec![0u8; key.len() + WRAP_OVERHEAD];
    let wrapper = Kek::<Aes192>::try_from(kek).ok()?;
    wrapper.wrap(key, &mut out).ok().map(|()| out)
}

/// `Kek::<Aes256>::wrap`: eight bytes longer than the key, and `unwrap` with the
/// same wrapping key gives the key back; `None` unless the key is whole 8-byte
/// blocks.
#[verifier::external_body]
fn wrap_aes256(kek: &[u8], key: &[u8]) -> (r: Option<Vec<u8>>)
    requires
        kek@.len() == 32,
        key@.len() + 8 <= usize::MAX,
    ensures
        r is Some <==> key@.len() % 8 == 0,
        r matches Some(w) ==> {
            &&& w@ == aes_wrap(kek@, key@)
            &&& w@.len() == key@.len() + WRAP_OVERHEAD
            &&& aes_unwrap(kek@, w@) == Some(key@)
        },
{
    let mut out = vec![0u8; key.len() + WRAP_OVERHEAD];
    let wrapper = Kek::<Aes256>::try_from(kek).ok()?;
    wrapper.wrap(key, &mut out).ok().map(|()| out)
}

/// `Kek::<Aes128>::unwrap`: the key, eight bytes shorter than its wrapped form,
/// or `None` if the check value is wrong or the length no multiple of eight.
#[verifier::external_body]
fn unwrap_aes128(kek: &[u8], wrapped: &[u8]) -> (r: Option<Vec<u8>>)
    requires
        kek@.len() == 16,
        wrapped@.len() >= WRAP_OVERHEAD,
    ensures
        match r {
            Some(key) => aes_unwrap(kek@, wrapped@) == Some(key@) && key@.len() + WRAP_OVERHEAD
                == wrapped@.len(),
            None => aes_unwrap(kek@, wrapped@) is None,
        },
{
    let len = wrapped.len() - WRAP_OVERHEAD;
    let mut out = vec![0u8; len];
    let wrapper = Kek::<Aes128>::try_from(kek).ok()?;
    wrapper.unwrap(wrapped, &mut out).ok().map(|()| out)
}

/// `Kek::<Aes192>::unwrap`: the key, eight bytes shorter than its wrapped form,
/// or `None` if the check value is wrong or the length no multiple of eight.
#[verifier::external_body]
fn unwrap_aes192(kek: &[u8], wrapped: &[u8]) -> (r: Option<Vec<u8>>)
    requires
        kek@.len() == 24,
        wrapped@.len() >= WRAP_OVERHEAD,
    ensures
        match r {
            Some(key) => aes_unwrap(kek@, wrapped@) == Some(key@) && key@.len() + WRAP_OVERHEAD
                == wrapped@.len(),
            None => aes_unwrap(kek@, wrapped@) is None,
        },
{
    let len = wrapped.len() - WRAP_OVERHEAD;
    let mut out = vec![0u8; len];
    let wrapper = Kek::<Aes192>::try_from(kek).ok()?;
    wrapper.unwrap(wrapped, &mut out).ok().map(|()| out)
}

/// `Kek::<Aes256>::unwrap`: the key, eight bytes shorter than its wrapped form,
/// or `None` if the check value is wrong or the length no multiple of eight.
#[verifier::external_body]
fn unwrap_aes256(kek: &[u8], wrapped: &[u8]) -> (r: Option<Vec<u8>>)
    requires
        kek@.len() == 32,
        wrapped@.len() >= WRAP_OVERHEAD,
    ensures
        match r {
            Some(key) => aes_unwrap(kek@, wrapped@) == Some(key@) && key@.len() + WRAP_OVERHEAD
                == wrapped@.len(),
            None => aes_unwrap(kek@, wrapped@) is None,
        },
{
    let len = wrapped.len() - WRAP_OVERHEAD;
    let mut out = vec![0u8; len];
    let wrapper = Kek::<Aes256>::try_from(kek).ok()?;
    wrapper.unwrap(wrapped, &mut out).ok().map(|()| out)
}

/// Wraps `sek` with `kek`. A wrapping key of another size than 16, 24 or 32 bytes
/// and a key that is not whole 8-byte blocks are refused.
pub fn wrap_key(kek: &[u8], sek: &[u8]) -> (r: Result<Vec<u8>, CryptoError>)
    requires
        sek@.len() + 8 <= usize::MAX,
    ensures
        match r {
            Ok(w) => {
                &&& crate::crypto::cipher::valid_key_len(kek@.len() as int) && sek@.len() % 8 == 0
                &&& w@ == aes_wrap(kek@, sek@)
                &&& w@.len() == sek@.len() + WRAP_OVERHEAD
                &&& aes_unwrap(kek@, w@) == Some(sek@)
            },
            Err(e) => {
                &&& !(crate::crypto::cipher::valid_key_len(kek@.len() as int) && sek@.len() % 8
                    == 0)
                &&& e == CryptoError::InvalidKeyLength(kek@.len() as usize)
            },
        },
{
    let wrapped = match kek.len() {
        16 => wrap_aes128(kek, sek),
        24 => wrap_aes192(kek, sek),
        32 => wrap_aes256(kek, sek),
        _ => None,
    };
    match wrapped {
        Some(wrapped) => Ok(wrapped),
        None => Err(CryptoError::InvalidKeyLength(kek.len())),
    }
}

/// Unwraps a key. Fails if the check value is wrong, which is how a wrong
/// passphrase shows, or if an input has an impossible length.
pub fn unwrap_key(kek: &[u8], wrapped: &[u8]) -> (r: Result<Vec<u8>, CryptoError>)
    ensures
        match r {
            Ok(key) => {
                &&& crate::crypto::cipher::valid_key_len(kek@.len() as int)
                &&& aes_unwrap(kek@, wrapped@) == Some(key@)
                &&& key@.len() + WRAP_OVERHEAD == wrapped@.len()
            },
            Err(e) => {
                &&& e == CryptoError::IntegrityCheckFailed
                &&& !crate::crypto::cipher::valid_key_len(kek@.len() as int) || wrapped@.len()
                    < WRAP_OVERHEAD || aes_unwrap(kek@, wrapped@) is None
            },
        },
{
    if wrapped.len() < WRAP_OVERHEAD {
        return Err(CryptoError::IntegrityCheckFailed);
    }
    let key = match kek.len() {
        16 => unwrap_aes128(kek, wrapped),
        24 => unwrap_aes192(kek, wrapped),
        32 => unwrap_aes256(kek, wrapped),
        _ => None,
    };
    match key {
        Some(key) => Ok(key),
        None => Err(CryptoError::IntegrityCheckFailed),
    }
}

} // verus!
