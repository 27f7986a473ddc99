//! Encryption: key slots, session keys, and how they come out of Key Material
//! messages.
//!
//! The random stream key and salt are supplied by the embedder. A connection
//! keeps two key slots, even and odd, and rotates between them; a packet's flag
//! tells which slot its payload is encrypted with.

pub mod cipher;
pub mod kek;
pub mod key_material;
pub mod wrap;

use crate::buffer;
use crate::crypto::key_material::{CipherMode, KeyFlags, KeyMaterial, KmView};
use crate::error::CryptoError;
use crate::packet::Encryption;
use bytes::Bytes;
use vstd::prelude::*;
use vstd::slice::{slice_subrange, slice_to_vec};

verus! {

/// The keys of one slot.
#[verifier::ext_equal]
pub struct KeysView {
    /// The salt.
    pub salt: Seq<u8>,
    /// The stream key.
    pub sek: Seq<u8>,
    /// The cipher.
    pub mode: CipherMode,
}

impl KeysView {
    /// The lengths are those of an AES key and a salt.
    pub open spec fn wf(self) -> bool {
        self.salt.len() == 16 && cipher::valid_key_len(self.sek.len() as int)
    }

    /// The encrypted form of a payload.
    pub open spec fn sealed(self, seq: u32, aad: Seq<u8>, plaintext: Seq<u8>) -> Seq<u8> {
        match self.mode {
            CipherMode::Ctr => cipher::aes_ctr(
                self.sek,
                cipher::counter_bytes(self.salt, seq),
                plaintext,
            ),
            CipherMode::Gcm => cipher::aes_gcm_seal(
                self.sek,
                cipher::nonce_bytes(self.salt, seq),
                aad,
                plaintext,
            ),
        }
    }

    /// The payload in an encrypted form; `None` if it does not authenticate.
    pub open spec fn opened(self, seq: u32, aad: Seq<u8>, data: Seq<u8>) -> Option<Seq<u8>> {
        match self.mode {
            CipherMode::Ctr => Some(
                cipher::aes_ctr(self.sek, cipher::counter_bytes(self.salt, seq), data),
            ),
            CipherMode::Gcm => cipher::aes_gcm_open(
                self.sek,
                cipher::nonce_bytes(self.salt, seq),
                aad,
                data,
            ),
        }
    }

    /// Bytes that encryption adds.
    pub open spec fn overhead(self) -> int {
        match self.mode {
            CipherMode::Ctr => 0,
            CipherMode::Gcm => 16,
        }
    }
}

/// The message that announces a key at the given slot.
pub open spec fn announced(
    passphrase: Seq<u8>,
    flags: KeyFlags,
    mode: CipherMode,
    salt: Seq<u8>,
    sek: Seq<u8>,
) -> KmView {
    KmView {
        key_flags: flags,
        cipher: mode,
        key_length: sek.len() as u8,
        salt,
        wrapped: wrap::aes_wrap(kek::kek_of(passphrase, salt, sek.len()), sek),
    }
}

/// The keys that a message announces, one or both slots.
#[verifier::ext_equal]
pub struct SlotsView {
    /// The even slot.
    pub even: Option<KeysView>,
    /// The odd slot.
    pub odd: Option<KeysView>,
}

impl SlotsView {
    /// At least one slot is filled, and filled slots hold valid keys.
    pub open spec fn wf(self) -> bool {
        &&& self.even is Some || self.odd is Some
        &&& self.even matches Some(k) ==> k.wf()
        &&& self.odd matches Some(k) ==> k.wf()
    }

    /// One slot filled.
    pub open spec fn single(flags: KeyFlags, keys: KeysView) -> SlotsView {
        if flags == KeyFlags::Odd {
            SlotsView { even: None, odd: Some(keys) }
        } else {
            SlotsView { even: Some(keys), odd: None }
        }
    }

    /// The slots in a message, for the given passphrase. A message with both keys
    /// holds the even key first; one whose lengths leave no room for keys is
    /// refused like one that does not unwrap.
    pub open spec fn unwrapped(km: KmView, passphrase: Seq<u8>) -> Result<SlotsView, CryptoError> {
        match wrap::aes_unwrap(
            kek::kek_of(passphrase, km.salt, km.key_length as nat),
            km.wrapped,
        ) {
            Some(raw) => if !km.has_room() {
                Err(CryptoError::IntegrityCheckFailed)
            } else {
                Ok(
                    if km.key_flags == KeyFlags::Both {
                        SlotsView {
                            even: Some(
                                KeysView {
                                    salt: km.salt,
                                    sek: raw.take(km.key_length as int),
                                    mode: km.cipher,
                                },
                            ),
                            odd: Some(
                                KeysView {
                                    salt: km.salt,
                                    sek: raw.skip(km.key_length as int),
                                    mode: km.cipher,
                                },
                            ),
                        }
                    } else {
                        SlotsView::single(
                            km.key_flags,
                            KeysView { salt: km.salt, sek: raw, mode: km.cipher },
                        )
                    },
                )
            },
            None => Err(CryptoError::IntegrityCheckFailed),
        }
    }
}

/// The negotiated keys of one slot.
#[derive(Debug)]
pub struct SessionKeys {
    salt: [u8; 16],
    sek: Vec<u8>,
    mode: CipherMode,
}

impl View for SessionKeys {
    type V = KeysView;

    closed spec fn view(&self) -> KeysView {
        KeysView { salt: self.salt@, sek: self.sek@, mode: self.mode }
    }
}

impl SessionKeys {
    #[verifier::type_invariant]
    spec fn valid(self) -> bool {
        cipher::valid_key_len(self.sek@.len() as int)
    }

    /// The keys of a fresh connection and the message that announces them, from
    /// random bytes that the embedder supplies.
    pub fn generate(passphrase: &[u8], mode: CipherMode, salt: [u8; 16], sek: &[u8]) -> (r: (
        Self,
        KeyMaterial,
    ))
        requires
            cipher::valid_key_len(sek@.len() as int),
        ensures
            r.0@ == (KeysView { salt: salt@, sek: sek@, mode }),
            r.1@ == announced(passphrase@, KeyFlags::Even, mode, salt@, sek@),
            r.1@.wf(),
            SlotsView::unwrapped(r.1@, passphrase@) == Ok::<SlotsView, CryptoError>(
                SlotsView::single(KeyFlags::Even, r.0@),
            ),
    {
        Self::from_raw(passphrase, KeyFlags::Even, mode, salt, sek)
    }

    /// The keys that a message announces at its slot; of a message with both, the
    /// even ones.
    pub fn from_key_material(km: &KeyMaterial, passphrase: &[u8]) -> (r: Result<Self, CryptoError>)
        ensures
            match r {
                Ok(keys) => {
                    &&& SlotsView::unwrapped(km@, passphrase@) is Ok
                    &&& Some(keys@) == (if km@.key_flags == KeyFlags::Odd {
                        SlotsView::unwrapped(km@, passphrase@)->Ok_0.odd
                    } else {
                        SlotsView::unwrapped(km@, passphrase@)->Ok_0.even
                    })
                },
                Err(e) => SlotsView::unwrapped(km@, passphrase@) == Err::<SlotsView, CryptoError>(
                    e,
                ),
            },
    {
        match UnwrappedKm::from_key_material(km, passphrase) {
            Ok(slots) => {
                let chosen = match km.key_flags {
                    KeyFlags::Odd => slots.odd,
                    KeyFlags::Even => slots.even,
                    KeyFlags::Both => slots.even,
                };
                match chosen {
                    Some(keys) => Ok(keys),
                    None => Err(CryptoError::IntegrityCheckFailed),
                }
            },
            Err(e) => Err(e),
        }
    }

    /// The salt.
    pub fn salt(&self) -> (r: [u8; 16])
        ensures
            r@ == self@.salt,
    {
        self.salt
    }

    /// Whether the cipher authenticates.
    pub fn is_aead(&self) -> (r: bool)
        ensures
            r == (self@.mode == CipherMode::Gcm),
    {
        match self.mode {
            CipherMode::Gcm => true,
            CipherMode::Ctr => false,
        }
    }

    /// The keys for given key bytes, and the message that announces them at the
    /// slot `flags`. Whoever knows the passphrase gets the same keys out of the
    /// message, unless it is flagged for both slots, which takes two keys.
    pub fn from_raw(
        passphrase: &[u8],
        flags: KeyFlags,
        mode: CipherMode,
        salt: [u8; 16],
        sek: &[u8],
    ) -> (r: (Self, KeyMaterial))
        requires
            cipher::valid_key_len(sek@.len() as int),
        ensures
            r.0@ == (KeysView { salt: salt@, sek: sek@, mode }),
            r.1@ == announced(passphrase@, flags, mode, salt@, sek@),
            flags != KeyFlags::Both ==> r.1@.wf(),
            flags != KeyFlags::Both ==> SlotsView::unwrapped(r.1@, passphrase@) == Ok::<
                SlotsView,
                CryptoError,
            >(SlotsView::single(flags, r.0@)),
    {
        let km = build_key_material_for(passphrase, flags, mode, &salt, sek);
        (SessionKeys { salt, sek: slice_to_vec(sek), mode }, km)
    }

    /// Encrypts the payload of packet `seq`. AES-GCM authenticates `aad` along
    /// with it and adds a tag; counter mode keeps the length. Decrypting gives
    /// the payload back.
    pub fn encrypt(&self, seq: u32, aad: &[u8], plaintext: &[u8]) -> (r: Bytes)
        requires
            plaintext@.len() <= cipher::GCM_MAX_LEN,
            aad@.len() <= cipher::GCM_MAX_LEN,
        ensures
            buffer::bytes_seq(r) == self@.sealed(seq, aad@, plaintext@),
            buffer::bytes_seq(r).len() == plaintext@.len() + self@.overhead(),
            self@.opened(seq, aad@, buffer::bytes_seq(r)) == Some(plaintext@),
    {
        proof {
            use_type_invariant(self);
        }
        match self.mode {
            CipherMode::Ctr => {
                let mut buf = slice_to_vec(plaintext);
                let done = cipher::apply_ctr(self.sek.as_slice(), &self.salt, seq, &mut buf);
                buffer::from_vec(buf)
            },
            CipherMode::Gcm => {
                match cipher::gcm_encrypt(self.sek.as_slice(), &self.salt, seq, aad, plaintext) {
                    Ok(sealed) => buffer::from_vec(sealed),
                    Err(_) => {
                        assert(false);
                        buffer::from_vec(Vec::new())
                    },
                }
            },
        }
    }

    /// Decrypts the payload of packet `seq`; `None` if it does not authenticate.
    /// Counter mode cannot tell.
    pub fn decrypt(&self, seq: u32, aad: &[u8], data: &[u8]) -> (r: Option<Bytes>)
        ensures
            match r {
                Some(b) => self@.opened(seq, aad@, data@) == Some(buffer::bytes_seq(b)),
                None => self@.opened(seq, aad@, data@) is None,
            },
    {
        proof {
            use_type_invariant(self);
        }
        match self.mode {
            CipherMode::Ctr => {
                let mut buf = slice_to_vec(data);
                let done = cipher::apply_ctr(self.sek.as_slice(), &self.salt, seq, &mut buf);
                Some(buffer::from_vec(buf))
            },
            CipherMode::Gcm => {
                match cipher::gcm_decrypt(self.sek.as_slice(), &self.salt, seq, aad, data) {
                    Ok(msg) => Some(buffer::from_vec(msg)),
                    Err(_) => None,
                }
            },
        }
    }
}

/// The keys that a message announces, one or both slots.
#[derive(Debug)]
pub struct UnwrappedKm {
    even: Option<SessionKeys>,
    odd: Option<SessionKeys>,
}

/// The view of a slot.
pub open spec fn slot_view(slot: Option<SessionKeys>) -> Option<KeysView> {
    match slot {
        Some(keys) => Some(keys@),
        None => None,
    }
}

impl View for UnwrappedKm {
    type V = SlotsView;

    closed spec fn view(&self) -> SlotsView {
        SlotsView { even: slot_view(self.even), odd: slot_view(self.odd) }
    }
}

impl UnwrappedKm {
    /// One slot filled; a message with both keys counts as even.
    pub fn single(flags: KeyFlags, keys: SessionKeys) -> (r: Self)
        ensures
            r@ == SlotsView::single(flags, keys@),
            r@.wf(),
    {
        proof {
            use_type_invariant(&keys);
        }
        match flags {
            KeyFlags::Odd => UnwrappedKm { even: None, odd: Some(keys) },
            KeyFlags::Even => UnwrappedKm { even: Some(keys), odd: None },
            KeyFlags::Both => UnwrappedKm { even: Some(keys), odd: None },
        }
    }

    /// The keys that a message announces. Fails if the passphrase is not the one
    /// they were wrapped with, or if the message is too short or too long for its
    /// keys.
    pub fn from_key_material(km: &KeyMaterial, passphrase: &[u8]) -> (r: Result<Self, CryptoError>)
        ensures
            match r {
                Ok(slots) => SlotsView::unwrapped(km@, passphrase@) == Ok::<SlotsView, CryptoError>(
                    slots@,
                ) && slots@.wf() && (km@.key_flags == KeyFlags::Odd ==> slots@.odd is Some) && (
                km@.key_flags != KeyFlags::Odd ==> slots@.even is Some),
                Err(e) => SlotsView::unwrapped(km@, passphrase@) == Err::<SlotsView, CryptoError>(
                    e,
                ),
            },
    {
        let n: usize = km.key_length as usize;
        let kek = kek::derive_kek(passphrase, &km.salt, n);
        let raw = match wrap::unwrap_key(kek.as_slice(), buffer::as_slice(&km.wrapped)) {
            Ok(raw) => raw,
            Err(e) => {
                return Err(e);
            },
        };
        match km.key_flags {
            KeyFlags::Both => {
                if raw.len() != n + n {
                    return Err(CryptoError::IntegrityCheckFailed);
                }
                let first = slice_subrange(raw.as_slice(), 0, n);
                let second = slice_subrange(raw.as_slice(), n, raw.len());
                assert(first@ =~= raw@.take(n as int));
                assert(second@ =~= raw@.skip(n as int));
                let even = SessionKeys {
                    salt: km.salt,
                    sek: slice_to_vec(first),
                    mode: km.cipher,
                };
                let odd = SessionKeys {
                    salt: km.salt,
                    sek: slice_to_vec(second),
                    mode: km.cipher,
                };
                Ok(UnwrappedKm { even: Some(even), odd: Some(odd) })
            },
            flags => {
                if raw.len() != 16 && raw.len() != 24 && raw.len() != 32 {
                    return Err(CryptoError::IntegrityCheckFailed);
                }
                let keys = SessionKeys { salt: km.salt, sek: raw, mode: km.cipher };
                Ok(Self::single(flags, keys))
            },
        }
    }
}

/// Builds the message that announces `sek` at the slot `flags`.
fn build_key_material_for(
    passphrase: &[u8],
    flags: KeyFlags,
    mode: CipherMode,
    salt: &[u8; 16],
    sek: &[u8],
) -> (r: KeyMaterial)
    requires
        cipher::valid_key_len(sek@.len() as int),
    ensures
        r@ == announced(passphrase@, flags, mode, salt@, sek@),
        flags != KeyFlags::Both ==> r@.wf(),
        flags != KeyFlags::Both ==> SlotsView::unwrapped(r@, passphrase@) == Ok::<
            SlotsView,
            CryptoError,
        >(SlotsView::single(flags, KeysView { salt: salt@, sek: sek@, mode })),
{
    let n: usize = sek.len();
    let kek = kek::derive_kek(passphrase, salt, n);
    let wrapped = match wrap::wrap_key(kek.as_slice(), sek) {
        Ok(wrapped) => wrapped,
        Err(_) => {
            assert(false);
            Vec::new()
        },
    };
    KeyMaterial {
        key_flags: flags,
        cipher: mode,
        key_length: n as u8,
        salt: *salt,
        wrapped: buffer::from_vec(wrapped),
    }
}

/// The key slots of a connection.
#[verifier::ext_equal]
pub struct CryptoView {
    /// The even slot.
    pub even: Option<KeysView>,
    /// The odd slot.
    pub odd: Option<KeysView>,
    /// The slot that outgoing packets use.
    pub active: Encryption,
}

impl CryptoView {
    /// The slot in use is filled, and filled slots hold valid keys.
    pub open spec fn wf(self) -> bool {
        &&& self.active != Encryption::Unencrypted
        &&& self.slot(self.active) is Some
        &&& self.even matches Some(k) ==> k.wf()
        &&& self.odd matches Some(k) ==> k.wf()
    }

    /// The keys that a packet's flag selects.
    pub open spec fn slot(self, flag: Encryption) -> Option<KeysView> {
        match flag {
            Encryption::Even => self.even,
            Encryption::Odd => self.odd,
            Encryption::Unencrypted => None,
        }
    }

    /// The slot that a rotation switches to.
    pub open spec fn next_flags(self) -> KeyFlags {
        if self.active == Encryption::Odd {
            KeyFlags::Even
        } else {
            KeyFlags::Odd
        }
    }

    /// The flag of the slot that a rotation switches to.
    pub open spec fn next_slot(self) -> Encryption {
        if self.active == Encryption::Odd {
            Encryption::Even
        } else {
            Encryption::Odd
        }
    }

    /// Starting on the even key, or on the odd one if it is the only one.
    pub open spec fn starting(slots: SlotsView) -> CryptoView {
        CryptoView {
            even: slots.even,
            odd: slots.odd,
            active: if slots.even is Some {
                Encryption::Even
            } else {
                Encryption::Odd
            },
        }
    }

    /// With the announced slots replaced.
    pub open spec fn installed(self, slots: SlotsView) -> CryptoView {
        CryptoView {
            even: if slots.even is Some {
                slots.even
            } else {
                self.even
            },
            odd: if slots.odd is Some {
                slots.odd
            } else {
                self.odd
            },
            active: self.active,
        }
    }

    /// With outgoing packets switched to the given slot.
    pub open spec fn activated(self, flags: KeyFlags) -> CryptoView {
        CryptoView {
            active: if flags == KeyFlags::Odd {
                Encryption::Odd
            } else {
                Encryption::Even
            },
            ..self
        }
    }

    /// The salt of the connection.
    pub open spec fn salt(self) -> Option<Seq<u8>> {
        match self.even {
            Some(k) => Some(k.salt),
            None => match self.odd {
                Some(k) => Some(k.salt),
                None => None,
            },
        }
    }

    /// The keys that a rotation to `sek` brings: salt and cipher stay.
    pub open spec fn next_keys(self, sek: Seq<u8>) -> KeysView {
        KeysView { salt: self.salt()->0, sek, mode: self.mode() }
    }

    /// The payload in an encrypted form, by the slot that the flag selects;
    /// `None` without a key for that slot or if it does not authenticate.
    pub open spec fn opened(
        self,
        seq: u32,
        flag: Encryption,
        aad: Seq<u8>,
        data: Seq<u8>,
    ) -> Option<Seq<u8>> {
        match self.slot(flag) {
            Some(k) => k.opened(seq, aad, data),
            None => None,
        }
    }

    /// The encrypted form of a payload, by the slot in use.
    pub open spec fn sealed(self, seq: u32, aad: Seq<u8>, plaintext: Seq<u8>) -> Seq<u8> {
        self.slot(self.active)->0.sealed(seq, aad, plaintext)
    }

    /// The cipher of the slot in use.
    pub open spec fn mode(self) -> CipherMode {
        self.slot(self.active)->0.mode
    }

    /// The bytes that the cipher in use adds to a payload.
    pub open spec fn tag_len(self) -> int {
        self.slot(self.active)->0.overhead()
    }

    /// Whether the cipher in use authenticates.
    pub open spec fn is_aead(self) -> bool {
        self.slot(self.active) matches Some(k) && k.mode == CipherMode::Gcm
    }
}

/// The connection's encryption state: the even and the odd key slot, and which
/// one outgoing packets use.
#[derive(Debug)]
pub struct SessionCrypto {
    even: Option<SessionKeys>,
    odd: Option<SessionKeys>,
    active: Encryption,
}

impl View for SessionCrypto {
    type V = CryptoView;

    closed spec fn view(&self) -> CryptoView {
        CryptoView { even: slot_view(self.even), odd: slot_view(self.odd), active: self.active }
    }
}

impl SessionCrypto {
    /// Starts on the even key.
    pub fn even(keys: SessionKeys) -> (r: Self)
        ensures
            r@ == CryptoView::starting(SlotsView::single(KeyFlags::Even, keys@)),
            r@.wf(),
    {
        Self::from_slots(UnwrappedKm::single(KeyFlags::Even, keys))
    }

    /// Starts on the slots that a message filled: on the even key, or on the odd
    /// one if it is the only one.
    pub fn from_slots(slots: UnwrappedKm) -> (r: Self)
        requires
            slots@.wf(),
        ensures
            r@ == CryptoView::starting(slots@),
            r@.wf(),
    {
        let active = match &slots.even {
            Some(_) => Encryption::Even,
            None => Encryption::Odd,
        };
        SessionCrypto { even: slots.even, odd: slots.odd, active }
    }

    /// Installs the keys of one slot.
    pub fn install(&mut self, flags: KeyFlags, keys: SessionKeys)
        requires
            old(self)@.wf(),
        ensures
            final(self)@ == old(self)@.installed(SlotsView::single(flags, keys@)),
            final(self)@.wf(),
    {
        self.install_slots(UnwrappedKm::single(flags, keys));
    }

    /// Installs the slots that a message filled.
    pub fn install_slots(&mut self, slots: UnwrappedKm)
        requires
            old(self)@.wf(),
            slots@.wf(),
        ensures
            final(self)@ == old(self)@.installed(slots@),
            final(self)@.wf(),
    {
        if let Some(keys) = slots.even {
            self.even = Some(keys);
        }
        if let Some(keys) = slots.odd {
            self.odd = Some(keys);
        }
    }

    /// The slot that a rotation switches to.
    pub fn next_flags(&self) -> (r: KeyFlags)
        ensures
            r == self@.next_flags(),
    {
        match self.active {
            Encryption::Odd => KeyFlags::Even,
            Encryption::Even => KeyFlags::Odd,
            Encryption::Unencrypted => KeyFlags::Odd,
        }
    }

    /// The salt of the connection.
    pub fn salt(&self) -> (r: Option<[u8; 16]>)
        ensures
            match r {
                Some(salt) => self@.salt() == Some(salt@),
                None => self@.salt() is None,
            },
    {
        match &self.even {
            Some(keys) => Some(keys.salt()),
            None => match &self.odd {
                Some(keys) => Some(keys.salt()),
                None => None,
            },
        }
    }

    /// Switches outgoing packets to the given slot, which has to be filled.
    pub fn activate(&mut self, flags: KeyFlags)
        requires
            old(self)@.wf(),
            flags == KeyFlags::Odd ==> old(self)@.odd is Some,
            flags != KeyFlags::Odd ==> old(self)@.even is Some,
        ensures
            final(self)@ == old(self)@.activated(flags),
            final(self)@.wf(),
    {
        self.active = match flags {
            KeyFlags::Odd => Encryption::Odd,
            KeyFlags::Even => Encryption::Even,
            KeyFlags::Both => Encryption::Even,
        };
    }

    /// Encrypts an outgoing payload with the slot in use and returns the flag to
    /// stamp on the packet. Decrypting by that flag gives the payload back.
    pub fn encrypt(&self, seq: u32, aad: &[u8], payload: &[u8]) -> (r: (Bytes, Encryption))
        requires
            self@.wf(),
            payload@.len() <= cipher::GCM_MAX_LEN,
            aad@.len() <= cipher::GCM_MAX_LEN,
        ensures
            buffer::bytes_seq(r.0) == self@.sealed(seq, aad@, payload@),
            r.1 == self@.active,
            self@.opened(seq, r.1, aad@, buffer::bytes_seq(r.0)) == Some(payload@),
            buffer::bytes_seq(r.0).len() == payload@.len() + self@.slot(self@.active)->0.overhead(),
    {
        let slot = match self.active {
            Encryption::Odd => &self.odd,
            Encryption::Even => &self.even,
            Encryption::Unencrypted => &self.even,
        };
        match slot {
            Some(keys) => (keys.encrypt(seq, aad, payload), self.active),
            None => {
                assert(false);
                (buffer::copy_from_slice(payload), self.active)
            },
        }
    }

    /// The slot that outgoing packets use.
    pub fn active_encryption(&self) -> (r: Encryption)
        ensures
            r == self@.active,
    {
        self.active
    }

    /// The cipher of the slot in use.
    pub fn mode(&self) -> (r: CipherMode)
        requires
            self@.wf(),
        ensures
            r == self@.mode(),
    {
        let slot = match self.active {
            Encryption::Odd => &self.odd,
            Encryption::Even => &self.even,
            Encryption::Unencrypted => &self.even,
        };
        match slot {
            Some(keys) => keys.mode,
            None => {
                assert(false);
                CipherMode::Ctr
            },
        }
    }

    /// Whether the cipher in use authenticates.
    pub fn is_aead(&self) -> (r: bool)
        ensures
            r == self@.is_aead(),
    {
        let slot = match self.active {
            Encryption::Odd => &self.odd,
            Encryption::Even => &self.even,
            Encryption::Unencrypted => {
                return false;
            },
        };
        match slot {
            Some(keys) => keys.is_aead(),
            None => false,
        }
    }

    /// Decrypts a received payload with the slot that its flag selects. Without a
    /// key for that slot the packet is given up rather than decrypted with the
    /// wrong key.
    pub fn decrypt(&self, seq: u32, flag: Encryption, aad: &[u8], payload: &[u8]) -> (r: Option<
        Bytes,
    >)
        ensures
            match r {
                Some(b) => self@.opened(seq, flag, aad@, payload@) == Some(buffer::bytes_seq(b)),
                None => self@.opened(seq, flag, aad@, payload@) is None,
            },
    {
        let slot = match flag {
            Encryption::Even => &self.even,
            Encryption::Odd => &self.odd,
            Encryption::Unencrypted => {
                return None;
            },
        };
        match slot {
            Some(keys) => keys.decrypt(seq, aad, payload),
            None => None,
        }
    }
}

/// A packet for a slot without a key is never decrypted.
pub proof fn law_missing_slot_is_never_decrypted(
    crypto: CryptoView,
    seq: u32,
    flag: Encryption,
    aad: Seq<u8>,
    data: Seq<u8>,
)
    requires
        crypto.slot(flag) is None,
    ensures
        crypto.opened(seq, flag, aad, data) is None,
{
}

/// Installing the next key and switching to it keeps the old slot, so that
/// packets encrypted before the switch are still decrypted.
pub proof fn law_rotation_keeps_the_old_slot(
    crypto: CryptoView,
    keys: KeysView,
    seq: u32,
    aad: Seq<u8>,
    data: Seq<u8>,
)
    requires
        crypto.wf(),
        keys.wf(),
    ensures
        ({
            let rotated = crypto.installed(
                SlotsView::single(crypto.next_flags(), keys),
            ).activated(crypto.next_flags());
            &&& rotated.wf()
            &&& rotated.active == crypto.next_slot()
            &&& rotated.slot(rotated.active) == Some(keys)
            &&& rotated.opened(seq, crypto.active, aad, data) == crypto.opened(
                seq,
                crypto.active,
                aad,
                data,
            )
        }),
{
}

/// A message fills the slots it names and leaves the other alone: with both keys the even
/// one comes first, and all keys have the message's salt and cipher.
pub proof fn law_messages_fill_the_slots_they_name(
    km: KmView,
    passphrase: Seq<u8>,
    even: Seq<u8>,
    odd: Seq<u8>,
)
    requires
        km.has_room(),
        even.len() == km.key_length,
        wrap::aes_unwrap(
            kek::kek_of(passphrase, km.salt, km.key_length as nat),
            km.wrapped,
        ) == Some(
            match km.key_flags {
                KeyFlags::Both => even + odd,
                KeyFlags::Even => even,
                KeyFlags::Odd => odd,
            },
        ),
    ensures
        ({
            let slots = SlotsView::unwrapped(km, passphrase);
            &&& slots is Ok
            &&& slots->Ok_0.even == (match km.key_flags {
                KeyFlags::Odd => None,
                _ => Some(KeysView { salt: km.salt, sek: even, mode: km.cipher }),
            })
            &&& slots->Ok_0.odd == (match km.key_flags {
                KeyFlags::Even => None,
                _ => Some(KeysView { salt: km.salt, sek: odd, mode: km.cipher }),
            })
        }),
{
    if km.key_flags == KeyFlags::Both {
        assert((even + odd).take(even.len() as int) =~= even);
        assert((even + odd).skip(even.len() as int) =~= odd);
    }
}

/// A connection starts on the even key, or on the odd one if it has no even one, and each
/// packet is sealed with the key in use.
pub proof fn law_even_key_goes_first(slots: SlotsView, seq: u32, aad: Seq<u8>, data: Seq<u8>)
    ensures
        ({
            let c = CryptoView::starting(slots);
            &&& slots.even matches Some(k) ==> c.active == Encryption::Even && c.sealed(
                seq,
                aad,
                data,
            ) == k.sealed(seq, aad, data)
            &&& slots.even is None ==> c.active == Encryption::Odd
            &&& slots.even is None && slots.odd is Some ==> c.sealed(seq, aad, data)
                == slots.odd->0.sealed(seq, aad, data)
            &&& c.even == slots.even
            &&& c.odd == slots.odd
        }),
{
}

} // verus!
