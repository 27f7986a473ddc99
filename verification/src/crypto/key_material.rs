//! The Key Material message, which carries the wrapped stream keys, the salt and
//! the cipher between peers.

use crate::buffer;
use crate::crypto::cipher;
use crate::error::CryptoError;
use crate::wire;
use bytes::{Bytes, BytesMut};
use vstd::prelude::*;
use vstd::slice::slice_subrange;

verus! {

/// Size of the fixed part.
pub const HEADER_LEN: usize = 16;

/// Size of the salt.
pub const SALT_LEN: usize = 16;

/// Size of the check value in front of the wrapped keys.
pub const ICV_LEN: usize = 8;

/// The signature of a Key Material message.
pub const SIGN: u16 = 0x2029;

/// The payload cipher.
#[derive(Debug, Clone, Copy, PartialEq, Eq, Structural)]
pub enum CipherMode {
    /// AES in counter mode, without authentication.
    Ctr,
    /// AES-GCM, with authentication.
    Gcm,
}

impl Default for CipherMode {
    fn default() -> (r: Self)
        ensures
            r == CipherMode::Ctr,
    {
        CipherMode::Ctr
    }
}

impl CipherMode {
    /// The wire value.
    pub open spec fn wire(self) -> u8 {
        match self {
            CipherMode::Ctr => 2,
            CipherMode::Gcm => 4,
        }
    }

    /// The cipher with the given wire value.
    pub open spec fn of_wire(cipher: u8) -> Result<CipherMode, CryptoError> {
        if cipher == 2 {
            Ok(CipherMode::Ctr)
        } else if cipher == 4 {
            Ok(CipherMode::Gcm)
        } else {
            Err(CryptoError::UnsupportedCipher(cipher))
        }
    }

    fn to_wire(self) -> (r: u8)
        ensures
            r == self.wire(),
    {
        match self {
            CipherMode::Ctr => 2,
            CipherMode::Gcm => 4,
        }
    }

    fn from_wire(cipher: u8) -> (r: Result<Self, CryptoError>)
        ensures
            r == Self::of_wire(cipher),
    {
        match cipher {
            2 => Ok(CipherMode::Ctr),
            4 => Ok(CipherMode::Gcm),
            other => Err(CryptoError::UnsupportedCipher(other)),
        }
    }
}

/// Which keys a message carries.
#[derive(Debug, Clone, Copy, PartialEq, Eq, Structural)]
pub enum KeyFlags {
    /// The even key.
    Even,
    /// The odd key.
    Odd,
    /// The even key and behind it the odd key.
    Both,
}

impl KeyFlags {
    /// The two bits on the wire.
    pub open spec fn kk(self) -> u8 {
        match self {
            KeyFlags::Even => 1,
            KeyFlags::Odd => 2,
            KeyFlags::Both => 3,
        }
    }

    /// The flags with the given bits.
    pub open spec fn of_kk(kk: u8) -> Result<KeyFlags, CryptoError> {
        if kk == 1 {
            Ok(KeyFlags::Even)
        } else if kk == 2 {
            Ok(KeyFlags::Odd)
        } else if kk == 3 {
            Ok(KeyFlags::Both)
        } else {
            Err(CryptoError::InvalidKeyFlags(kk))
        }
    }

    /// How many keys are carried.
    pub open spec fn count(self) -> int {
        if self == KeyFlags::Both {
            2
        } else {
            1
        }
    }

    fn to_kk(self) -> (r: u8)
        ensures
            r == self.kk(),
    {
        match self {
            KeyFlags::Even => 1,
            KeyFlags::Odd => 2,
            KeyFlags::Both => 3,
        }
    }

    fn from_kk(kk: u8) -> (r: Result<Self, CryptoError>)
        ensures
            r == Self::of_kk(kk),
    {
        match kk {
            1 => Ok(KeyFlags::Even),
            2 => Ok(KeyFlags::Odd),
            3 => Ok(KeyFlags::Both),
            other => Err(CryptoError::InvalidKeyFlags(other)),
        }
    }

    /// How many keys are carried.
    pub fn key_count(self) -> (r: usize)
        ensures
            r == self.count(),
    {
        match self {
            KeyFlags::Both => 2,
            KeyFlags::Even => 1,
            KeyFlags::Odd => 1,
        }
    }
}

/// A Key Material message.
#[derive(Debug, Clone, PartialEq, Eq)]
pub struct KeyMaterial {
    /// Which keys the message carries.
    pub key_flags: KeyFlags,
    /// The cipher that the keys are for.
    pub cipher: CipherMode,
    /// The length of a key: 16, 24 or 32 bytes.
    pub key_length: u8,
    /// The salt.
    pub salt: [u8; 16],
    /// The wrapped keys.
    pub wrapped: Bytes,
}

/// What a [`KeyMaterial`] holds.
#[verifier::ext_equal]
pub struct KmView {
    /// Which keys the message carries.
    pub key_flags: KeyFlags,
    /// The cipher that the keys are for.
    pub cipher: CipherMode,
    /// The length of a key.
    pub key_length: u8,
    /// The salt.
    pub salt: Seq<u8>,
    /// The wrapped keys.
    pub wrapped: Seq<u8>,
}

impl View for KeyMaterial {
    type V = KmView;

    open spec fn view(&self) -> KmView {
        KmView {
            key_flags: self.key_flags,
            cipher: self.cipher,
            key_length: self.key_length,
            salt: self.salt@,
            wrapped: buffer::bytes_seq(self.wrapped),
        }
    }
}

impl KmView {
    /// The lengths fit together.
    pub open spec fn wf(self) -> bool {
        &&& cipher::valid_key_len(self.key_length as int)
        &&& self.salt.len() == SALT_LEN
        &&& self.wrapped.len() == self.key_flags.count() * self.key_length + ICV_LEN
    }

    /// The lengths leave room for usable keys: two of the stated length, or one of
    /// any length that the cipher takes.
    pub open spec fn has_room(self) -> bool {
        let len = self.wrapped.len() - ICV_LEN;
        &&& cipher::valid_key_len(self.key_length as int)
        &&& if self.key_flags == KeyFlags::Both {
            len == 2 * self.key_length
        } else {
            cipher::valid_key_len(len)
        }
    }

    /// The fixed part on the wire: version 1 and packet type 2, the signature, the
    /// key flags, a reserved word, the cipher, whether it authenticates, the
    /// encapsulation (2), reserved bytes, and the lengths of salt and key in
    /// words.
    pub open spec fn header(self) -> Seq<u8> {
        seq![
            0x12u8,
            0x20u8,
            0x29u8,
            self.key_flags.kk(),
            0u8,
            0u8,
            0u8,
            0u8,
            self.cipher.wire(),
            if self.cipher == CipherMode::Gcm {
                1u8
            } else {
                0u8
            },
            2u8,
            0u8,
            0u8,
            0u8,
            4u8,
            (self.key_length / 4) as u8,
        ]
    }

    /// The message on the wire.
    pub open spec fn bytes(self) -> Seq<u8> {
        self.header() + self.salt + self.wrapped
    }

    /// The message in `s`; bytes behind the wrapped keys are ignored.
    pub open spec fn of_bytes(s: Seq<u8>) -> Result<KmView, CryptoError> {
        let version = (s[0] / 16 % 8) as u8;
        let packet_type = (s[0] % 16) as u8;
        let sign = wire::read16(s, 1);
        let flags = KeyFlags::of_kk((s[3] % 4) as u8);
        let mode = CipherMode::of_wire(s[8]);
        let salt_len = s[14] * 4;
        let key_length = s[15] * 4;
        if s.len() < HEADER_LEN {
            Err(CryptoError::TooShort { need: HEADER_LEN, got: s.len() as usize })
        } else if version != 1 {
            Err(CryptoError::UnsupportedVersion(version))
        } else if packet_type != 2 {
            Err(CryptoError::InvalidPacketType(packet_type))
        } else if sign != SIGN {
            Err(CryptoError::InvalidSignature(sign))
        } else if flags is Err {
            Err(flags->Err_0)
        } else if mode is Err {
            Err(mode->Err_0)
        } else if salt_len != SALT_LEN {
            Err(CryptoError::InvalidSaltLength(salt_len as usize))
        } else if !cipher::valid_key_len(key_length) {
            Err(CryptoError::InvalidKeyLength(key_length as usize))
        } else {
            let wrapped_len = flags->Ok_0.count() * key_length + ICV_LEN;
            if s.len() < HEADER_LEN + SALT_LEN + wrapped_len {
                Err(
                    CryptoError::TooShort {
                        need: (HEADER_LEN + SALT_LEN + wrapped_len) as usize,
                        got: s.len() as usize,
                    },
                )
            } else {
                Ok(
                    KmView {
                        key_flags: flags->Ok_0,
                        cipher: mode->Ok_0,
                        key_length: key_length as u8,
                        salt: s.subrange(16, 32),
                        wrapped: s.subrange(32, 32 + wrapped_len),
                    },
                )
            }
        }
    }
}

impl KeyMaterial {
    /// Appends the message.
    pub fn encode(&self, out: &mut BytesMut)
        ensures
            buffer::buf_seq(*final(out)) == buffer::buf_seq(*old(out)) + self@.bytes(),
    {
        let ghost before = buffer::buf_seq(*out);
        let auth: u8 = match self.cipher {
            CipherMode::Gcm => 1,
            CipherMode::Ctr => 0,
        };
        let header: [u8; 16] = [
            0x12,
            0x20,
            0x29,
            self.key_flags.to_kk(),
            0,
            0,
            0,
            0,
            self.cipher.to_wire(),
            auth,
            2,
            0,
            0,
            0,
            4,
            self.key_length / 4,
        ];
        assert(header@ =~= self@.header());
        buffer::put_slice(out, header.as_slice());
        buffer::put_slice(out, self.salt.as_slice());
        buffer::put_slice(out, buffer::as_slice(&self.wrapped));
        assert(buffer::buf_seq(*out) =~= before + self@.bytes());
    }

    /// Decodes a message; a short buffer and every malformed field are errors.
    pub fn decode(buf: &[u8]) -> (r: Result<Self, CryptoError>)
        ensures
            match r {
                Ok(km) => KmView::of_bytes(buf@) == Ok::<KmView, CryptoError>(km@) && km@.wf(),
                Err(e) => KmView::of_bytes(buf@) == Err::<KmView, CryptoError>(e),
            },
    {
        if buf.len() < HEADER_LEN {
            return Err(CryptoError::TooShort { need: HEADER_LEN, got: buf.len() });
        }
        let b0: u8 = buf[0];
        let version: u8 = b0 / 16 % 8;
        let packet_type: u8 = b0 % 16;
        if version != 1 {
            return Err(CryptoError::UnsupportedVersion(version));
        }
        if packet_type != 2 {
            return Err(CryptoError::InvalidPacketType(packet_type));
        }
        let sign: u16 = wire::get_u16(buf, 1);
        if sign != SIGN {
            return Err(CryptoError::InvalidSignature(sign));
        }
        let key_flags = match KeyFlags::from_kk(buf[3] % 4) {
            Ok(key_flags) => key_flags,
            Err(e) => {
                return Err(e);
            },
        };
        let cipher = match CipherMode::from_wire(buf[8]) {
            Ok(cipher) => cipher,
            Err(e) => {
                return Err(e);
            },
        };
        let salt_len: usize = buf[14] as usize * 4;
        let key_length: usize = buf[15] as usize * 4;
        if salt_len != SALT_LEN {
            return Err(CryptoError::InvalidSaltLength(salt_len));
        }
        if key_length != 16 && key_length != 24 && key_length != 32 {
            return Err(CryptoError::InvalidKeyLength(key_length));
        }
        let count: usize = key_flags.key_count();
        assert(count == 1 || count == 2);
        let wrapped_len: usize = if count == 2 {
            key_length + key_length + ICV_LEN
        } else {
            key_length + ICV_LEN
        };
        assert(wrapped_len == key_flags.count() * key_length + ICV_LEN) by (nonlinear_arith)
            requires
                count == key_flags.count(),
                count == 1 || count == 2,
                count == 2 ==> wrapped_len == key_length + key_length + ICV_LEN,
                count == 1 ==> wrapped_len == key_length + ICV_LEN,
        ;
        if buf.len() < HEADER_LEN + SALT_LEN + wrapped_len {
            return Err(
                CryptoError::TooShort {
                    need: HEADER_LEN + SALT_LEN + wrapped_len,
                    got: buf.len(),
                },
            );
        }
        let mut salt: [u8; 16] = [0u8; 16];
        let mut k: usize = 0;
        while k < 16
            invariant
                k <= 16,
                buf@.len() >= 32,
                forall|j: int| 0 <= j < k ==> salt@[j] == buf@[16 + j],
            decreases 16 - k,
        {
            salt[k] = buf[16 + k];
            k += 1;
        }
        assert(salt@ =~= buf@.subrange(16, 32));
        let wrapped = slice_subrange(buf, 32, 32 + wrapped_len);
        Ok(
            KeyMaterial {
                key_flags,
                cipher,
                key_length: key_length as u8,
                salt,
                wrapped: buffer::copy_from_slice(wrapped),
            },
        )
    }
}

/// Decoding an encoded message gives the message back.
pub proof fn law_key_material_round_trips(km: KmView)
    requires
        km.wf(),
    ensures
        KmView::of_bytes(km.bytes()) == Ok::<KmView, CryptoError>(km),
{
    let s = km.bytes();
    let h = km.header();
    assert(h.len() == 16);
    assert forall|i: int| 0 <= i < 16 implies s[i] == h[i] by {}
    assert(wire::read16(s, 1) == SIGN);
    assert(s[15] * 4 == km.key_length);
    assert(0 <= km.key_flags.count() * km.key_length);
    assert(s.subrange(16, 32) =~= km.salt);
    assert(s.subrange(32, s.len() as int) =~= km.wrapped);
    assert(KeyFlags::of_kk((s[3] % 4) as u8) == Ok::<KeyFlags, CryptoError>(km.key_flags));
    assert(CipherMode::of_wire(s[8]) == Ok::<CipherMode, CryptoError>(km.cipher));
}

} // verus!
