//! Rotation of the stream key.
//!
//! The connection counts packets, asks for a fresh key ahead of time, announces
//! it, and switches to it once the peer has confirmed it. It makes no random
//! bytes itself: it raises [`Event::KeyRefreshNeeded`], and the embedder answers
//! with [`Connection::provide_rekey`].

use crate::buffer;
use crate::connection::event::Event;
use crate::connection::model;
use crate::connection::model::ConnView;
use crate::connection::model::{EXT_KMREQ, EXT_KMRSP, KM_REFRESH_DEFAULT, MAX_KM_RETRIES};
use crate::connection::Connection;
use crate::control::{ControlBody, ControlType};
use crate::crypto::cipher;
use crate::crypto::key_material::KeyMaterial;
use crate::crypto::{SessionKeys, UnwrappedKm};
use crate::time::Instant;
use crate::wire;
use bytes::Bytes;
use vstd::prelude::*;

verus! {

impl Connection {
    /// Packets that are sent with one key.
    fn km_refresh(&self) -> (r: u32)
        ensures
            r == self@.km_refresh(),
            r > 0,
    {
        proof {
            reveal(Connection::state_view);
        }
        if self.config.km_refresh_rate == 0 {
            KM_REFRESH_DEFAULT
        } else {
            self.config.km_refresh_rate
        }
    }

    /// How far ahead the next key is announced: a quarter of a key's packets.
    fn km_preannounce(&self) -> (r: u32)
        ensures
            r == self@.km_preannounce(),
            r <= self@.km_refresh(),
    {
        let quarter: u32 = self.km_refresh() / 4;
        if quarter > 1 {
            quarter
        } else {
            1
        }
    }

    /// Before an encrypted packet: counts it, rotates the key if the next one is
    /// confirmed and it is time, and asks for the next one ahead of that. A late
    /// rotation is better than a stream that the peer cannot decrypt.
    pub(crate) fn account_key_and_maybe_rotate(&mut self)
        requires
            old(self).wf(),
        ensures
            final(self).wf(),
            final(self)@ == old(self)@.accounted(),
    {
        proof {
            reveal(model::keys_ok);
            reveal(ConnView::rotated);
            reveal(ConnView::accounted);
            reveal(Connection::state_view);
        }
        if self.crypto.is_none() {
            return;
        }
        let refresh: u32 = self.km_refresh();
        let announce_at: u32 = refresh - self.km_preannounce();
        if self.next_key_ready && self.packets_on_key >= refresh {
            if let Some(crypto) = &mut self.crypto {
                let next = crypto.next_flags();
                crypto.activate(next);
            }
            self.packets_on_key = 0;
            self.next_key_ready = false;
            assert(self@ =~= old(self)@.rotated());
        }
        self.packets_on_key = self.packets_on_key.saturating_add(1);
        if !self.rekey_pending && !self.next_key_ready && self.pending_km.is_none()
            && self.packets_on_key >= announce_at {
            if let Some(enc) = &self.config.encryption {
                let key_size: usize = enc.key_size.bytes();
                self.rekey_pending = true;
                self.push_event(Event::KeyRefreshNeeded { key_size });
            }
        }
    }

    /// Takes the fresh key that [`Event::KeyRefreshNeeded`] asked for, installs it
    /// as the next key and announces it. A key that was not asked for is ignored.
    /// Whoever knows the passphrase gets the key out of its announcement.
    pub fn provide_rekey(&mut self, sek: &[u8], now: Instant)
        requires
            old(self).wf(),
            old(self)@.rekey_pending ==> cipher::valid_key_len(sek@.len() as int),
        ensures
            final(self).wf(),
            final(self)@ == old(self)@.rekeyed(sek@, now@),
            old(self)@.rekey_pending && old(self)@.config.encryption is Some && old(
                self,
            )@.crypto is Some ==> model::announcement_opens(
                old(self)@.config.encryption->0.passphrase,
                old(self)@.crypto->0.next_flags(),
                old(self)@.crypto->0.next_keys(sek@),
            ),
    {
        proof {
            reveal(model::keys_ok);
            reveal(ConnView::next_km);
            reveal(ConnView::rekeyed);
            reveal(Connection::state_view);
        }
        if !self.rekey_pending {
            return;
        }
        let ghost before = self@;
        let km_bytes = match (&self.config.encryption, &mut self.crypto) {
            (Some(enc), Some(crypto)) => {
                let salt = match crypto.salt() {
                    Some(salt) => salt,
                    None => {
                        return;
                    },
                };
                let next = crypto.next_flags();
                let (keys, km) = SessionKeys::from_raw(
                    enc.passphrase.as_slice(),
                    next,
                    crypto.mode(),
                    salt,
                    sek,
                );
                crypto.install(next, keys);
                let mut buf = buffer::buf_new();
                km.encode(&mut buf);
                let bytes = buffer::freeze(buf);
                assert(buffer::bytes_seq(bytes) =~= before.next_km(sek@));
                bytes
            },
            _ => {
                return;
            },
        };
        let bytes = self.km_control(EXT_KMREQ, km_bytes.clone(), now);
        self.rekey_pending = false;
        self.pending_km = Some(km_bytes);
        self.km_retries = 0;
        self.emit(bytes, now);
    }

    /// Takes the peer's confirmation: it echoes the announcement. Only now may
    /// the rotation switch to the key.
    pub(crate) fn on_km_rsp(&mut self, cif: &[u8])
        requires
            old(self).wf(),
        ensures
            final(self).wf(),
            final(self)@ == old(self)@.km_confirmed(cif@),
    {
        proof {
            reveal(model::keys_ok);
            reveal(ConnView::km_confirmed);
            reveal(Connection::state_view);
        }
        let confirmed = match &self.pending_km {
            Some(km) => wire::same_bytes(buffer::as_slice(km), cif),
            None => false,
        };
        if confirmed {
            self.pending_km = None;
            self.next_key_ready = true;
        }
    }

    /// Announces an unconfirmed key again. Control packets are not retransmitted
    /// by themselves. After enough tries the key is given up, and the old one
    /// stays in use.
    pub(crate) fn resend_pending_km(&mut self, now: Instant)
        requires
            old(self).wf(),
        ensures
            final(self).wf(),
            final(self)@ == old(self)@.km_resent(now@),
    {
        proof {
            reveal(ConnView::km_resent);
            reveal(Connection::state_view);
        }
        let km = match &self.pending_km {
            Some(km) => km.clone(),
            None => {
                return;
            },
        };
        if self.km_retries >= MAX_KM_RETRIES {
            proof {
                reveal(model::keys_ok);
            }
            self.pending_km = None;
            return;
        }
        let bytes = self.km_control(EXT_KMREQ, km, now);
        self.km_retries = self.km_retries + 1;
        self.emit(bytes, now);
    }

    /// Takes the peer's announcement: installs the key and confirms it.
    pub(crate) fn on_km_req(&mut self, cif: &[u8], now: Instant)
        requires
            old(self).wf(),
        ensures
            final(self).wf(),
            final(self)@ == old(self)@.km_requested(cif@, now@),
    {
        proof {
            reveal(model::keys_ok);
            reveal(ConnView::km_requested);
            reveal(Connection::state_view);
        }
        match (&self.config.encryption, &mut self.crypto) {
            (Some(enc), Some(crypto)) => {
                let km = match KeyMaterial::decode(cif) {
                    Ok(km) => km,
                    Err(_) => {
                        return;
                    },
                };
                let slots = match UnwrappedKm::from_key_material(&km, enc.passphrase.as_slice()) {
                    Ok(slots) => slots,
                    Err(_) => {
                        return;
                    },
                };
                crypto.install_slots(slots);
            },
            _ => {
                return;
            },
        }
        let bytes = self.km_control(EXT_KMRSP, buffer::copy_from_slice(cif), now);
        self.emit(bytes, now);
    }

    /// Puts key material in a control datagram.
    fn km_control(&self, subtype: u16, km: Bytes, now: Instant) -> (r: Bytes)
        ensures
            buffer::bytes_seq(r) == self@.km_control(subtype, buffer::bytes_seq(km), now@),
    {
        self.control(
            ControlBody::Raw {
                control_type: ControlType::UserDefined,
                subtype,
                type_specific: 0,
                cif: km,
            },
            now,
        )
    }
}

} // verus!
