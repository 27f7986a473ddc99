//! Forward error correction: row parity over groups of data packets.
//!
//! The sender XORs the members of a group (their payload lengths, key flags,
//! timestamps and zero-padded payloads) into one *parity* packet. If one member
//! is lost, XORing the parity with the members that did arrive rebuilds it.
//!
//! A parity packet travels as a data packet with message number 0. It shares the
//! sequence number of the last member of its group, is not encrypted, carries the
//! XOR of the timestamps in its timestamp field, and as its payload an index byte
//! (-1 for a row), the XOR of the flags, the XOR of the lengths and the XOR of the
//! payloads.

use crate::buffer;
use crate::seq::SeqNumber;
use crate::wire;
use bytes::Bytes;
use std::collections::BTreeMap;
use vstd::prelude::*;
use vstd::slice::{slice_subrange, slice_to_vec};

verus! {

/// The index byte of a row group.
pub const ROW_INDEX: i8 = -1;

/// Size of the header in a parity packet's payload.
pub const FEC_HEADER: usize = 4;

/// How many groups of history the receiver keeps.
pub const RCV_HISTORY_GROUPS: usize = 8;

/// The fields of a packet that take part in forward error correction, or the XOR
/// of such fields.
#[verifier::ext_equal]
pub struct FecFields {
    /// Payload length.
    pub length: u16,
    /// Key flags.
    pub flags: u8,
    /// Timestamp.
    pub timestamp: u32,
    /// Payload.
    pub payload: Seq<u8>,
}

/// `a` with the bytes of `b` XORed into its front.
pub open spec fn mix(a: Seq<u8>, b: Seq<u8>) -> Seq<u8> {
    Seq::new(
        a.len(),
        |i: int|
            if i < b.len() {
                a[i] ^ b[i]
            } else {
                a[i]
            },
    )
}

/// `s` cut or zero-padded to `n` bytes.
pub open spec fn resized(s: Seq<u8>, n: nat) -> Seq<u8> {
    Seq::new(
        n,
        |i: int|
            if i < s.len() {
                s[i]
            } else {
                0
            },
    )
}

impl FecFields {
    /// All zero, with a payload of `n` bytes.
    pub open spec fn zero(n: nat) -> FecFields {
        FecFields { length: 0, flags: 0, timestamp: 0, payload: Seq::new(n, |i: int| 0u8) }
    }

    /// `data` XORed into `self`; payload bytes beyond the size of `self` are left
    /// out.
    pub open spec fn added(self, data: FecFields) -> FecFields {
        FecFields {
            length: self.length ^ data.length,
            flags: self.flags ^ data.flags,
            timestamp: self.timestamp ^ data.timestamp,
            payload: mix(self.payload, data.payload),
        }
    }

    /// All of `members` XORed into `self`.
    pub open spec fn added_all(self, members: Seq<FecFields>) -> FecFields
        decreases members.len(),
    {
        if members.len() == 0 {
            self
        } else {
            self.added_all(members.drop_last()).added(members.last())
        }
    }
}

/// The missing member of a group, from its parity and the other members; `None`
/// unless exactly one member is missing.
pub open spec fn recovered(
    group_size: int,
    payload_size: nat,
    parity: FecFields,
    present: Seq<FecFields>,
) -> Option<FecFields> {
    if present.len() != (if group_size > 0 {
        group_size - 1
    } else {
        0
    }) {
        None
    } else {
        let start = FecFields { payload: resized(parity.payload, payload_size), ..parity };
        let sum = start.added_all(present);
        Some(
            FecFields {
                payload: if sum.length < payload_size {
                    sum.payload.take(sum.length as int)
                } else {
                    sum.payload
                },
                ..sum
            },
        )
    }
}

/// The fields of one packet.
#[derive(Debug, Clone, Copy)]
pub struct FecData<'a> {
    /// Payload length on the wire.
    pub length: u16,
    /// Key flags.
    pub flags: u8,
    /// Timestamp.
    pub timestamp: u32,
    /// Payload.
    pub payload: &'a [u8],
}

impl<'a> View for FecData<'a> {
    type V = FecFields;

    open spec fn view(&self) -> FecFields {
        FecFields {
            length: self.length,
            flags: self.flags,
            timestamp: self.timestamp,
            payload: self.payload@,
        }
    }
}

/// The XOR of a group's members.
#[derive(Debug, Clone, PartialEq, Eq)]
pub struct FecParity {
    /// XOR of the payload lengths.
    pub length_clip: u16,
    /// XOR of the key flags.
    pub flag_clip: u8,
    /// XOR of the timestamps.
    pub timestamp_clip: u32,
    /// XOR of the zero-padded payloads.
    pub payload_clip: Vec<u8>,
}

impl View for FecParity {
    type V = FecFields;

    open spec fn view(&self) -> FecFields {
        FecFields {
            length: self.length_clip,
            flags: self.flag_clip,
            timestamp: self.timestamp_clip,
            payload: self.payload_clip@,
        }
    }
}

/// A rebuilt packet.
#[derive(Debug, Clone, PartialEq, Eq)]
pub struct Recovered {
    /// Payload length.
    pub length: u16,
    /// Key flags.
    pub flags: u8,
    /// Timestamp.
    pub timestamp: u32,
    /// Payload, trimmed to its length.
    pub payload: Vec<u8>,
}

impl View for Recovered {
    type V = FecFields;

    open spec fn view(&self) -> FecFields {
        FecFields {
            length: self.length,
            flags: self.flags,
            timestamp: self.timestamp,
            payload: self.payload@,
        }
    }
}

/// The running XOR of one group.
#[derive(Debug, Clone)]
struct Clip {
    length: u16,
    flags: u8,
    timestamp: u32,
    payload: Vec<u8>,
}

impl View for Clip {
    type V = FecFields;

    closed spec fn view(&self) -> FecFields {
        FecFields {
            length: self.length,
            flags: self.flags,
            timestamp: self.timestamp,
            payload: self.payload@,
        }
    }
}

/// `n` zero bytes.
fn zeros(n: usize) -> (r: Vec<u8>)
    ensures
        r@ == Seq::new(n as nat, |i: int| 0u8),
{
    let mut r: Vec<u8> = Vec::new();
    r.resize(n, 0);
    assert(r@ =~= Seq::new(n as nat, |i: int| 0u8));
    r
}

impl Clip {
    fn new(payload_size: usize) -> (r: Self)
        ensures
            r@ == FecFields::zero(payload_size as nat),
    {
        Clip { length: 0, flags: 0, timestamp: 0, payload: zeros(payload_size) }
    }

    /// XORs one packet into the sum.
    fn add(&mut self, data: FecData<'_>)
        ensures
            final(self)@ == old(self)@.added(data@),
    {
        let ghost before = self@;
        self.length = self.length ^ data.length;
        self.flags = self.flags ^ data.flags;
        self.timestamp = self.timestamp ^ data.timestamp;
        let n: usize = self.payload.len();
        let mut i: usize = 0;
        while i < n && i < data.payload.len()
            invariant
                n == before.payload.len(),
                self.payload@.len() == n,
                i <= n,
                i <= data.payload@.len(),
                self.length == before.length ^ data.length,
                self.flags == before.flags ^ data.flags,
                self.timestamp == before.timestamp ^ data.timestamp,
                forall|k: int|
                    0 <= k < n ==> (#[trigger] self.payload@[k]) == (if k < i {
                        before.payload[k] ^ data.payload@[k]
                    } else {
                        before.payload[k]
                    }),
            decreases n - i,
        {
            let mixed: u8 = self.payload[i] ^ data.payload[i];
            self.payload.set(i, mixed);
            i += 1;
        }
        assert(self.payload@ =~= mix(before.payload, data.payload@));
    }

    fn parity(&self) -> (r: FecParity)
        ensures
            r@ == self@,
    {
        FecParity {
            length_clip: self.length,
            flag_clip: self.flags,
            timestamp_clip: self.timestamp,
            payload_clip: slice_to_vec(self.payload.as_slice()),
        }
    }

    /// Clears the sum for the next group.
    fn reset(&mut self)
        ensures
            final(self)@ == FecFields::zero(old(self)@.payload.len()),
    {
        let n: usize = self.payload.len();
        self.length = 0;
        self.flags = 0;
        self.timestamp = 0;
        self.payload = zeros(n);
    }
}

/// What a [`FecEncoder`] holds.
#[verifier::ext_equal]
pub struct FecEncoderView {
    /// Packets per group.
    pub group_size: int,
    /// XOR of the members so far.
    pub clip: FecFields,
    /// Number of members so far.
    pub collected: int,
}

impl FecEncoderView {
    /// At least two packets per group, and the current group is not full.
    pub open spec fn wf(self) -> bool {
        2 <= self.group_size <= usize::MAX && 0 <= self.collected < self.group_size
    }

    /// The encoder after one more packet.
    pub open spec fn fed(self, data: FecFields) -> FecEncoderView {
        if self.collected + 1 == self.group_size {
            FecEncoderView {
                clip: FecFields::zero(self.clip.payload.len()),
                collected: 0,
                ..self
            }
        } else {
            FecEncoderView {
                clip: self.clip.added(data),
                collected: self.collected + 1,
                ..self
            }
        }
    }

    /// The parity that one more packet completes.
    pub open spec fn completes(self, data: FecFields) -> Option<FecFields> {
        if self.collected + 1 == self.group_size {
            Some(self.clip.added(data))
        } else {
            None
        }
    }
}

/// Generates one parity per group of consecutive packets.
#[derive(Debug, Clone)]
pub struct FecEncoder {
    group_size: usize,
    clip: Clip,
    collected: usize,
}

impl View for FecEncoder {
    type V = FecEncoderView;

    closed spec fn view(&self) -> FecEncoderView {
        FecEncoderView {
            group_size: self.group_size as int,
            clip: self.clip@,
            collected: self.collected as int,
        }
    }
}

/// A group size of at least two.
pub open spec fn effective_group(group_size: usize) -> int {
    if group_size < 2 {
        2
    } else {
        group_size as int
    }
}

impl FecEncoder {
    /// An encoder for groups of `group_size` packets whose payloads count up to
    /// `payload_size` bytes.
    pub fn new(group_size: usize, payload_size: usize) -> (r: Self)
        ensures
            r@ == (FecEncoderView {
                group_size: effective_group(group_size),
                clip: FecFields::zero(payload_size as nat),
                collected: 0,
            }),
            r@.wf(),
    {
        FecEncoder {
            group_size: if group_size < 2 {
                2
            } else {
                group_size
            },
            clip: Clip::new(payload_size),
            collected: 0,
        }
    }

    /// Adds one packet. Returns the parity once the group is full, after which
    /// the next packet begins a new group.
    pub fn feed(&mut self, data: FecData<'_>) -> (r: Option<FecParity>)
        requires
            old(self)@.wf(),
        ensures
            final(self)@.wf(),
            final(self)@ == old(self)@.fed(data@),
            match r {
                Some(parity) => old(self)@.completes(data@) == Some(parity@),
                None => old(self)@.completes(data@) is None,
            },
    {
        self.clip.add(data);
        self.collected = self.collected + 1;
        if self.collected == self.group_size {
            let parity = self.clip.parity();
            self.clip.reset();
            self.collected = 0;
            Some(parity)
        } else {
            None
        }
    }
}

/// The views of a sequence of packets.
pub open spec fn data_views<'a>(present: Seq<FecData<'a>>) -> Seq<FecFields> {
    present.map_values(|d: FecData<'a>| d@)
}

/// Rebuilds the missing member of a group from its parity and the members that
/// arrived. `None` unless exactly one member is missing.
pub fn recover_row(
    group_size: usize,
    payload_size: usize,
    parity: &FecParity,
    present: &[FecData<'_>],
) -> (r: Option<Recovered>)
    ensures
        match r {
            Some(rec) => recovered(
                group_size as int,
                payload_size as nat,
                parity@,
                data_views(present@),
            ) == Some(rec@),
            None => recovered(
                group_size as int,
                payload_size as nat,
                parity@,
                data_views(present@),
            ) is None,
        },
{
    let others: usize = if group_size > 0 {
        group_size - 1
    } else {
        0
    };
    if present.len() != others {
        return None;
    }
    let mut payload = slice_to_vec(parity.payload_clip.as_slice());
    payload.resize(payload_size, 0);
    assert(payload@ =~= resized(parity.payload_clip@, payload_size as nat));
    let mut clip = Clip {
        length: parity.length_clip,
        flags: parity.flag_clip,
        timestamp: parity.timestamp_clip,
        payload,
    };
    let ghost start = clip@;
    let ghost views = data_views(present@);
    let mut i: usize = 0;
    assert(views.take(0) =~= Seq::<FecFields>::empty());
    while i < present.len()
        invariant
            i <= present@.len(),
            views == data_views(present@),
            clip@ == start.added_all(views.take(i as int)),
            clip@.payload.len() == payload_size,
        decreases present@.len() - i,
    {
        proof {
            assert(views.take(i + 1).drop_last() =~= views.take(i as int));
            assert(views.take(i + 1).last() == views[i as int]);
        }
        clip.add(present[i]);
        i += 1;
    }
    assert(views.take(i as int) =~= views);
    let ghost sum = clip@;
    if (clip.length as usize) < payload_size {
        clip.payload.truncate(clip.length as usize);
        assert(clip.payload@ =~= sum.payload.take(sum.length as int));
    }
    Some(
        Recovered {
            length: clip.length,
            flags: clip.flags,
            timestamp: clip.timestamp,
            payload: clip.payload,
        },
    )
}

/// The byte that stands for a signed group index.
pub open spec fn index_byte(index: i8) -> u8 {
    if index < 0 {
        (index + 256) as u8
    } else {
        index as u8
    }
}

/// The signed group index that a byte stands for.
pub open spec fn byte_index(byte: u8) -> i8 {
    if byte >= 128 {
        (byte - 256) as i8
    } else {
        byte as i8
    }
}

/// The payload of a parity packet.
pub open spec fn parity_bytes(parity: FecFields, index: i8) -> Seq<u8> {
    seq![index_byte(index), parity.flags] + wire::be16(parity.length) + parity.payload
}

/// The group index and the parity in a payload.
pub open spec fn parity_of(payload: Seq<u8>, timestamp: u32) -> Option<(i8, FecFields)> {
    if payload.len() < FEC_HEADER {
        None
    } else {
        Some(
            (
                byte_index(payload[0]),
                FecFields {
                    length: wire::read16(payload, 2),
                    flags: payload[1],
                    timestamp,
                    payload: payload.skip(4),
                },
            ),
        )
    }
}

impl FecParity {
    /// The payload that carries the parity. The XOR of the timestamps is not in
    /// it: it travels in the packet's timestamp field.
    #[must_use]
    pub fn encode(&self, group_index: i8) -> (r: Vec<u8>)
        ensures
            r@ == parity_bytes(self@, group_index),
    {
        let index: u8 = if group_index < 0 {
            (group_index as i16 + 256) as u8
        } else {
            group_index as u8
        };
        let mut out: Vec<u8> = Vec::new();
        out.push(index);
        out.push(self.flag_clip);
        out.push((self.length_clip / 256) as u8);
        out.push((self.length_clip % 256) as u8);
        let mut i: usize = 0;
        while i < self.payload_clip.len()
            invariant
                i <= self.payload_clip@.len(),
                out@ =~= seq![index_byte(group_index), self.flag_clip] + wire::be16(
                    self.length_clip,
                ) + self.payload_clip@.take(i as int),
            decreases self.payload_clip@.len() - i,
        {
            out.push(self.payload_clip[i]);
            i += 1;
        }
        assert(self.payload_clip@.take(i as int) =~= self.payload_clip@);
        out
    }
}

/// Parses the payload of a parity packet; `None` if it is too short for the
/// header.
#[must_use]
pub fn decode_parity(payload: &[u8], timestamp_clip: u32) -> (r: Option<(i8, FecParity)>)
    ensures
        match r {
            Some((index, parity)) => parity_of(payload@, timestamp_clip) == Some((index, parity@)),
            None => parity_of(payload@, timestamp_clip) is None,
        },
{
    if payload.len() < FEC_HEADER {
        return None;
    }
    let byte: u8 = payload[0];
    let index: i8 = if byte >= 128 {
        (byte as i16 - 256) as i8
    } else {
        byte as i8
    };
    let rest = slice_subrange(payload, FEC_HEADER, payload.len());
    assert(rest@ =~= payload@.skip(4));
    let parity = FecParity {
        length_clip: wire::get_u16(payload, 2),
        flag_clip: payload[1],
        timestamp_clip,
        payload_clip: slice_to_vec(rest),
    };
    Some((index, parity))
}

/// A packet rebuilt by the receiver. The payload is the wire payload, still
/// encrypted on an encrypted connection.
#[derive(Debug, Clone, PartialEq, Eq)]
pub struct RecoveredPacket {
    /// Sequence number.
    pub seq: SeqNumber,
    /// Timestamp.
    pub timestamp: u32,
    /// Key flags, as wire bits.
    pub flags: u8,
    /// Wire payload.
    pub payload: Bytes,
}

/// What a [`RecoveredPacket`] holds.
#[verifier::ext_equal]
pub struct RecoveredView {
    /// Sequence number.
    pub seq: u32,
    /// Timestamp.
    pub timestamp: u32,
    /// Key flags.
    pub flags: u8,
    /// Wire payload.
    pub payload: Seq<u8>,
}

impl View for RecoveredPacket {
    type V = RecoveredView;

    open spec fn view(&self) -> RecoveredView {
        RecoveredView {
            seq: self.seq@,
            timestamp: self.timestamp,
            flags: self.flags,
            payload: buffer::bytes_seq(self.payload),
        }
    }
}

/// The views of a sequence of rebuilt packets.
pub open spec fn recovered_views(s: Seq<RecoveredPacket>) -> Seq<RecoveredView> {
    s.map_values(|p: RecoveredPacket| p@)
}

#[derive(Debug)]
struct StoredData {
    length: u16,
    flags: u8,
    timestamp: u32,
    payload: Bytes,
}

impl View for StoredData {
    type V = FecFields;

    closed spec fn view(&self) -> FecFields {
        FecFields {
            length: self.length,
            flags: self.flags,
            timestamp: self.timestamp,
            payload: buffer::bytes_seq(self.payload),
        }
    }
}

/// The members among the `n` sequence numbers from `base` on that were received.
pub open spec fn members(data: Map<u32, FecFields>, base: u32, n: nat) -> Seq<FecFields>
    decreases n,
{
    if n == 0 {
        Seq::empty()
    } else {
        let rest = members(data, base, (n - 1) as nat);
        let k = crate::seq::seq_add(base, n - 1);
        if data.contains_key(k) {
            rest.push(data[k])
        } else {
            rest
        }
    }
}

/// The sequence numbers among the `n` from `base` on that are missing.
pub open spec fn absent(data: Map<u32, FecFields>, base: u32, n: nat) -> Seq<u32>
    decreases n,
{
    if n == 0 {
        Seq::empty()
    } else {
        let rest = absent(data, base, (n - 1) as nat);
        let k = crate::seq::seq_add(base, n - 1);
        if data.contains_key(k) {
            rest
        } else {
            rest.push(k)
        }
    }
}

/// The newer of the newest number seen so far, if any, and `seen`.
pub open spec fn newer(newest: Option<u32>, seen: u32) -> u32 {
    match newest {
        Some(n) => if crate::seq::seq_offset(seen, n) > 0 {
            seen
        } else {
            n
        },
        None => seen,
    }
}

/// The entries that are fewer than `window` numbers behind `newest`.
pub open spec fn recent(m: Map<u32, FecFields>, newest: u32, window: int) -> Map<u32, FecFields> {
    m.restrict(Set::new(|k: u32| crate::seq::seq_offset(newest, k) < window))
}

/// What a [`FecReceiver`] holds.
#[verifier::ext_equal]
pub struct FecReceiverView {
    /// Packets per group.
    pub group_size: int,
    /// Largest payload that counts.
    pub payload_size: nat,
    /// Recent packets by sequence number.
    pub data: Map<u32, FecFields>,
    /// Parities not used yet, by the first sequence number of their group.
    pub parities: Map<u32, FecFields>,
    /// The newest sequence number seen.
    pub newest: Option<u32>,
}

impl FecReceiverView {
    /// At least two packets per group, and 31-bit keys.
    pub open spec fn wf(self) -> bool {
        &&& 2 <= self.group_size <= usize::MAX
        &&& forall|k: u32| #[trigger] self.data.contains_key(k) ==> k < 0x8000_0000
        &&& forall|k: u32| #[trigger] self.parities.contains_key(k) ==> k < 0x8000_0000
    }

    /// The member that the group beginning at `base` lacks, if it is the only one
    /// and the parity is there.
    pub open spec fn rebuilt(self, base: u32) -> Option<RecoveredView> {
        let lost = absent(self.data, base, self.group_size as nat);
        let rec = recovered(
            self.group_size,
            self.payload_size,
            self.parities[base],
            members(self.data, base, self.group_size as nat),
        );
        if self.parities.contains_key(base) && lost.len() == 1 && rec is Some {
            Some(
                RecoveredView {
                    seq: lost[0],
                    timestamp: rec->0.timestamp,
                    flags: rec->0.flags,
                    payload: rec->0.payload,
                },
            )
        } else {
            None
        }
    }

    /// The state after trying the group beginning at `base`: a rebuilt member
    /// takes the place of the parity it came from.
    pub open spec fn tried(self, base: u32) -> FecReceiverView {
        let lost = absent(self.data, base, self.group_size as nat);
        let rec = recovered(
            self.group_size,
            self.payload_size,
            self.parities[base],
            members(self.data, base, self.group_size as nat),
        );
        if self.rebuilt(base) is Some {
            FecReceiverView {
                data: self.data.insert(lost[0], rec->0),
                parities: self.parities.remove(base),
                ..self
            }
        } else {
            self
        }
    }

    /// The state after trying the `n` groups that begin at `base` and before.
    pub open spec fn tried_all(self, base: u32, n: nat) -> FecReceiverView
        decreases n,
    {
        if n == 0 {
            self
        } else {
            self.tried_all(base, (n - 1) as nat).tried(crate::seq::seq_add(base, 1 - n))
        }
    }

    /// The members rebuilt by trying the `n` groups that begin at `base` and
    /// before.
    pub open spec fn rebuilt_all(self, base: u32, n: nat) -> Seq<RecoveredView>
        decreases n,
    {
        if n == 0 {
            Seq::empty()
        } else {
            let rest = self.rebuilt_all(base, (n - 1) as nat);
            match self.tried_all(base, (n - 1) as nat).rebuilt(crate::seq::seq_add(base, 1 - n)) {
                Some(p) => rest.push(p),
                None => rest,
            }
        }
    }

    /// How far behind the newest packet history is kept.
    pub open spec fn window(self) -> int {
        if self.group_size * 8 > i32::MAX {
            i32::MAX as int
        } else {
            self.group_size * 8
        }
    }

    /// The state once `seen` counts among the numbers seen, without entries too
    /// far behind the newest of these.
    pub open spec fn evicted(self, seen: u32) -> FecReceiverView {
        let newest = newer(self.newest, seen);
        FecReceiverView {
            data: recent(self.data, newest, self.window()),
            parities: recent(self.parities, newest, self.window()),
            newest: Some(newest),
            ..self
        }
    }

    /// The state with a data packet stored.
    pub open spec fn stored(self, seq: u32, fields: FecFields) -> FecReceiverView {
        FecReceiverView { data: self.data.insert(seq, fields), ..self }
    }

    /// The state after a data packet.
    pub open spec fn after_data(self, seq: u32, fields: FecFields) -> FecReceiverView {
        self.stored(seq, fields).tried_all(seq, self.group_size as nat).evicted(seq)
    }

    /// The members that a data packet lets the receiver rebuild.
    pub open spec fn from_data(self, seq: u32, fields: FecFields) -> Seq<RecoveredView> {
        self.stored(seq, fields).rebuilt_all(seq, self.group_size as nat)
    }

    /// The first sequence number of the group whose parity travels at `seq`.
    pub open spec fn group_base(self, seq: u32) -> u32 {
        crate::seq::seq_add(seq, 1 - self.group_size)
    }

    /// The state with a parity stored.
    pub open spec fn with_parity(self, seq: u32, parity: FecFields) -> FecReceiverView {
        FecReceiverView { parities: self.parities.insert(self.group_base(seq), parity), ..self }
    }

    /// The state after a parity packet. A parity that is malformed or not of a
    /// row changes nothing.
    pub open spec fn after_parity(self, seq: u32, payload: Seq<u8>, timestamp: u32) -> FecReceiverView {
        match parity_of(payload, timestamp) {
            Some((index, parity)) => if index == ROW_INDEX {
                self.with_parity(seq, parity).tried(self.group_base(seq)).evicted(seq)
            } else {
                self
            },
            None => self,
        }
    }

    /// The members that a parity packet lets the receiver rebuild.
    pub open spec fn from_parity(self, seq: u32, payload: Seq<u8>, timestamp: u32) -> Seq<
        RecoveredView,
    > {
        match parity_of(payload, timestamp) {
            Some((index, parity)) => if index == ROW_INDEX {
                match self.with_parity(seq, parity).rebuilt(self.group_base(seq)) {
                    Some(p) => seq![p],
                    None => Seq::empty(),
                }
            } else {
                Seq::empty()
            },
            None => Seq::empty(),
        }
    }
}

/// The receiver's side: it watches data and parity packets and rebuilds the
/// missing member of a group as soon as it is the only one.
#[derive(Debug)]
pub struct FecReceiver {
    group_size: usize,
    payload_size: usize,
    data: BTreeMap<u32, StoredData>,
    parities: BTreeMap<u32, FecParity>,
    newest: Option<SeqNumber>,
}

impl View for FecReceiver {
    type V = FecReceiverView;

    closed spec fn view(&self) -> FecReceiverView {
        FecReceiverView {
            group_size: self.group_size as int,
            payload_size: self.payload_size as nat,
            data: self.data@.map_values(|d: StoredData| d@),
            parities: self.parities@.map_values(|p: FecParity| p@),
            newest: match self.newest {
                Some(n) => Some(n@),
                None => None,
            },
        }
    }
}

/// Removes the entries that are `window` numbers or more behind `newest`.
fn retain_recent<V>(map: &mut BTreeMap<u32, V>, newest: SeqNumber, window: i32)
    requires
        forall|k: u32| #[trigger] old(map)@.contains_key(k) ==> k < 0x8000_0000,
    ensures
        final(map)@ == old(map)@.restrict(
            Set::new(|k: u32| crate::seq::seq_offset(newest@, k) < window),
        ),
{
    let ghost before = map@;
    let mut keys: Vec<u32> = Vec::new();
    for k in it: map.keys()
        invariant
            it.seq().unref().to_set() == before.dom(),
            keys@ =~= it.seq().unref().take(it.index()),
            it.index() == it.seq().len() ==> keys@ == it.seq().unref(),
    {
        keys.push(*k);
        assert(it.index() + 1 == it.seq().len() ==> keys@ =~= it.seq().unref());
    }
    assert(keys@.to_set() == before.dom());
    let ghost keep = Set::new(|k: u32| crate::seq::seq_offset(newest@, k) < window);
    let mut i: usize = 0;
    while i < keys.len()
        invariant
            i <= keys@.len(),
            keys@.to_set() == before.dom(),
            forall|k: u32| #[trigger] before.contains_key(k) ==> k < 0x8000_0000,
            keep == Set::new(|k: u32| crate::seq::seq_offset(newest@, k) < window),
            forall|k: u32| #[trigger] map@.contains_key(k) ==> before.contains_key(k) && map@[k] == before[k],
            forall|k: u32|
                #[trigger] before.contains_key(k) && !map@.contains_key(k) ==> !keep.contains(k),
            forall|j: int|
                0 <= j < i && map@.contains_key(#[trigger] keys@[j]) ==> keep.contains(keys@[j]),
        decreases keys@.len() - i,
    {
        let k: u32 = keys[i];
        assert(keys@.to_set().contains(k));
        assert(before.contains_key(k));
        if newest.offset_from(SeqNumber::new(k)) >= window {
            map.remove(&k);
        }
        i += 1;
    }
    proof {
        assert forall|k: u32| map@.contains_key(k) implies keep.contains(k) by {
            assert(keys@.to_set().contains(k));
            let j = choose|j: int| 0 <= j < keys@.len() && keys@[j] == k;
            assert(keys@[j] == k);
        }
        assert(map@ =~= before.restrict(keep));
    }
}

impl FecReceiver {
    /// A receiver for groups of `group_size` packets whose payloads count up to
    /// `payload_size` bytes.
    #[must_use]
    pub fn new(group_size: usize, payload_size: usize) -> (r: Self)
        ensures
            r@ == (FecReceiverView {
                group_size: effective_group(group_size),
                payload_size: payload_size as nat,
                data: Map::empty(),
                parities: Map::empty(),
                newest: None,
            }),
            r@.wf(),
    {
        let r = FecReceiver {
            group_size: if group_size < 2 {
                2
            } else {
                group_size
            },
            payload_size,
            data: BTreeMap::new(),
            parities: BTreeMap::new(),
            newest: None,
        };
        assert(r@.data =~= Map::empty());
        assert(r@.parities =~= Map::empty());
        r
    }

    /// Watches a data packet. A packet that completes a group whose parity came
    /// earlier can lead to a rebuilt member.
    pub fn observe_data(
        &mut self,
        seq: SeqNumber,
        length: u16,
        flags: u8,
        timestamp: u32,
        payload: Bytes,
    ) -> (r: Vec<RecoveredPacket>)
        requires
            old(self)@.wf(),
        ensures
            final(self)@.wf(),
            ({
                let fields = FecFields {
                    length,
                    flags,
                    timestamp,
                    payload: buffer::bytes_seq(payload),
                };
                &&& final(self)@ == old(self)@.after_data(seq@, fields)
                &&& recovered_views(r@) == old(self)@.from_data(seq@, fields)
            }),
    {
        let ghost before = self@;
        let n: u32 = seq.value();
        let entry = StoredData { length, flags, timestamp, payload };
        let ghost fields = entry@;
        self.data.insert(n, entry);
        let ghost start = before.stored(n, fields);
        assert(self@ =~= start);
        let mut out: Vec<RecoveredPacket> = Vec::new();
        assert(recovered_views(out@) =~= Seq::<RecoveredView>::empty());
        let mut base = seq;
        let mut i: usize = 0;
        let group: usize = self.group_size;
        proof {
            crate::seq::lemma_steps(n, 0, 0);
        }
        while i < group
            invariant
                i <= group,
                group == start.group_size,
                n < 0x8000_0000,
                base@ == crate::seq::seq_add(n, -i),
                self@.wf(),
                self@.group_size == group,
                self@.payload_size == start.payload_size,
                self@ == start.tried_all(n, i as nat),
                recovered_views(out@) == start.rebuilt_all(n, i as nat),
            decreases group - i,
        {
            self.try_group(base, &mut out);
            proof {
                crate::seq::lemma_steps(n, -i, -1);
            }
            base = base.prev();
            i += 1;
        }
        self.evict(seq);
        out
    }

    /// Watches a parity packet that travels at `fec_seq`. Parities of other
    /// layouts than rows are ignored.
    pub fn observe_parity(&mut self, fec_seq: SeqNumber, payload: &[u8], timestamp_clip: u32) -> (r:
        Vec<RecoveredPacket>)
        requires
            old(self)@.wf(),
        ensures
            final(self)@.wf(),
            final(self)@ == old(self)@.after_parity(fec_seq@, payload@, timestamp_clip),
            recovered_views(r@) == old(self)@.from_parity(fec_seq@, payload@, timestamp_clip),
    {
        let ghost before = self@;
        let mut out: Vec<RecoveredPacket> = Vec::new();
        assert(recovered_views(out@) =~= Seq::<RecoveredView>::empty());
        let (index, parity) = match decode_parity(payload, timestamp_clip) {
            Some(found) => found,
            None => {
                return out;
            },
        };
        if index != ROW_INDEX {
            return out;
        }
        let n: u32 = fec_seq.value();
        let mut base = fec_seq;
        let mut i: usize = 1;
        proof {
            crate::seq::lemma_steps(n, 0, 0);
        }
        while i < self.group_size
            invariant
                1 <= i <= self.group_size,
                n < 0x8000_0000,
                base@ == crate::seq::seq_add(n, 1 - i),
            decreases self.group_size - i,
        {
            proof {
                crate::seq::lemma_steps(n, 1 - i, -1);
            }
            base = base.prev();
            i += 1;
        }
        let b: u32 = base.value();
        let ghost fields = parity@;
        self.parities.insert(b, parity);
        assert(self@ =~= before.with_parity(n, fields));
        self.try_group(base, &mut out);
        self.evict(fec_seq);
        out
    }

    /// Rebuilds the missing member of the group beginning at `base`, if its
    /// parity is there and no other member is missing.
    fn try_group(&mut self, base: SeqNumber, out: &mut Vec<RecoveredPacket>)
        requires
            old(self)@.wf(),
        ensures
            final(self)@.wf(),
            final(self)@ == old(self)@.tried(base@),
            recovered_views(final(out)@) == (match old(self)@.rebuilt(base@) {
                Some(p) => recovered_views(old(out)@).push(p),
                None => recovered_views(old(out)@),
            }),
    {
        let ghost before = self@;
        let b: u32 = base.value();
        let group: usize = self.group_size;
        let parity = match self.parities.get(&b) {
            Some(parity) => parity,
            None => {
                assert(!before.parities.contains_key(b));
                return;
            },
        };
        assert(before.parities.contains_key(b) && before.parities[b] == parity@);
        let mut present: Vec<FecData<'_>> = Vec::new();
        let mut missing: Option<SeqNumber> = None;
        let mut seq = base;
        let mut i: usize = 0;
        assert(data_views(present@) =~= Seq::<FecFields>::empty());
        proof {
            crate::seq::lemma_steps(b, 0, 0);
        }
        while i < group
            invariant
                i <= group,
                b < 0x8000_0000,
                group == self.group_size,
                before == self@,
                before == old(self)@,
                *out == *old(out),
                b == base@,
                before.parities.contains_key(b),
                before.wf(),
                seq@ == crate::seq::seq_add(b, i as int),
                data_views(present@) == members(before.data, b, i as nat),
                present@.len() == i - absent(before.data, b, i as nat).len(),
                match missing {
                    Some(m) => absent(before.data, b, i as nat) == seq![m@],
                    None => absent(before.data, b, i as nat).len() == 0,
                },
            decreases group - i,
        {
            let k: u32 = seq.value();
            match self.data.get(&k) {
                Some(d) => {
                    assert(before.data.contains_key(k) && before.data[k] == d@);
                    let ghost was = present@;
                    let bytes = buffer::as_slice(&d.payload);
                    let fields = FecData {
                        length: d.length,
                        flags: d.flags,
                        timestamp: d.timestamp,
                        payload: bytes,
                    };
                    assert(fields@ =~= d@);
                    present.push(fields);
                    assert(data_views(present@) =~= data_views(was).push(fields@));
                },
                None => {
                    assert(!before.data.contains_key(k));
                    if missing.is_some() {
                        proof {
                            lemma_absent_grows(before.data, b, (i + 1) as nat, group as nat);
                        }
                        return;
                    }
                    missing = Some(seq);
                    assert(absent(before.data, b, (i + 1) as nat) =~= seq![seq@]);
                },
            }
            proof {
                crate::seq::lemma_steps(b, i as int, 1);
            }
            seq = seq.next();
            i += 1;
        }
        let lost = match missing {
            Some(lost) => lost,
            None => {
                return;
            },
        };
        let rec = match recover_row(group, self.payload_size, parity, present.as_slice()) {
            Some(rec) => rec,
            None => {
                return;
            },
        };
        let m: u32 = lost.value();
        let ghost fields = rec@;
        let length: u16 = rec.length;
        let flags: u8 = rec.flags;
        let timestamp: u32 = rec.timestamp;
        let payload = buffer::from_vec(rec.payload);
        let entry = StoredData { length, flags, timestamp, payload: payload.clone() };
        assert(entry@ =~= fields);
        self.parities.remove(&b);
        self.data.insert(m, entry);
        assert(self@.data =~= before.data.insert(m, fields));
        assert(self@.parities =~= before.parities.remove(b));
        let packet = RecoveredPacket { seq: lost, timestamp, flags, payload };
        let ghost was = out@;
        out.push(packet);
        assert(recovered_views(out@) =~= recovered_views(was).push(packet@));
        assert(packet@ =~= before.rebuilt(b)->0);
    }

    /// Takes note of a number seen, and forgets what lies too far behind the
    /// newest one.
    fn evict(&mut self, seen: SeqNumber)
        requires
            old(self)@.wf(),
        ensures
            final(self)@.wf(),
            final(self)@ == old(self)@.evicted(seen@),
    {
        let ghost before = self@;
        let window: i32 = if self.group_size > 0x0FFF_FFFF {
            i32::MAX
        } else {
            (self.group_size * RCV_HISTORY_GROUPS) as i32
        };
        assert(window == before.window());
        assert forall|k: u32| #[trigger] self.data@.contains_key(k) implies k < 0x8000_0000 by {
            assert(before.data.contains_key(k));
        }
        assert forall|k: u32| #[trigger] self.parities@.contains_key(k) implies k < 0x8000_0000 by {
            assert(before.parities.contains_key(k));
        }
        let newest = match self.newest {
            Some(n) => if seen.offset_from(n) > 0 {
                seen
            } else {
                n
            },
            None => seen,
        };
        assert(newest@ == newer(before.newest, seen@));
        retain_recent(&mut self.data, newest, window);
        retain_recent(&mut self.parities, newest, window);
        self.newest = Some(newest);
        assert(self@.data =~= before.evicted(seen@).data);
        assert(self@.parities =~= before.evicted(seen@).parities);
        assert(self@ =~= before.evicted(seen@));
    }
}

/// Looking at more members finds no fewer missing ones.
proof fn lemma_absent_grows(data: Map<u32, FecFields>, base: u32, m: nat, n: nat)
    requires
        m <= n,
    ensures
        absent(data, base, m).len() <= absent(data, base, n).len(),
    decreases n,
{
    if m < n {
        lemma_absent_grows(data, base, m, (n - 1) as nat);
    }
}

proof fn lemma_xor()
    by (bit_vector)
    ensures
        forall|a: u8, b: u8| #[trigger] (a ^ b) ^ b == a,
        forall|a: u16, b: u16| #[trigger] (a ^ b) ^ b == a,
        forall|a: u32, b: u32| #[trigger] (a ^ b) ^ b == a,
        forall|a: u8, b: u8, c: u8| #[trigger] ((a ^ b) ^ c) == (a ^ c) ^ b,
        forall|a: u16, b: u16, c: u16| #[trigger] ((a ^ b) ^ c) == (a ^ c) ^ b,
        forall|a: u32, b: u32, c: u32| #[trigger] ((a ^ b) ^ c) == (a ^ c) ^ b,
{
}

proof fn lemma_xor_zero()
    by (bit_vector)
    ensures
        forall|a: u8| #[trigger] (0u8 ^ a) == a,
        forall|a: u16| #[trigger] (0u16 ^ a) == a,
        forall|a: u32| #[trigger] (0u32 ^ a) == a,
{
}

/// The order of two packets does not matter, and a packet cancels itself.
proof fn lemma_added(c: FecFields, a: FecFields, b: FecFields)
    ensures
        c.added(a).added(b) == c.added(b).added(a),
        c.added(a).added(a) == c,
{
    lemma_xor();
    assert(c.added(a).added(b).payload =~= c.added(b).added(a).payload);
    assert(c.added(a).added(a).payload =~= c.payload);
}

/// A packet can be added before or after the others.
proof fn lemma_added_all_first(c: FecFields, x: FecFields, ms: Seq<FecFields>)
    ensures
        c.added(x).added_all(ms) == c.added_all(ms).added(x),
    decreases ms.len(),
{
    if ms.len() > 0 {
        lemma_added_all_first(c, x, ms.drop_last());
        lemma_added(c.added_all(ms.drop_last()), x, ms.last());
    }
}

/// Adding the same packets twice cancels them.
proof fn lemma_added_all_twice(c: FecFields, ms: Seq<FecFields>)
    ensures
        c.added_all(ms).added_all(ms) == c,
    decreases ms.len(),
{
    if ms.len() > 0 {
        let rest = ms.drop_last();
        let x = ms.last();
        lemma_added_all_twice(c, rest);
        lemma_added_all_first(c.added_all(rest), x, rest);
        lemma_added(c, x, x);
    }
}

/// One of the packets can be taken out and added last.
proof fn lemma_added_all_remove(c: FecFields, ms: Seq<FecFields>, k: int)
    requires
        0 <= k < ms.len(),
    ensures
        c.added_all(ms) == c.added_all(ms.remove(k)).added(ms[k]),
    decreases ms.len(),
{
    let rest = ms.drop_last();
    if k == ms.len() - 1 {
        assert(ms.remove(k) =~= rest);
    } else {
        lemma_added_all_remove(c, rest, k);
        assert(ms.remove(k).drop_last() =~= rest.remove(k));
        assert(ms.remove(k).last() == ms.last());
        lemma_added(c.added_all(rest.remove(k)), ms[k], ms.last());
    }
}

proof fn lemma_sum_size(c: FecFields, ms: Seq<FecFields>)
    ensures
        c.added_all(ms).payload.len() == c.payload.len(),
    decreases ms.len(),
{
    if ms.len() > 0 {
        lemma_sum_size(c, ms.drop_last());
    }
}

/// Whichever member of a group is lost, its parity and the other members rebuild
/// it, provided its payload is as long as its length says and no longer than the
/// size that counts.
pub proof fn law_any_single_loss_is_recovered(group: Seq<FecFields>, payload_size: nat, k: int)
    requires
        0 <= k < group.len(),
        group[k].payload.len() == group[k].length,
        group[k].length <= payload_size,
    ensures
        recovered(
            group.len() as int,
            payload_size,
            FecFields::zero(payload_size).added_all(group),
            group.remove(k),
        ) == Some(group[k]),
{
    let zero = FecFields::zero(payload_size);
    let parity = zero.added_all(group);
    let others = group.remove(k);
    lemma_sum_size(zero, group);
    assert(resized(parity.payload, payload_size) =~= parity.payload);
    lemma_added_all_remove(zero, group, k);
    lemma_added_all_first(zero.added_all(others), group[k], others);
    lemma_added_all_twice(zero, others);
    let sum = zero.added(group[k]);
    assert(parity.added_all(others) == sum);
    lemma_xor_zero();
    assert(sum.length == group[k].length);
    if sum.length < payload_size {
        assert(sum.payload.take(sum.length as int) =~= group[k].payload);
    } else {
        assert(sum.payload =~= group[k].payload);
    }
}

/// Whether of a group that begins at `base` every member but the one at `k` was
/// received.
pub open spec fn lacks_only(
    data: Map<u32, FecFields>,
    base: u32,
    group: Seq<FecFields>,
    k: int,
) -> bool {
    forall|i: int|
        #![trigger crate::seq::seq_add(base, i)]
        0 <= i < group.len() ==> if i == k {
            !data.contains_key(crate::seq::seq_add(base, i))
        } else {
            data.contains_key(crate::seq::seq_add(base, i)) && data[crate::seq::seq_add(base, i)]
                == group[i]
        }
}

proof fn lemma_members(data: Map<u32, FecFields>, base: u32, group: Seq<FecFields>, k: int, n: nat)
    requires
        0 <= k < group.len(),
        n <= group.len(),
        lacks_only(data, base, group, k),
    ensures
        members(data, base, n) == (if n <= k {
            group.take(n as int)
        } else {
            group.take(n as int).remove(k)
        }),
        absent(data, base, n) == (if n <= k {
            Seq::empty()
        } else {
            seq![crate::seq::seq_add(base, k)]
        }),
    decreases n,
{
    if n == 0 {
        assert(group.take(0) =~= Seq::<FecFields>::empty());
    } else {
        let m = n - 1;
        lemma_members(data, base, group, k, m as nat);
        let at = crate::seq::seq_add(base, m);
        assert(data.contains_key(at) <==> m != k);
        if m < k {
            assert(group.take(m).push(group[m]) =~= group.take(n as int));
        } else if m == k {
            assert(group.take(n as int).remove(k) =~= group.take(m));
            assert(absent(data, base, n) =~= seq![at]);
        } else {
            assert(group.take(m).remove(k).push(group[m]) =~= group.take(n as int).remove(k));
        }
    }
}

/// A member of a group as it is put back.
pub open spec fn put_back(seq: u32, fields: FecFields) -> RecoveredView {
    RecoveredView {
        seq,
        timestamp: fields.timestamp,
        flags: fields.flags,
        payload: fields.payload,
    }
}

proof fn lemma_rebuilt(r: FecReceiverView, base: u32, group: Seq<FecFields>, k: int)
    requires
        group.len() == r.group_size,
        0 <= k < group.len(),
        lacks_only(r.data, base, group, k),
        r.parities.contains_key(base),
        r.parities[base] == FecFields::zero(r.payload_size).added_all(group),
        group[k].payload.len() == group[k].length,
        group[k].length <= r.payload_size,
    ensures
        r.rebuilt(base) == Some(put_back(crate::seq::seq_add(base, k), group[k])),
{
    lemma_members(r.data, base, group, k, group.len());
    assert(group.take(group.len() as int) =~= group);
    law_any_single_loss_is_recovered(group, r.payload_size, k);
}

/// Once all members of a group but one have been seen, its parity packet puts
/// exactly the missing one back, whichever it is.
pub proof fn law_parity_puts_the_lost_member_back(
    r: FecReceiverView,
    base: u32,
    group: Seq<FecFields>,
    k: int,
)
    requires
        base < 0x8000_0000,
        group.len() == r.group_size,
        0 <= k < group.len(),
        lacks_only(r.data, base, group, k),
        group[k].payload.len() == group[k].length,
        group[k].length <= r.payload_size,
    ensures
        ({
            let parity = FecFields::zero(r.payload_size).added_all(group);
            r.from_parity(
                crate::seq::seq_add(base, group.len() - 1),
                parity_bytes(parity, ROW_INDEX),
                parity.timestamp,
            ) == seq![put_back(crate::seq::seq_add(base, k), group[k])]
        }),
{
    let parity = FecFields::zero(r.payload_size).added_all(group);
    let last = crate::seq::seq_add(base, group.len() - 1);
    law_parity_round_trips(parity, ROW_INDEX);
    crate::seq::lemma_steps(base, group.len() - 1, 1 - group.len());
    assert(r.group_base(last) == base);
    lemma_rebuilt(r.with_parity(last, parity), base, group, k);
}

proof fn lemma_rebuilt_all(
    r: FecReceiverView,
    base: u32,
    group: Seq<FecFields>,
    j: int,
    k: int,
    n: nat,
)
    requires
        base < 0x8000_0000,
        group.len() == r.group_size,
        0 <= k < group.len(),
        0 <= j < group.len(),
        n <= group.len(),
        lacks_only(r.data, base, group, k),
        r.parities.contains_key(base),
        r.parities[base] == FecFields::zero(r.payload_size).added_all(group),
        forall|i: int|
            #![trigger crate::seq::seq_add(crate::seq::seq_add(base, j), -i)]
            0 <= i < group.len() && i != j ==> !r.parities.contains_key(
                crate::seq::seq_add(crate::seq::seq_add(base, j), -i),
            ),
        group[k].payload.len() == group[k].length,
        group[k].length <= r.payload_size,
    ensures
        r.rebuilt_all(crate::seq::seq_add(base, j), n) == (if n <= j {
            Seq::empty()
        } else {
            seq![put_back(crate::seq::seq_add(base, k), group[k])]
        }),
        r.tried_all(crate::seq::seq_add(base, j), n) == (if n <= j {
            r
        } else {
            r.tried(base)
        }),
    decreases n,
{
    let at = crate::seq::seq_add(base, j);
    if n > 0 {
        let m = n - 1;
        lemma_rebuilt_all(r, base, group, j, k, m as nat);
        crate::seq::lemma_steps(base, j, -m);
        let tried = crate::seq::seq_add(at, -m);
        assert(1 - n == -m);
        if m == j {
            crate::seq::lemma_steps(base, 0, 0);
            assert(tried == base);
            lemma_rebuilt(r, base, group, k);
            assert(r.rebuilt_all(at, n) =~= seq![put_back(crate::seq::seq_add(base, k), group[k])]);
        } else {
            assert(!r.parities.contains_key(tried));
            if m > j {
                assert(!r.tried(base).parities.contains_key(tried));
            }
        }
    }
}

/// Once the parity of a group has been seen, the last member but one to arrive
/// puts exactly the missing one back, as long as no other parity waits for it.
pub proof fn law_late_member_puts_the_lost_one_back(
    r: FecReceiverView,
    base: u32,
    group: Seq<FecFields>,
    j: int,
    k: int,
)
    requires
        base < 0x8000_0000,
        group.len() == r.group_size,
        0 <= k < group.len(),
        0 <= j < group.len(),
        lacks_only(r.data.insert(crate::seq::seq_add(base, j), group[j]), base, group, k),
        r.parities.contains_key(base),
        r.parities[base] == FecFields::zero(r.payload_size).added_all(group),
        forall|i: int|
            #![trigger crate::seq::seq_add(crate::seq::seq_add(base, j), -i)]
            0 <= i < group.len() && i != j ==> !r.parities.contains_key(
                crate::seq::seq_add(crate::seq::seq_add(base, j), -i),
            ),
        group[k].payload.len() == group[k].length,
        group[k].length <= r.payload_size,
    ensures
        r.from_data(crate::seq::seq_add(base, j), group[j]) == seq![
            put_back(crate::seq::seq_add(base, k), group[k]),
        ],
{
    let at = crate::seq::seq_add(base, j);
    lemma_rebuilt_all(r.stored(at, group[j]), base, group, j, k, group.len());
}

impl FecEncoderView {
    /// The encoder after a run of packets.
    pub open spec fn fed_all(self, run: Seq<FecFields>) -> FecEncoderView
        decreases run.len(),
    {
        if run.len() == 0 {
            self
        } else {
            self.fed_all(run.drop_last()).fed(run.last())
        }
    }
}

/// The last packet of a group completes the sum of the whole group, and none
/// before it completes anything.
pub proof fn law_parity_is_the_sum_of_its_group(
    encoder: FecEncoderView,
    payload_size: nat,
    group: Seq<FecFields>,
)
    requires
        encoder.clip == FecFields::zero(payload_size),
        encoder.collected == 0,
        0 < group.len() <= encoder.group_size,
    ensures
        encoder.fed_all(group.drop_last()).completes(group.last()) == (if group.len()
            == encoder.group_size {
            Some(FecFields::zero(payload_size).added_all(group))
        } else {
            None
        }),
{
    lemma_fed_all(encoder, group.drop_last());
}

proof fn lemma_fed_all(encoder: FecEncoderView, run: Seq<FecFields>)
    requires
        encoder.collected == 0,
        run.len() < encoder.group_size,
    ensures
        encoder.fed_all(run) == (FecEncoderView {
            clip: encoder.clip.added_all(run),
            collected: run.len() as int,
            ..encoder
        }),
    decreases run.len(),
{
    if run.len() > 0 {
        lemma_fed_all(encoder, run.drop_last());
    }
}

/// Two losses in one group are not rebuilt.
pub proof fn law_two_losses_are_not_recovered(
    group_size: int,
    payload_size: nat,
    parity: FecFields,
    present: Seq<FecFields>,
)
    requires
        group_size >= 2,
        present.len() + 2 <= group_size,
    ensures
        recovered(group_size, payload_size, parity, present) is None,
{
}

/// A parity survives the trip through its wire payload.
pub proof fn law_parity_round_trips(parity: FecFields, index: i8)
    ensures
        parity_of(parity_bytes(parity, index), parity.timestamp) == Some((index, parity)),
{
    let s = parity_bytes(parity, index);
    assert(s.subrange(2, 4) =~= wire::be16(parity.length));
    wire::lemma_read16_be16(s, 2, parity.length);
    assert(s.skip(4) =~= parity.payload);
}

/// Each group has its own parity: with its last packet the encoder is back where it was
/// before the first.
pub proof fn law_every_group_starts_afresh(
    encoder: FecEncoderView,
    payload_size: nat,
    group: Seq<FecFields>,
)
    requires
        encoder.clip == FecFields::zero(payload_size),
        encoder.collected == 0,
        0 < group.len() == encoder.group_size,
    ensures
        encoder.fed_all(group) == encoder,
{
    lemma_fed_all(encoder, group.drop_last());
    lemma_sum_size(encoder.clip, group.drop_last());
    let before = encoder.fed_all(group.drop_last());
    assert(before.clip.payload.len() == payload_size);
}

/// History reaches eight groups behind the newest number seen: what is nearer is kept as
/// it is, both packets and parities, and the rest is forgotten.
pub proof fn law_history_reaches_eight_groups_back(r: FecReceiverView, seen: u32, k: u32)
    requires
        r.group_size * 8 <= i32::MAX,
    ensures
        ({
            let after = r.evicted(seen);
            let newest = match r.newest {
                Some(n) => if crate::seq::seq_offset(seen, n) > 0 {
                    seen
                } else {
                    n
                },
                None => seen,
            };
            let near = crate::seq::seq_offset(newest, k) < 8 * r.group_size;
            &&& after.newest == Some(newest)
            &&& after.data.contains_key(k) <==> r.data.contains_key(k) && near
            &&& after.data.contains_key(k) ==> after.data[k] == r.data[k]
            &&& after.parities.contains_key(k) <==> r.parities.contains_key(k) && near
            &&& after.parities.contains_key(k) ==> after.parities[k] == r.parities[k]
            &&& after.group_size == r.group_size
            &&& after.payload_size == r.payload_size
        }),
{
}

proof fn lemma_no_parity_no_change(r: FecReceiverView, base: u32, n: nat)
    requires
        forall|i: int|
            #![trigger crate::seq::seq_add(base, -i)]
            0 <= i < n ==> !r.parities.contains_key(crate::seq::seq_add(base, -i)),
    ensures
        r.tried_all(base, n) == r,
        r.rebuilt_all(base, n) == Seq::<RecoveredView>::empty(),
    decreases n,
{
    if n > 0 {
        lemma_no_parity_no_change(r, base, (n - 1) as nat);
        assert(crate::seq::seq_add(base, 1 - n) == crate::seq::seq_add(base, -(n - 1)));
    }
}

/// A packet of groups whose parity has not arrived is only remembered, for the parity to
/// come.
pub proof fn law_packets_are_remembered(r: FecReceiverView, seq: u32, fields: FecFields)
    requires
        0 <= r.group_size,
        forall|i: int|
            #![trigger crate::seq::seq_add(seq, -i)]
            0 <= i < r.group_size ==> !r.parities.contains_key(crate::seq::seq_add(seq, -i)),
    ensures
        r.from_data(seq, fields).len() == 0,
        r.after_data(seq, fields) == (FecReceiverView {
            data: r.data.insert(seq, fields),
            ..r
        }).evicted(seq),
{
    lemma_no_parity_no_change(r.stored(seq, fields), seq, r.group_size as nat);
}

/// A parity that comes while its group lacks more than one member is only remembered, for
/// a late member to come; so is one whose group is complete.
pub proof fn law_parities_are_remembered(r: FecReceiverView, seq: u32, parity: FecFields)
    requires
        0 <= r.group_size,
        absent(
            r.data,
            crate::seq::seq_add(seq, 1 - r.group_size),
            r.group_size as nat,
        ).len() != 1,
    ensures
        r.from_parity(seq, parity_bytes(parity, -1i8), parity.timestamp).len() == 0,
        r.after_parity(seq, parity_bytes(parity, -1i8), parity.timestamp) == (FecReceiverView {
            parities: r.parities.insert(crate::seq::seq_add(seq, 1 - r.group_size), parity),
            ..r
        }).evicted(seq),
{
    law_parity_round_trips(parity, -1i8);
}

} // verus!
