//! The sender's retransmission buffer.
//!
//! Every data packet sent is kept until the peer acknowledges it. Packets are
//! stored without gaps in sequence order: `push` appends the next one, and
//! packets leave at the front only.

use crate::buffer;
use crate::packet::{DataPacket, DataView};
use crate::seq::SeqNumber;
use crate::time::Instant;
use std::collections::VecDeque;
use vstd::prelude::*;

verus! {

#[derive(Debug)]
struct Sent {
    packet: DataPacket,
    last_retransmit: Option<Instant>,
}

/// A sent packet and when it was last retransmitted.
#[verifier::ext_equal]
pub struct SentView {
    /// The packet.
    pub packet: DataView,
    /// When it was last retransmitted, nanoseconds; `None` before that.
    pub last_retransmit: Option<u64>,
}

impl View for Sent {
    type V = SentView;

    closed spec fn view(&self) -> SentView {
        SentView {
            packet: self.packet@,
            last_retransmit: match self.last_retransmit {
                Some(at) => Some(at@),
                None => None,
            },
        }
    }
}

/// Sent packets that are not yet acknowledged, oldest first.
#[derive(Debug)]
pub struct SendBuffer {
    packets: VecDeque<Sent>,
}

impl View for SendBuffer {
    type V = Seq<SentView>;

    closed spec fn view(&self) -> Seq<SentView> {
        self.packets@.map_values(|s: Sent| s@)
    }
}

/// The packets carry consecutive sequence numbers.
pub open spec fn contiguous(s: Seq<SentView>) -> bool {
    forall|i: int|
        0 <= i < s.len() ==> (#[trigger] s[i]).packet.in_range() && s[i].packet.seq
            == crate::seq::seq_add(s[0].packet.seq, i)
}

/// How many packets lie before `next_expected`: as many as the oldest one is
/// behind it.
pub open spec fn acked_count(s: Seq<SentView>, next_expected: u32) -> int {
    let ahead = if s.len() == 0 {
        0
    } else {
        -crate::seq::seq_offset(s[0].packet.seq, next_expected)
    };
    if ahead <= 0 {
        0
    } else if ahead > s.len() {
        s.len() as int
    } else {
        ahead
    }
}

/// The position of the packet with sequence number `n`.
pub open spec fn position(s: Seq<SentView>, n: u32) -> Option<int> {
    if s.len() > 0 && 0 <= crate::seq::seq_offset(n, s[0].packet.seq) < s.len() {
        Some(crate::seq::seq_offset(n, s[0].packet.seq))
    } else {
        None
    }
}

impl SendBuffer {
    /// The buffer holds consecutive sequence numbers.
    pub open spec fn wf(self) -> bool {
        contiguous(self@)
    }

    /// An empty buffer.
    pub fn new() -> (r: Self)
        ensures
            r.wf(),
            r@ == Seq::<SentView>::empty(),
    {
        let r = SendBuffer { packets: VecDeque::new() };
        assert(r@ =~= Seq::<SentView>::empty());
        r
    }

    /// Whether nothing is awaiting acknowledgement.
    pub fn is_empty(&self) -> (r: bool)
        ensures
            r == (self@.len() == 0),
    {
        self.packets.len() == 0
    }

    /// How many packets await acknowledgement.
    pub fn len(&self) -> (r: usize)
        ensures
            r == self@.len(),
    {
        self.packets.len()
    }

    /// The oldest sequence number held.
    pub fn first_seq(&self) -> (r: Option<SeqNumber>)
        ensures
            match r {
                Some(n) => self@.len() > 0 && n@ == self@[0].packet.seq,
                None => self@.len() == 0,
            },
    {
        if self.packets.len() == 0 {
            None
        } else {
            Some(self.packets[0].packet.seq)
        }
    }

    /// The oldest packet held.
    pub fn front(&self) -> (r: Option<&DataPacket>)
        ensures
            match r {
                Some(p) => self@.len() > 0 && p@ == self@[0].packet,
                None => self@.len() == 0,
            },
    {
        if self.packets.len() == 0 {
            None
        } else {
            Some(&self.packets[0].packet)
        }
    }

    /// Removes the oldest packet.
    pub fn drop_front(&mut self) -> (r: Option<DataPacket>)
        requires
            old(self).wf(),
        ensures
            final(self).wf(),
            match r {
                Some(p) => old(self)@.len() > 0 && p@ == old(self)@[0].packet && final(self)@
                    == old(self)@.skip(1),
                None => old(self)@.len() == 0 && final(self)@ == old(self)@,
            },
    {
        let ghost before = self@;
        match self.packets.pop_front() {
            Some(sent) => {
                assert(self@ =~= before.skip(1));
                proof {
                    lemma_skip_contiguous(before, 1);
                }
                Some(sent.packet)
            },
            None => None,
        }
    }

    /// The newest sequence number held.
    pub fn last_seq(&self) -> (r: Option<SeqNumber>)
        ensures
            match r {
                Some(n) => self@.len() > 0 && n@ == self@.last().packet.seq,
                None => self@.len() == 0,
            },
    {
        let n: usize = self.packets.len();
        if n == 0 {
            None
        } else {
            Some(self.packets[n - 1].packet.seq)
        }
    }

    /// Stores a packet just sent, which is the one after the newest held.
    pub fn push(&mut self, packet: DataPacket)
        requires
            old(self).wf(),
            old(self)@.len() > 0 ==> packet@.seq == crate::seq::seq_add(old(self)@.last().packet.seq, 1),
        ensures
            final(self).wf(),
            final(self)@ == old(self)@.push(
                SentView { packet: packet@, last_retransmit: None },
            ),
    {
        let ghost before = self@;
        let n: u32 = packet.seq.value();
        let m: u32 = packet.message_number.value();
        let sent = Sent { packet, last_retransmit: None };
        self.packets.push_back(sent);
        assert(self@ =~= before.push(sent@));
        proof {
            let s = self@;
            assert(s[s.len() - 1].packet.seq == n);
            assert forall|i: int| 0 <= i < s.len() implies (#[trigger] s[i]).packet.in_range()
                && s[i].packet.seq == crate::seq::seq_add(s[0].packet.seq, i) by {
                if before.len() > 0 {
                    assert(before[0].packet.in_range());
                    assert(before[before.len() - 1].packet.seq == crate::seq::seq_add(
                        before[0].packet.seq,
                        before.len() - 1,
                    ));
                    if i < before.len() {
                        assert(s[i] == before[i]);
                    }
                }
            }
        }
    }

    /// Releases every packet before `next_expected` and returns how many there
    /// were.
    pub fn ack(&mut self, next_expected: SeqNumber) -> (r: usize)
        requires
            old(self).wf(),
        ensures
            final(self).wf(),
            r == acked_count(old(self)@, next_expected@),
            final(self)@ == old(self)@.skip(r as int),
    {
        let ghost before = self@;
        let ghost total = acked_count(before, next_expected@);
        let next: u32 = next_expected.value();
        let mut dropped: usize = 0;
        assert(before.skip(0) =~= before);
        loop
            invariant_except_break
                dropped <= total,
            invariant
                next == next_expected@,
                next < 0x8000_0000,
                contiguous(before),
                total == acked_count(before, next_expected@),
                total <= before.len(),
                dropped <= before.len(),
                self.wf(),
                self@ == before.skip(dropped as int),
            ensures
                dropped == total,
            decreases before.len() - dropped,
        {
            let front = match self.first_seq() {
                Some(front) => front,
                None => {
                    break;
                },
            };
            let offset: i32 = front.offset_from(next_expected);
            proof {
                assert(self@[0] == before[dropped as int]);
                assert(before[dropped as int].packet.seq == front@);
                assert(before[0].packet.in_range());
                lemma_ahead(before[0].packet.seq, next, dropped as int);
            }
            if offset >= 0 {
                break;
            }
            let gone = self.drop_front();
            dropped = dropped + 1;
            assert(self@ =~= before.skip(dropped as int));
        }
        dropped
    }

    /// The position of the packet with sequence number `n`.
    fn index_of(&self, n: SeqNumber) -> (r: Option<usize>)
        ensures
            match r {
                Some(i) => position(self@, n@) == Some(i as int) && i < self@.len(),
                None => position(self@, n@) is None,
            },
    {
        if self.packets.len() == 0 {
            return None;
        }
        let offset: i32 = n.offset_from(self.packets[0].packet.seq);
        if offset >= 0 && (offset as usize) < self.packets.len() {
            Some(offset as usize)
        } else {
            None
        }
    }

    /// The packet with sequence number `n`, if it is held.
    pub fn get(&self, n: SeqNumber) -> (r: Option<&DataPacket>)
        ensures
            match r {
                Some(p) => position(self@, n@) is Some && p@ == self@[position(self@, n@)->0].packet,
                None => position(self@, n@) is None,
            },
    {
        match self.index_of(n) {
            Some(i) => Some(&self.packets[i].packet),
            None => None,
        }
    }

    /// When the packet with sequence number `n` was last retransmitted.
    pub fn last_retransmitted(&self, n: SeqNumber) -> (r: Option<Instant>)
        ensures
            (match r {
                Some(at) => Some(at@),
                None => None,
            }) == (match position(self@, n@) {
                Some(i) => self@[i].last_retransmit,
                None => None,
            }),
    {
        match self.index_of(n) {
            Some(i) => self.packets[i].last_retransmit,
            None => None,
        }
    }

    /// Notes that the packet with sequence number `n` was retransmitted at `now`;
    /// a packet that is not held changes nothing.
    pub fn mark_retransmitted(&mut self, n: SeqNumber, now: Instant)
        requires
            old(self).wf(),
        ensures
            final(self).wf(),
            final(self)@ == (match position(old(self)@, n@) {
                Some(i) => old(self)@.update(
                    i,
                    SentView { last_retransmit: Some(now@), ..old(self)@[i] },
                ),
                None => old(self)@,
            }),
    {
        let ghost before = self@;
        if let Some(i) = self.index_of(n) {
            let sent = Sent { packet: self.packets[i].packet.copy(), last_retransmit: Some(now) };
            buffer::deque_set(&mut self.packets, i, sent);
            assert(self@ =~= before.update(i as int, sent@));
            assert(sent@ == SentView { last_retransmit: Some(now@), ..before[i as int] });
            assert forall|k: int| 0 <= k < self@.len() implies (#[trigger] self@[k]).packet
                == before[k].packet by {}
        }
    }
}

/// Leaving out the oldest packets keeps the rest consecutive.
pub proof fn lemma_skip_contiguous(s: Seq<SentView>, n: int)
    requires
        contiguous(s),
        0 <= n <= s.len(),
    ensures
        contiguous(s.skip(n)),
{
    let t = s.skip(n);
    assert forall|i: int| 0 <= i < t.len() implies (#[trigger] t[i]).packet.in_range()
        && t[i].packet.seq == crate::seq::seq_add(t[0].packet.seq, i) by {
        assert(t[i] == s[n + i]);
        assert(t[0] == s[n]);
        assert(s[0].packet.in_range());
    }
}

/// Each step forward brings the acknowledged point one closer.
proof fn lemma_ahead(first: u32, next: u32, k: int)
    requires
        first < 0x8000_0000,
        next < 0x8000_0000,
        0 <= k,
        k == 0 || k <= -crate::seq::seq_offset(first, next),
    ensures
        crate::seq::seq_offset(crate::seq::seq_add(first, k), next) == crate::seq::seq_offset(first, next) + k,
{
}

/// After an acknowledgement no held packet lies before the acknowledged point,
/// unless the point was behind the buffer to begin with; and what was released lay
/// before it.
pub proof fn law_ack_releases_all_before(s: Seq<SentView>, next_expected: u32)
    requires
        contiguous(s),
        next_expected < 0x8000_0000,
        s.len() <= 0x3FFF_FFFF,
    ensures
        forall|i: int|
            acked_count(s, next_expected) <= i < s.len() ==> crate::seq::seq_offset(
                (#[trigger] s[i]).packet.seq,
                next_expected,
            ) >= 0 || crate::seq::seq_offset(s[0].packet.seq, next_expected) > 0,
        forall|i: int|
            0 <= i < acked_count(s, next_expected) ==> crate::seq::seq_offset(
                (#[trigger] s[i]).packet.seq,
                next_expected,
            ) < 0,
{
    if s.len() > 0 {
        assert(s[0].packet.in_range());
    }
}

/// A stored packet is found by its sequence number.
pub proof fn law_stored_packets_are_found(s: Seq<SentView>, i: int)
    requires
        contiguous(s),
        0 <= i < s.len(),
        i <= 0x3FFF_FFFF,
    ensures
        position(s, s[i].packet.seq) == Some(i),
{
    assert(s[0].packet.in_range());
}

} // verus!
