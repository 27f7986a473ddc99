//! The receiver's reassembly buffer.
//!
//! Packets that arrive out of order wait here until everything before them has
//! been delivered or given up. The buffer begins at the next sequence number to
//! deliver and reaches to the newest one received; a slot without a packet is a
//! gap.

use crate::buffer;
use crate::packet::{DataPacket, DataView};
use crate::seq::SeqNumber;
use crate::timestamp::Timestamp;
use std::collections::VecDeque;
use vstd::prelude::*;

verus! {

/// What a [`RecvBuffer`] holds.
#[verifier::ext_equal]
pub struct RecvView {
    /// The next sequence number to deliver.
    pub base: u32,
    /// The packets from `base` on; `None` is a gap.
    pub slots: Seq<Option<DataView>>,
}

/// How many slots hold a packet.
pub open spec fn present(slots: Seq<Option<DataView>>) -> nat
    decreases slots.len(),
{
    if slots.len() == 0 {
        0
    } else {
        present(slots.drop_last()) + (if slots.last() is Some {
            1nat
        } else {
            0nat
        })
    }
}

/// How many slots at the front hold a packet without a gap.
pub open spec fn leading(slots: Seq<Option<DataView>>) -> nat
    decreases slots.len(),
{
    if slots.len() == 0 || slots[0] is None {
        0
    } else {
        1 + leading(slots.skip(1))
    }
}

/// The position of the first packet, or the number of slots if there is none.
pub open spec fn first_present(slots: Seq<Option<DataView>>) -> int
    decreases slots.len(),
{
    if slots.len() == 0 || slots[0] is Some {
        0
    } else {
        1 + first_present(slots.skip(1))
    }
}

/// How many slots at the end are gaps.
pub open spec fn trailing_gap(slots: Seq<Option<DataView>>) -> int
    decreases slots.len(),
{
    if slots.len() == 0 || slots.last() is Some {
        0
    } else {
        1 + trailing_gap(slots.drop_last())
    }
}

/// The gaps that a later packet closes, as inclusive ranges of sequence numbers.
pub open spec fn gaps(base: u32, slots: Seq<Option<DataView>>) -> Seq<(u32, u32)>
    decreases slots.len(),
{
    if slots.len() == 0 {
        Seq::empty()
    } else {
        let rest = slots.drop_last();
        let run = trailing_gap(rest);
        if slots.last() is Some && run > 0 {
            gaps(base, rest).push(
                (crate::seq::seq_add(base, rest.len() - run), crate::seq::seq_add(base, rest.len() - 1)),
            )
        } else {
            gaps(base, rest)
        }
    }
}

/// The part of each range that does not lie ahead of `threshold`.
pub open spec fn aged(ranges: Seq<(u32, u32)>, threshold: u32) -> Seq<(u32, u32)>
    decreases ranges.len(),
{
    if ranges.len() == 0 {
        Seq::empty()
    } else {
        let rest = aged(ranges.drop_last(), threshold);
        let (start, end) = ranges.last();
        if crate::seq::seq_offset(start, threshold) > 0 {
            rest
        } else if crate::seq::seq_offset(end, threshold) > 0 {
            rest.push((start, threshold))
        } else {
            rest.push((start, end))
        }
    }
}

/// Whether a slot is empty.
#[verifier::opaque]
pub open spec fn has_gap(slots: Seq<Option<DataView>>) -> bool {
    exists|i: int| 0 <= i < slots.len() && (#[trigger] slots[i]) is None
}

impl RecvView {
    /// Every packet sits at the slot of its sequence number, the last slot holds
    /// a packet, and the span is at most half the sequence space.
    pub open spec fn wf(self) -> bool {
        &&& self.base < 0x8000_0000
        &&& self.slots.len() <= 0x4000_0000
        &&& self.slots.len() > 0 ==> self.slots.last() is Some
        &&& forall|i: int|
            0 <= i < self.slots.len() ==> ((#[trigger] self.slots[i]) matches Some(p) ==> p.seq
                == crate::seq::seq_add(self.base, i))
    }

    /// The buffer with `p` stored; `None` if it was delivered, given up or stored
    /// before.
    pub open spec fn inserted(self, p: DataView) -> Option<RecvView> {
        let offset = crate::seq::seq_offset(p.seq, self.base);
        let len = self.slots.len() as int;
        if offset < 0 || (offset < len && self.slots[offset] is Some) {
            None
        } else {
            Some(
                RecvView {
                    base: self.base,
                    slots: Seq::new(
                        (if offset < len {
                            len
                        } else {
                            offset + 1
                        }) as nat,
                        |i: int|
                            if i == offset {
                                Some(p)
                            } else if i < len {
                                self.slots[i]
                            } else {
                                None
                            },
                    ),
                },
            )
        }
    }

    /// The first packet.
    pub open spec fn next(self) -> Option<DataView> {
        let i = first_present(self.slots);
        if i < self.slots.len() {
            self.slots[i]
        } else {
            None
        }
    }

    /// The buffer without its first packet and the gap before it.
    pub open spec fn popped(self) -> RecvView {
        let i = first_present(self.slots);
        if i < self.slots.len() {
            RecvView { base: crate::seq::seq_add(self.base, i + 1), slots: self.slots.skip(i + 1) }
        } else {
            self
        }
    }

    /// The buffer after the sender gave up on everything from `first` to `last`.
    /// Only a range that reaches the front counts.
    pub open spec fn dropped(self, first: u32, last: u32) -> RecvView {
        let reach = crate::seq::seq_offset(last, self.base);
        if reach < 0 || crate::seq::seq_offset(first, self.base) > 0 {
            self
        } else if reach + 1 < self.slots.len() {
            RecvView { base: crate::seq::seq_add(last, 1), slots: self.slots.skip(reach + 1) }
        } else {
            RecvView { base: crate::seq::seq_add(last, 1), slots: Seq::empty() }
        }
    }

    /// One past the last packet received without a gap.
    pub open spec fn received_point(self) -> u32 {
        crate::seq::seq_add(self.base, leading(self.slots) as int)
    }

    /// The missing ranges.
    pub open spec fn missing(self) -> Seq<(u32, u32)> {
        gaps(self.base, self.slots)
    }

    /// The missing numbers that lie at least `tolerance` behind the newest packet.
    pub open spec fn missing_aged(self, tolerance: u32) -> Seq<(u32, u32)> {
        if tolerance == 0 || self.slots.len() == 0 {
            self.missing()
        } else if tolerance >= self.slots.len() {
            Seq::empty()
        } else {
            aged(
                self.missing(),
                crate::seq::seq_add(crate::seq::seq_add(self.base, self.slots.len() - 1), -tolerance),
            )
        }
    }
}

/// A buffer of received packets.
#[derive(Debug)]
pub struct RecvBuffer {
    base: SeqNumber,
    slots: VecDeque<Option<DataPacket>>,
    received: usize,
}

/// The view of a slot.
pub open spec fn slot_view(slot: Option<DataPacket>) -> Option<DataView> {
    match slot {
        Some(p) => Some(p@),
        None => None,
    }
}

/// The views of a sequence of ranges.
pub open spec fn range_views(ranges: Seq<(SeqNumber, SeqNumber)>) -> Seq<(u32, u32)> {
    ranges.map_values(|r: (SeqNumber, SeqNumber)| (r.0@, r.1@))
}

impl View for RecvBuffer {
    type V = RecvView;

    closed spec fn view(&self) -> RecvView {
        RecvView {
            base: self.base@,
            slots: self.slots@.map_values(|slot: Option<DataPacket>| slot_view(slot)),
        }
    }
}

impl RecvBuffer {
    /// The view is well formed and the packets are counted.
    pub closed spec fn wf(self) -> bool {
        self@.wf() && self.received == present(self@.slots)
    }

    /// An empty buffer that expects `initial_seq`.
    pub fn new(initial_seq: SeqNumber) -> (r: Self)
        ensures
            r.wf(),
            r@ == (RecvView { base: initial_seq@, slots: Seq::empty() }),
    {
        let n: u32 = initial_seq.value();
        let r = RecvBuffer { base: initial_seq, slots: VecDeque::new(), received: 0 };
        assert(r@.slots =~= Seq::<Option<DataView>>::empty());
        r
    }

    /// The next sequence number to deliver.
    pub fn ack_point(&self) -> (r: SeqNumber)
        ensures
            r@ == self@.base,
    {
        self.base
    }

    /// How many packets are held.
    pub fn occupancy(&self) -> (r: usize)
        requires
            self.wf(),
        ensures
            r == present(self@.slots),
    {
        self.received
    }

    /// One past the last packet received without a gap: what an acknowledgement
    /// reports. It runs ahead of the delivery point while packets wait for their
    /// play time.
    pub fn received_ack_point(&self) -> (r: SeqNumber)
        requires
            self.wf(),
        ensures
            r@ == self@.received_point(),
    {
        let n: usize = self.slots.len();
        let ghost slots = self@.slots;
        let mut i: usize = 0;
        assert(slots.skip(0) =~= slots);
        while i < n && self.slots[i].is_some()
            invariant
                n == self.slots@.len(),
                slots == self@.slots,
                i <= n <= 0x4000_0000,
                leading(slots) == i + leading(slots.skip(i as int)),
            decreases n - i,
        {
            assert(slots[i as int] is Some);
            assert(slots.skip(i as int)[0] is Some);
            assert(slots.skip(i as int).skip(1) =~= slots.skip(i + 1));
            i += 1;
        }
        assert(i < n ==> slots.skip(i as int)[0] is None);
        assert(leading(slots) == i);
        let step: u32 = i as u32;
        self.base + step
    }

    /// Whether a packet before the newest one is missing.
    pub fn has_gaps(&self) -> (r: bool)
        requires
            self.wf(),
        ensures
            r == has_gap(self@.slots),
    {
        proof {
            reveal(has_gap);
            lemma_present_all(self@.slots);
        }
        self.received != self.slots.len()
    }

    /// Stores a received packet; `false` if it was delivered, given up or stored
    /// before.
    pub fn insert(&mut self, packet: DataPacket) -> (r: bool)
        requires
            old(self).wf(),
        ensures
            final(self).wf(),
            r == (old(self)@.inserted(packet@) is Some),
            r ==> final(self)@ == old(self)@.inserted(packet@)->0,
            !r ==> final(self)@ == old(self)@,
    {
        let ghost before = self@;
        let n: u32 = packet.seq.value();
        let base: u32 = self.base.value();
        let offset: i32 = packet.seq.offset_from(self.base);
        if offset < 0 {
            return false;
        }
        let offset: usize = offset as usize;
        if offset < self.slots.len() && self.slots[offset].is_some() {
            assert(before.slots[offset as int] is Some);
            return false;
        }
        let ghost p = packet@;
        assert(offset < before.slots.len() ==> before.slots[offset as int] is None);
        proof {
            crate::seq::law_offset_reaches(p.seq, before.base);
            lemma_present_bound(before.slots);
        }
        while self.slots.len() <= offset
            invariant
                before.slots.len() <= self.slots@.len(),
                self.slots@.len() <= before.slots.len() || self.slots@.len() <= offset + 1,
                self.base@ == before.base,
                self.received == present(before.slots),
                present(self@.slots) == present(before.slots),
                forall|i: int|
                    0 <= i < self@.slots.len() ==> (#[trigger] self@.slots[i]) == (if i
                        < before.slots.len() {
                        before.slots[i]
                    } else {
                        None
                    }),
            decreases offset + 1 - self.slots@.len(),
        {
            let ghost was = self@.slots;
            self.slots.push_back(None);
            assert(self@.slots =~= was.push(None));
            assert(self@.slots.drop_last() =~= was);
        }
        let ghost was = self@.slots;
        buffer::deque_set(&mut self.slots, offset, Some(packet));
        assert(self@.slots =~= was.update(offset as int, Some(p)));
        proof {
            lemma_present_update(was, offset as int, p);
            lemma_present_bound(self@.slots);
            assert(self@.slots =~= before.inserted(p)->0.slots);
        }
        self.received = self.received + 1;
        proof {
            let s = self@;
            assert(s.slots =~= before.inserted(p)->0.slots);
            assert forall|i: int| 0 <= i < s.slots.len() implies ((
            #[trigger] s.slots[i]) matches Some(q) ==> q.seq == crate::seq::seq_add(s.base, i)) by {
                if i != offset && i < before.slots.len() {
                    assert(s.slots[i] == before.slots[i]);
                }
            }
            assert(s.slots.last() is Some) by {
                if offset < before.slots.len() - 1 {
                    assert(s.slots.last() == before.slots.last());
                }
            }
        }
        true
    }

    /// The position of the first packet, or the number of slots.
    fn first_index(&self) -> (r: usize)
        ensures
            r == first_present(self@.slots),
            r <= self.slots@.len(),
    {
        let n: usize = self.slots.len();
        let ghost slots = self@.slots;
        let mut i: usize = 0;
        assert(slots.skip(0) =~= slots);
        while i < n && self.slots[i].is_none()
            invariant
                n == self.slots@.len(),
                slots == self@.slots,
                i <= n,
                first_present(slots) == i + first_present(slots.skip(i as int)),
            decreases n - i,
        {
            assert(slots[i as int] is None);
            assert(slots.skip(i as int)[0] is None);
            assert(slots.skip(i as int).skip(1) =~= slots.skip(i + 1));
            i += 1;
        }
        assert(i < n ==> slots.skip(i as int)[0] is Some);
        i
    }

    /// Sequence number and timestamp of the first packet.
    pub fn peek(&self) -> (r: Option<(SeqNumber, Timestamp)>)
        ensures
            match r {
                Some((n, ts)) => self@.next() is Some && n@ == self@.next()->0.seq && ts@
                    == self@.next()->0.timestamp,
                None => self@.next() is None,
            },
    {
        let i: usize = self.first_index();
        if i < self.slots.len() {
            match &self.slots[i] {
                Some(p) => {
                    assert(self@.slots[i as int] == Some(p@));
                    Some((p.seq, p.timestamp))
                },
                None => {
                    assert(self@.slots[i as int] is None);
                    None
                },
            }
        } else {
            None
        }
    }

    /// Removes the first packet, along with the gap before it.
    pub fn pop(&mut self) -> (r: Option<DataPacket>)
        requires
            old(self).wf(),
        ensures
            final(self).wf(),
            final(self)@ == old(self)@.popped(),
            match r {
                Some(p) => old(self)@.next() == Some(p@),
                None => old(self)@.next() is None,
            },
    {
        let ghost before = self@;
        let base: u32 = self.base.value();
        let i: usize = self.first_index();
        proof {
            law_pop_advances(before);
            lemma_first_present(before.slots);
        }
        if i >= self.slots.len() {
            return None;
        }
        self.drop_slots(i);
        let ghost skipped = self@;
        let packet = self.slots.pop_front();
        proof {
            lemma_present_front(skipped.slots);
            assert(self@.slots =~= skipped.slots.skip(1));
            assert(self@.slots =~= before.slots.skip(i + 1));
            assert(skipped.slots[0] == before.slots[i as int]);
        }
        match packet {
            Some(Some(p)) => {
                assert(before.next() == Some(p@));
                self.base = p.seq.next();
                self.received = self.received - 1;
                assert(self@.base == before.popped().base);
                assert(self@.slots == before.popped().slots);
                assert(self@ == before.popped());
                Some(p)
            },
            _ => {
                assert(skipped.slots[0] is None);
                None
            },
        }
    }

    /// Removes the first `n` slots, without moving the delivery point.
    fn drop_slots(&mut self, n: usize)
        requires
            n <= old(self)@.slots.len(),
            old(self).received == present(old(self)@.slots),
        ensures
            final(self)@ == (RecvView { slots: old(self)@.slots.skip(n as int), ..old(self)@ }),
            final(self).received == present(final(self)@.slots),
    {
        let ghost before = self@;
        let mut i: usize = 0;
        assert(before.slots.skip(0) =~= before.slots);
        while i < n
            invariant
                i <= n <= before.slots.len(),
                self@ == (RecvView { slots: before.slots.skip(i as int), ..before }),
                self.received == present(self@.slots),
            decreases n - i,
        {
            let ghost was = self@.slots;
            proof {
                lemma_present_front(was);
            }
            let slot = self.slots.pop_front();
            assert(self@.slots =~= was.skip(1));
            assert(was.skip(1) =~= before.slots.skip(i + 1));
            match slot {
                Some(Some(_)) => {
                    assert(was[0] is Some);
                    self.received = self.received - 1;
                },
                _ => {
                    assert(was[0] is None);
                },
            }
            i += 1;
        }
    }

    /// Removes the first packet only if no gap lies before it.
    pub fn pop_in_order(&mut self) -> (r: Option<DataPacket>)
        requires
            old(self).wf(),
        ensures
            final(self).wf(),
            old(self)@.slots.len() > 0 && old(self)@.slots[0] is Some ==> {
                &&& r is Some
                &&& old(self)@.slots[0] == Some(r->0@)
                &&& final(self)@ == old(self)@.popped()
                &&& final(self)@.slots == old(self)@.slots.skip(1)
            },
            !(old(self)@.slots.len() > 0 && old(self)@.slots[0] is Some) ==> {
                &&& r is None
                &&& final(self)@ == old(self)@
            },
    {
        if self.slots.len() > 0 && self.slots[0].is_some() {
            assert(self@.slots[0] is Some);
            self.pop()
        } else {
            assert(self@.slots.len() > 0 ==> self@.slots[0] is None);
            None
        }
    }

    /// Gives up on the range from `first` to `last`, which the sender announced
    /// it will not deliver.
    pub fn drop_range(&mut self, first: SeqNumber, last: SeqNumber)
        requires
            old(self).wf(),
        ensures
            final(self).wf(),
            final(self)@ == old(self)@.dropped(first@, last@),
    {
        let ghost before = self@;
        let a: u32 = last.value();
        let b: u32 = first.value();
        let reach: i32 = last.offset_from(self.base);
        if reach < 0 || first.offset_from(self.base) > 0 {
            return;
        }
        let advance: usize = reach as usize + 1;
        let gone: usize = if advance < self.slots.len() {
            advance
        } else {
            self.slots.len()
        };
        self.drop_slots(gone);
        self.base = last.next();
        proof {
            law_drop_range_advances(before, first@, last@);
            if advance >= before.slots.len() {
                assert(self@.slots =~= Seq::<Option<DataView>>::empty());
            }
            assert(self@.slots == before.dropped(first@, last@).slots);
            assert(self@ == before.dropped(first@, last@));
        }
    }

    /// The missing ranges before the newest packet.
    pub fn missing(&self) -> (r: Vec<(SeqNumber, SeqNumber)>)
        requires
            self.wf(),
        ensures
            range_views(r@) == self@.missing(),
    {
        let n: usize = self.slots.len();
        let ghost slots = self@.slots;
        let base: u32 = self.base.value();
        let mut ranges: Vec<(SeqNumber, SeqNumber)> = Vec::new();
        let mut run: usize = 0;
        let mut i: usize = 0;
        assert(slots.take(0) =~= Seq::<Option<DataView>>::empty());
        assert(range_views(ranges@) =~= Seq::<(u32, u32)>::empty());
        while i < n
            invariant
                n == self.slots@.len(),
                slots == self@.slots,
                base == self@.base,
                i <= n <= 0x4000_0000,
                run == trailing_gap(slots.take(i as int)),
                run <= i,
                range_views(ranges@) == gaps(base, slots.take(i as int)),
            decreases n - i,
        {
            proof {
                assert(slots.take(i + 1).drop_last() =~= slots.take(i as int));
                assert(slots.take(i + 1).last() == slots[i as int]);
            }
            if self.slots[i].is_none() {
                assert(slots[i as int] is None);
                run += 1;
            } else {
                assert(slots[i as int] is Some);
                if run > 0 {
                    let ghost was = ranges@;
                    let from: u32 = (i - run) as u32;
                    let to: u32 = (i - 1) as u32;
                    let start = self.base + from;
                    let end = self.base + to;
                    ranges.push((start, end));
                    assert(range_views(ranges@) =~= range_views(was).push((start@, end@)));
                }
                run = 0;
            }
            i += 1;
        }
        assert(slots.take(n as int) =~= slots);
        ranges
    }

    /// The missing numbers that lie at least `tolerance` behind the newest
    /// packet: a younger gap may still be filled by packets in flight.
    pub fn missing_aged(&self, tolerance: u32) -> (r: Vec<(SeqNumber, SeqNumber)>)
        requires
            self.wf(),
        ensures
            range_views(r@) == self@.missing_aged(tolerance),
    {
        let all = self.missing();
        let n: usize = self.slots.len();
        if tolerance == 0 || n == 0 {
            return all;
        }
        let span: u32 = (n - 1) as u32;
        if tolerance > span {
            let none: Vec<(SeqNumber, SeqNumber)> = Vec::new();
            assert(range_views(none@) =~= Seq::<(u32, u32)>::empty());
            return none;
        }
        let highest = self.base + span;
        let h: u32 = highest.value();
        let threshold = SeqNumber::new(h.wrapping_sub(tolerance));
        assert(threshold@ == crate::seq::seq_add(highest@, -tolerance));
        let mut ranges: Vec<(SeqNumber, SeqNumber)> = Vec::new();
        let ghost views = range_views(all@);
        let mut i: usize = 0;
        assert(views.take(0) =~= Seq::<(u32, u32)>::empty());
        assert(range_views(ranges@) =~= Seq::<(u32, u32)>::empty());
        while i < all.len()
            invariant
                i <= all@.len(),
                views == range_views(all@),
                range_views(ranges@) == aged(views.take(i as int), threshold@),
            decreases all@.len() - i,
        {
            let (start, end) = all[i];
            let ghost was = range_views(ranges@);
            proof {
                assert(views.take(i + 1).drop_last() =~= views.take(i as int));
                assert(views.take(i + 1).last() == (start@, end@));
            }
            if start.offset_from(threshold) <= 0 {
                if end.offset_from(threshold) > 0 {
                    ranges.push((start, threshold));
                    assert(range_views(ranges@) =~= was.push((start@, threshold@)));
                } else {
                    ranges.push((start, end));
                    assert(range_views(ranges@) =~= was.push((start@, end@)));
                }
            }
            i += 1;
        }
        assert(views.take(i as int) =~= views);
        ranges
    }
}

/// A well-formed buffer has a well-formed view.
pub proof fn lemma_view_wf(b: RecvBuffer)
    requires
        b.wf(),
    ensures
        b@.wf(),
{
}

proof fn lemma_present_bound(slots: Seq<Option<DataView>>)
    ensures
        present(slots) <= slots.len(),
    decreases slots.len(),
{
    if slots.len() > 0 {
        lemma_present_bound(slots.drop_last());
    }
}

/// All slots hold a packet exactly if the count says so.
proof fn lemma_present_all(slots: Seq<Option<DataView>>)
    ensures
        present(slots) <= slots.len(),
        present(slots) != slots.len() <==> exists|i: int|
            0 <= i < slots.len() && slots[i] is None,
    decreases slots.len(),
{
    if slots.len() > 0 {
        let rest = slots.drop_last();
        lemma_present_all(rest);
        if slots.last() is None {
            assert(slots[slots.len() - 1] is None);
        } else if present(slots) != slots.len() {
            let i = choose|i: int| 0 <= i < rest.len() && rest[i] is None;
            assert(slots[i] is None);
        } else {
            assert forall|i: int| 0 <= i < slots.len() implies slots[i] is Some by {
                if i < rest.len() {
                    assert(rest[i] == slots[i]);
                }
            }
        }
    }
}

proof fn lemma_present_update(slots: Seq<Option<DataView>>, i: int, p: DataView)
    requires
        0 <= i < slots.len(),
        slots[i] is None,
    ensures
        present(slots.update(i, Some(p))) == present(slots) + 1,
    decreases slots.len(),
{
    let after = slots.update(i, Some(p));
    if i == slots.len() - 1 {
        assert(after.drop_last() =~= slots.drop_last());
    } else {
        assert(after.drop_last() =~= slots.drop_last().update(i, Some(p)));
        lemma_present_update(slots.drop_last(), i, p);
    }
}

/// Taking the first slot away takes its packet out of the count.
proof fn lemma_present_front(slots: Seq<Option<DataView>>)
    requires
        slots.len() > 0,
    ensures
        present(slots) == present(slots.skip(1)) + (if slots[0] is Some {
            1nat
        } else {
            0nat
        }),
    decreases slots.len(),
{
    let rest = slots.skip(1);
    if slots.len() == 1 {
        assert(slots.drop_last() =~= Seq::<Option<DataView>>::empty());
        assert(rest =~= Seq::<Option<DataView>>::empty());
    } else {
        assert(slots.drop_last().skip(1) =~= rest.drop_last());
        lemma_present_front(slots.drop_last());
    }
}

/// The first packet, if there is one.
pub proof fn lemma_first_present(slots: Seq<Option<DataView>>)
    ensures
        0 <= first_present(slots) <= slots.len(),
        first_present(slots) < slots.len() ==> slots[first_present(slots)] is Some,
        forall|i: int| 0 <= i < first_present(slots) ==> (#[trigger] slots[i]) is None,
    decreases slots.len(),
{
    if slots.len() > 0 && slots[0] is None {
        let rest = slots.skip(1);
        lemma_first_present(rest);
        assert forall|i: int| 0 <= i < first_present(slots) implies (
        #[trigger] slots[i]) is None by {
            if i > 0 {
                assert(rest[i - 1] is None);
            }
        }
    }
}

/// Gaps at the end do not count.
proof fn lemma_present_extended(slots: Seq<Option<DataView>>, n: nat)
    ensures
        present(slots + Seq::new(n, |i: int| None::<DataView>)) == present(slots),
    decreases n,
{
    let longer = slots + Seq::new(n, |i: int| None::<DataView>);
    if n == 0 {
        assert(longer =~= slots);
    } else {
        lemma_present_extended(slots, (n - 1) as nat);
        assert(longer.drop_last() =~= slots + Seq::new((n - 1) as nat, |i: int| None::<DataView>));
    }
}

/// Storing a packet adds one to what is held, and changes no other slot.
pub proof fn lemma_inserted_holds_one_more(r: RecvView, p: DataView)
    ensures
        r.inserted(p) matches Some(s) ==> {
            &&& present(s.slots) == present(r.slots) + 1
            &&& forall|i: int|
                0 <= i < s.slots.len() && (#[trigger] s.slots[i]) is Some ==> s.slots[i] == Some(p)
                    || i < r.slots.len() && s.slots[i] == r.slots[i]
        },
{
    if let Some(s) = r.inserted(p) {
        let offset = crate::seq::seq_offset(p.seq, r.base);
        let len = r.slots.len() as int;
        if offset < len {
            assert(s.slots =~= r.slots.update(offset, Some(p)));
            lemma_present_update(r.slots, offset, p);
        } else {
            let n = (offset + 1 - len) as nat;
            let longer = r.slots + Seq::new(n, |i: int| None::<DataView>);
            lemma_present_extended(r.slots, n);
            assert(s.slots =~= longer.update(offset, Some(p)));
            lemma_present_update(longer, offset, p);
        }
    }
}

/// Taking the first packet leaves one less.
pub proof fn lemma_popped_holds_one_less(r: RecvView)
    requires
        r.next() is Some,
    ensures
        present(r.popped().slots) + 1 == present(r.slots),
    decreases r.slots.len(),
{
    lemma_first_present(r.slots);
    lemma_present_front(r.slots);
    if r.slots[0] is Some {
        assert(r.popped().slots =~= r.slots.skip(1));
    } else {
        let rest = RecvView { base: r.base, slots: r.slots.skip(1) };
        lemma_popped_holds_one_less(rest);
        assert(r.popped().slots =~= rest.popped().slots);
    }
}

/// A well-formed buffer stays well formed when its front is taken away.
proof fn lemma_suffix_wf(r: RecvView, n: int)
    requires
        r.wf(),
        0 <= n <= r.slots.len(),
    ensures
        (RecvView { base: crate::seq::seq_add(r.base, n), slots: r.slots.skip(n) }).wf(),
{
    let t = RecvView { base: crate::seq::seq_add(r.base, n), slots: r.slots.skip(n) };
    assert forall|i: int| 0 <= i < t.slots.len() implies ((#[trigger] t.slots[i]) matches Some(p)
        ==> p.seq == crate::seq::seq_add(t.base, i)) by {
        assert(t.slots[i] == r.slots[n + i]);
    }
}

/// Popping keeps a buffer well formed, moves the delivery point right behind the
/// packet handed out, and never backwards.
pub proof fn law_pop_advances(r: RecvView)
    requires
        r.wf(),
    ensures
        r.popped().wf(),
        r.next() matches Some(p) ==> {
            &&& r.popped().base == crate::seq::seq_add(p.seq, 1)
            &&& p.seq == crate::seq::seq_add(r.base, first_present(r.slots))
            &&& 0 <= first_present(r.slots) <= 0x3FFF_FFFF
        },
        r.next() is None <==> r.slots.len() == 0,
{
    lemma_first_present(r.slots);
    let i = first_present(r.slots);
    if i < r.slots.len() {
        lemma_suffix_wf(r, i + 1);
    } else if r.slots.len() > 0 {
        assert(r.slots[r.slots.len() - 1] is None);
    }
}

/// Packets come out in strictly increasing order: whatever is popped after `p`
/// lies ahead of `p`, and `p` itself is refused from then on.
pub proof fn law_delivery_is_in_order_without_repeats(r: RecvView, p: DataView, q: DataView)
    requires
        r.wf(),
        r.next() == Some(p),
    ensures
        r.popped().next() == Some(q) ==> 0 < crate::seq::seq_offset(q.seq, p.seq),
        r.popped().inserted(p) is None,
{
    law_pop_advances(r);
    let s = r.popped();
    law_pop_advances(s);
    lemma_first_present(r.slots);
    crate::seq::lemma_steps(r.base, first_present(r.slots), 1);
    crate::seq::lemma_offset_of_step(s.base, -1);
    crate::seq::lemma_steps(p.seq, 1, -1);
    assert(crate::seq::seq_offset(p.seq, s.base) == -1);
    if s.next() == Some(q) {
        let k = first_present(s.slots);
        crate::seq::lemma_steps(p.seq, 1, k);
        lemma_first_present(s.slots);
        assert(s.slots.len() < 0x4000_0000);
        crate::seq::lemma_offset_of_step(p.seq, 1 + k);
    }
}

/// Inserting keeps a buffer well formed and changes no slot but the packet's own.
pub proof fn law_insert_keeps_the_rest(r: RecvView, p: DataView)
    requires
        r.wf(),
        p.seq < 0x8000_0000,
    ensures
        r.inserted(p) matches Some(s) ==> {
            &&& s.wf()
            &&& s.slots[crate::seq::seq_offset(p.seq, r.base)] == Some(p)
            &&& forall|i: int|
                0 <= i < r.slots.len() && i != crate::seq::seq_offset(p.seq, r.base) ==> (
                #[trigger] s.slots[i]) == r.slots[i]
            &&& s.inserted(p) is None
        },
{
    if let Some(s) = r.inserted(p) {
        let offset = crate::seq::seq_offset(p.seq, r.base);
        crate::seq::law_offset_reaches(p.seq, r.base);
        assert forall|i: int| 0 <= i < s.slots.len() implies ((#[trigger] s.slots[i]) matches Some(
            q,
        ) ==> q.seq == crate::seq::seq_add(s.base, i)) by {
            if i != offset && i < r.slots.len() {
                assert(s.slots[i] == r.slots[i]);
            }
        }
        if offset < r.slots.len() - 1 {
            assert(s.slots.last() == r.slots.last());
        }
    }
}

/// A position lies in one of the ranges.
pub open spec fn covered(base: u32, ranges: Seq<(u32, u32)>, i: int) -> bool {
    exists|k: int|
        0 <= k < ranges.len() && crate::seq::seq_offset((#[trigger] ranges[k]).0, base) <= i
            <= crate::seq::seq_offset(ranges[k].1, base)
}

proof fn lemma_trailing_gap(slots: Seq<Option<DataView>>)
    ensures
        0 <= trailing_gap(slots) <= slots.len(),
        forall|i: int|
            slots.len() - trailing_gap(slots) <= i < slots.len() ==> (#[trigger] slots[i]) is None,
        trailing_gap(slots) < slots.len() ==> slots[slots.len() - 1 - trailing_gap(slots)] is Some,
    decreases slots.len(),
{
    if slots.len() > 0 && slots.last() is None {
        let rest = slots.drop_last();
        lemma_trailing_gap(rest);
        assert forall|i: int|
            slots.len() - trailing_gap(slots) <= i < slots.len() implies (#[trigger] slots[i]) is None by {
            if i < rest.len() {
                assert(rest[i] is None);
            }
        }
    }
}

proof fn lemma_gaps_cover(base: u32, slots: Seq<Option<DataView>>)
    requires
        base < 0x8000_0000,
        slots.len() <= 0x4000_0000,
    ensures
        forall|i: int|
            0 <= i < slots.len() - trailing_gap(slots) ==> (covered(base, gaps(base, slots), i) <==> (
            #[trigger] slots[i]) is None),
        forall|k: int|
            0 <= k < gaps(base, slots).len() ==> 0 <= crate::seq::seq_offset(
                (#[trigger] gaps(base, slots)[k]).0,
                base,
            ) <= crate::seq::seq_offset(gaps(base, slots)[k].1, base) < slots.len() - trailing_gap(slots),
    decreases slots.len(),
{
    lemma_trailing_gap(slots);
    if slots.len() > 0 {
        let rest = slots.drop_last();
        let n = rest.len();
        let run = trailing_gap(rest);
        let g = gaps(base, slots);
        let h = gaps(base, rest);
        lemma_trailing_gap(rest);
        lemma_gaps_cover(base, rest);
        if slots.last() is Some && run > 0 {
            let r = (crate::seq::seq_add(base, n - run), crate::seq::seq_add(base, n - 1));
            assert(crate::seq::seq_offset(r.0, base) == n - run);
            assert(crate::seq::seq_offset(r.1, base) == n - 1);
            assert(g == h.push(r));
            assert forall|k: int| 0 <= k < g.len() implies 0 <= crate::seq::seq_offset(
                (#[trigger] g[k]).0,
                base,
            ) <= crate::seq::seq_offset(g[k].1, base) < slots.len() by {
                if k < h.len() {
                    assert(g[k] == h[k]);
                }
            }
            assert forall|i: int| 0 <= i < slots.len() implies (covered(base, g, i) <==> (
            #[trigger] slots[i]) is None) by {
                if covered(base, g, i) {
                    let k = choose|k: int|
                        0 <= k < g.len() && crate::seq::seq_offset((#[trigger] g[k]).0, base) <= i
                            <= crate::seq::seq_offset(g[k].1, base);
                    if k < h.len() {
                        assert(h[k] == g[k]);
                        assert(covered(base, h, i));
                        assert(rest[i] is None);
                    } else {
                        assert(rest[i] is None);
                    }
                }
                if slots[i] is None {
                    assert(rest[i] is None);
                    if i < n - run {
                        assert(covered(base, h, i));
                        let k = choose|k: int|
                            0 <= k < h.len() && crate::seq::seq_offset((#[trigger] h[k]).0, base) <= i
                                <= crate::seq::seq_offset(h[k].1, base);
                        assert(g[k] == h[k]);
                    } else {
                        assert(g[h.len() as int] == r);
                    }
                }
            }
        } else {
            assert(g == h);
            assert forall|i: int| 0 <= i < slots.len() - trailing_gap(slots) implies (covered(
                base,
                g,
                i,
            ) <==> (#[trigger] slots[i]) is None) by {
                if i < n {
                    assert(rest[i] == slots[i]);
                    if slots.last() is Some {
                        assert(run == 0);
                    }
                } else if covered(base, g, i) {
                    let k = choose|k: int|
                        0 <= k < g.len() && crate::seq::seq_offset((#[trigger] g[k]).0, base) <= i
                            <= crate::seq::seq_offset(g[k].1, base);
                    assert(h[k] == g[k]);
                }
            }
        }
    }
}

/// The loss list names exactly the missing sequence numbers: position `i` behind
/// the delivery point is covered by a range if and only if its slot is a gap.
pub proof fn law_missing_names_exactly_the_gaps(r: RecvView, i: int)
    requires
        r.wf(),
        0 <= i < r.slots.len(),
    ensures
        covered(r.base, r.missing(), i) <==> r.slots[i] is None,
{
    lemma_trailing_gap(r.slots);
    lemma_gaps_cover(r.base, r.slots);
    assert(r.slots[i] is None || r.slots[i] is Some);
}

/// Giving up on a range keeps a buffer well formed, and a range that reaches the
/// front puts the delivery point right behind it.
pub proof fn law_drop_range_advances(r: RecvView, first: u32, last: u32)
    requires
        r.wf(),
        first < 0x8000_0000,
        last < 0x8000_0000,
    ensures
        r.dropped(first, last).wf(),
        crate::seq::seq_offset(last, r.base) >= 0 && crate::seq::seq_offset(first, r.base) <= 0 ==> r.dropped(
            first,
            last,
        ).base == crate::seq::seq_add(last, 1),
        crate::seq::seq_offset(last, r.base) < 0 || crate::seq::seq_offset(first, r.base) > 0 ==> r.dropped(
            first,
            last,
        ) == r,
{
    crate::seq::law_offset_reaches(last, r.base);
    let reach = crate::seq::seq_offset(last, r.base);
    if 0 <= reach {
        crate::seq::lemma_steps(r.base, reach, 1);
        assert(crate::seq::seq_add(last, 1) == crate::seq::seq_add(r.base, reach + 1));
        if reach + 1 < r.slots.len() {
            lemma_suffix_wf(r, reach + 1);
        }
    }
}

/// The buffer after `arrivals` were offered to it, in that order.
pub open spec fn after_arrivals(r: RecvView, arrivals: Seq<DataView>) -> RecvView
    decreases arrivals.len(),
{
    if arrivals.len() == 0 {
        r
    } else {
        let before = after_arrivals(r, arrivals.drop_last());
        match before.inserted(arrivals.last()) {
            Some(s) => s,
            None => before,
        }
    }
}

/// All the packets that popping a buffer until it is empty hands out.
pub open spec fn delivered(r: RecvView) -> Seq<DataView>
    decreases r.slots.len(),
{
    proof {
        lemma_first_present(r.slots);
    }
    match r.next() {
        Some(p) => seq![p] + delivered(r.popped()),
        None => Seq::empty(),
    }
}

/// The buffer that popping until it is empty leaves behind.
pub open spec fn drained(r: RecvView) -> RecvView
    decreases r.slots.len(),
{
    proof {
        lemma_first_present(r.slots);
    }
    match r.next() {
        Some(_) => drained(r.popped()),
        None => r,
    }
}

/// Slots that hold all of `run`.
pub open spec fn filled(run: Seq<DataView>) -> Seq<Option<DataView>> {
    run.map_values(|p: DataView| Some(p))
}

proof fn lemma_arrivals(base: u32, arrivals: Seq<DataView>, run: Seq<DataView>)
    requires
        base < 0x8000_0000,
        run.len() <= 0x4000_0000,
        forall|i: int| 0 <= i < run.len() ==> (#[trigger] run[i]).seq == crate::seq::seq_add(base, i),
        forall|k: int| 0 <= k < arrivals.len() ==> run.contains(#[trigger] arrivals[k]),
    ensures
        ({
            let r = after_arrivals(RecvView { base, slots: Seq::empty() }, arrivals);
            &&& r.base == base
            &&& r.slots.len() <= run.len()
            &&& forall|i: int|
                0 <= i < r.slots.len() && (#[trigger] r.slots[i]) is Some ==> r.slots[i] == Some(run[i])
            &&& forall|i: int|
                0 <= i < run.len() && arrivals.contains(#[trigger] run[i]) ==> i < r.slots.len()
                    && r.slots[i] is Some
        }),
    decreases arrivals.len(),
{
    let empty = RecvView { base, slots: Seq::empty() };
    if arrivals.len() > 0 {
        let rest = arrivals.drop_last();
        let p = arrivals.last();
        assert forall|k: int| 0 <= k < rest.len() implies run.contains(#[trigger] rest[k]) by {
            assert(rest[k] == arrivals[k]);
        }
        lemma_arrivals(base, rest, run);
        let before = after_arrivals(empty, rest);
        let r = after_arrivals(empty, arrivals);
        assert(run.contains(arrivals[arrivals.len() - 1]));
        let at = choose|i: int| 0 <= i < run.len() && run[i] == p;
        crate::seq::lemma_offset_of_step(base, at);
        assert(crate::seq::seq_offset(p.seq, base) == at);
        assert forall|i: int| 0 <= i < run.len() && arrivals.contains(#[trigger] run[i]) implies i
            < r.slots.len() && r.slots[i] is Some by {
            if i != at {
                let k = choose|k: int| 0 <= k < arrivals.len() && arrivals[k] == run[i];
                if k == arrivals.len() - 1 {
                    crate::seq::lemma_offset_of_step(base, i);
                }
                assert(rest[k] == run[i]);
                assert(rest.contains(run[i]));
                assert(before.slots[i] is Some);
            }
        }
    }
}

proof fn lemma_filled_delivers(base: u32, run: Seq<DataView>)
    requires
        base < 0x8000_0000,
    ensures
        delivered(RecvView { base, slots: filled(run) }) == run,
        drained(RecvView { base, slots: filled(run) }).base == crate::seq::seq_add(
            base,
            run.len() as int,
        ),
        gaps(base, filled(run)) == Seq::<(u32, u32)>::empty(),
    decreases run.len(),
{
    let r = RecvView { base, slots: filled(run) };
    if run.len() > 0 {
        let next = crate::seq::seq_add(base, 1);
        assert(r.slots[0] == Some(run[0]));
        assert(r.popped().slots =~= filled(run.skip(1)));
        assert(r.popped() == RecvView { base: next, slots: filled(run.skip(1)) });
        lemma_filled_delivers(next, run.skip(1));
        crate::seq::lemma_steps(base, 1, run.len() - 1);
        assert(seq![run[0]] + run.skip(1) =~= run);
        assert(r.slots.drop_last() =~= filled(run.drop_last()));
        lemma_filled_delivers(base, run.drop_last());
        if run.len() > 1 {
            assert(r.slots.drop_last().last() == Some(run[run.len() - 2]));
        }
    } else {
        crate::seq::lemma_steps(base, 0, 0);
    }
}

/// However a run of consecutive packets is shuffled on its way, and whichever of
/// them arrive more than once: when all have arrived, nothing is missing, the
/// buffer hands out exactly the run in order, and the delivery point then lies
/// right behind it.
pub proof fn law_any_arrival_order_reassembles(
    base: u32,
    arrivals: Seq<DataView>,
    run: Seq<DataView>,
)
    requires
        base < 0x8000_0000,
        run.len() <= 0x4000_0000,
        forall|i: int| 0 <= i < run.len() ==> (#[trigger] run[i]).seq == crate::seq::seq_add(base, i),
        forall|k: int| 0 <= k < arrivals.len() ==> run.contains(#[trigger] arrivals[k]),
        forall|i: int| 0 <= i < run.len() ==> arrivals.contains(#[trigger] run[i]),
    ensures
        ({
            let r = after_arrivals(RecvView { base, slots: Seq::empty() }, arrivals);
            &&& r.missing() == Seq::<(u32, u32)>::empty()
            &&& delivered(r) == run
            &&& drained(r).base == crate::seq::seq_add(base, run.len() as int)
        }),
{
    let r = after_arrivals(RecvView { base, slots: Seq::empty() }, arrivals);
    lemma_arrivals(base, arrivals, run);
    if run.len() > 0 {
        assert(arrivals.contains(run[run.len() - 1]));
    }
    assert forall|i: int| 0 <= i < run.len() implies r.slots[i] == Some(#[trigger] run[i]) by {
        assert(arrivals.contains(run[i]));
    }
    assert(r.slots =~= filled(run));
    lemma_filled_delivers(base, run);
}

proof fn lemma_leading(slots: Seq<Option<DataView>>)
    ensures
        leading(slots) <= slots.len(),
        forall|i: int| 0 <= i < leading(slots) ==> (#[trigger] slots[i]) is Some,
        leading(slots) < slots.len() ==> slots[leading(slots) as int] is None,
    decreases slots.len(),
{
    if slots.len() > 0 && slots[0] is Some {
        let rest = slots.skip(1);
        lemma_leading(rest);
        assert forall|i: int| 0 <= i < leading(slots) implies (#[trigger] slots[i]) is Some by {
            if i > 0 {
                assert(rest[i - 1] == slots[i]);
            }
        }
    }
}

/// An acknowledgement reports the first number that has not arrived: every packet
/// before it is there, and its own is not.
pub proof fn law_acknowledged_point_is_the_first_missing(r: RecvView) -> (n: int)
    requires
        r.wf(),
    ensures
        0 <= n <= r.slots.len(),
        r.received_point() == (r.base + n) % 0x8000_0000,
        forall|i: int| 0 <= i < n ==> (#[trigger] r.slots[i]) is Some,
        n < r.slots.len() ==> r.slots[n] is None,
{
    lemma_leading(r.slots);
    leading(r.slots) as int
}

proof fn lemma_aged(base: u32, ranges: Seq<(u32, u32)>, threshold: u32, i: int)
    requires
        base < 0x8000_0000,
        threshold < 0x8000_0000,
        0 <= crate::seq::seq_offset(threshold, base),
        forall|k: int|
            0 <= k < ranges.len() ==> (#[trigger] ranges[k]).0 < 0x8000_0000 && ranges[k].1
                < 0x8000_0000 && 0 <= crate::seq::seq_offset(ranges[k].0, base)
                <= crate::seq::seq_offset(ranges[k].1, base),
    ensures
        covered(base, aged(ranges, threshold), i) <==> covered(base, ranges, i) && i
            <= crate::seq::seq_offset(threshold, base),
    decreases ranges.len(),
{
    if ranges.len() > 0 {
        let rest = ranges.drop_last();
        let last = ranges.last();
        assert(ranges[ranges.len() - 1] == last);
        assert forall|k: int| 0 <= k < rest.len() implies (#[trigger] rest[k]).0 < 0x8000_0000
            && rest[k].1 < 0x8000_0000 && 0 <= crate::seq::seq_offset(rest[k].0, base)
            <= crate::seq::seq_offset(rest[k].1, base) by {
            assert(rest[k] == ranges[k]);
        }
        lemma_aged(base, rest, threshold, i);
        lemma_offset_order(last.0, threshold, base);
        lemma_offset_order(last.1, threshold, base);
        let a = aged(rest, threshold);
        let b = aged(ranges, threshold);
        lemma_covered_push(base, rest, last, i);
        assert(rest.push(last) =~= ranges);
        if crate::seq::seq_offset(last.0, threshold) > 0 {
        } else if crate::seq::seq_offset(last.1, threshold) > 0 {
            lemma_covered_push(base, a, (last.0, threshold), i);
        } else {
            lemma_covered_push(base, a, last, i);
        }
    }
}

proof fn lemma_covered_push(base: u32, ranges: Seq<(u32, u32)>, r: (u32, u32), i: int)
    ensures
        covered(base, ranges.push(r), i) <==> covered(base, ranges, i) || crate::seq::seq_offset(
            r.0,
            base,
        ) <= i <= crate::seq::seq_offset(r.1, base),
{
    let more = ranges.push(r);
    if covered(base, ranges, i) {
        let k = choose|k: int|
            0 <= k < ranges.len() && crate::seq::seq_offset((#[trigger] ranges[k]).0, base) <= i
                <= crate::seq::seq_offset(ranges[k].1, base);
        assert(more[k] == ranges[k]);
    }
    assert(more[ranges.len() as int] == r);
    if covered(base, more, i) {
        let k = choose|k: int|
            0 <= k < more.len() && crate::seq::seq_offset((#[trigger] more[k]).0, base) <= i
                <= crate::seq::seq_offset(more[k].1, base);
        if k < ranges.len() {
            assert(ranges[k] == more[k]);
        }
    }
}

proof fn lemma_offset_order(a: u32, b: u32, base: u32)
    requires
        a < 0x8000_0000,
        b < 0x8000_0000,
        base < 0x8000_0000,
        0 <= crate::seq::seq_offset(a, base),
        0 <= crate::seq::seq_offset(b, base),
    ensures
        crate::seq::seq_offset(a, b) == crate::seq::seq_offset(a, base) - crate::seq::seq_offset(
            b,
            base,
        ),
{
}

proof fn lemma_gaps_in_range(base: u32, slots: Seq<Option<DataView>>)
    ensures
        forall|k: int|
            0 <= k < gaps(base, slots).len() ==> (#[trigger] gaps(base, slots)[k]).0 < 0x8000_0000
                && gaps(base, slots)[k].1 < 0x8000_0000,
    decreases slots.len(),
{
    if slots.len() > 0 {
        let rest = slots.drop_last();
        lemma_gaps_in_range(base, rest);
        let h = gaps(base, rest);
        let g = gaps(base, slots);
        assert forall|k: int| 0 <= k < g.len() implies (#[trigger] g[k]).0 < 0x8000_0000 && g[k].1
            < 0x8000_0000 by {
            if k < h.len() {
                assert(g[k] == h[k]);
            }
        }
    }
}

/// A loss report names exactly the missing numbers that lie at least the tolerance
/// behind the newest packet.
pub proof fn law_reports_name_the_gaps_old_enough(r: RecvView, tolerance: u32, i: int)
    requires
        r.wf(),
        0 <= i < r.slots.len(),
    ensures
        covered(r.base, r.missing_aged(tolerance), i) <==> r.slots[i] is None && i + tolerance
            <= r.slots.len() - 1,
{
    law_missing_names_exactly_the_gaps(r, i);
    lemma_trailing_gap(r.slots);
    if tolerance == 0 {
    } else if tolerance >= r.slots.len() {
    } else {
        let newest = crate::seq::seq_add(r.base, r.slots.len() - 1);
        let threshold = crate::seq::seq_add(newest, -tolerance);
        lemma_step_back(r.base, r.slots.len() - 1, tolerance as int);
        lemma_gaps_in_range(r.base, r.slots);
        lemma_gaps_cover(r.base, r.slots);
        let g = r.missing();
        assert forall|k: int| 0 <= k < g.len() implies (#[trigger] g[k]).0 < 0x8000_0000
            && g[k].1 < 0x8000_0000 && 0 <= crate::seq::seq_offset(g[k].0, r.base)
            <= crate::seq::seq_offset(g[k].1, r.base) by {}
        lemma_aged(r.base, g, threshold, i);
    }
}

proof fn lemma_step_back(base: u32, ahead: int, back: int)
    requires
        base < 0x8000_0000,
        0 <= back <= ahead < 0x4000_0000,
    ensures
        crate::seq::seq_offset(
            crate::seq::seq_add(crate::seq::seq_add(base, ahead), -back),
            base,
        ) == ahead - back,
{
}

proof fn lemma_aged_in_range(base: u32, ranges: Seq<(u32, u32)>, threshold: u32, len: int)
    requires
        base < 0x8000_0000,
        threshold < 0x8000_0000,
        0 <= crate::seq::seq_offset(threshold, base) < len,
        forall|k: int|
            0 <= k < ranges.len() ==> (#[trigger] ranges[k]).0 < 0x8000_0000 && ranges[k].1
                < 0x8000_0000 && 0 <= crate::seq::seq_offset(ranges[k].0, base)
                <= crate::seq::seq_offset(ranges[k].1, base) < len,
    ensures
        forall|k: int|
            0 <= k < aged(ranges, threshold).len() ==> (#[trigger] aged(ranges, threshold)[k]).0
                < 0x8000_0000 && aged(ranges, threshold)[k].1 < 0x8000_0000 && 0
                <= crate::seq::seq_offset(aged(ranges, threshold)[k].0, base)
                <= crate::seq::seq_offset(aged(ranges, threshold)[k].1, base) < len,
    decreases ranges.len(),
{
    if ranges.len() > 0 {
        let rest = ranges.drop_last();
        let last = ranges.last();
        assert(ranges[ranges.len() - 1] == last);
        assert forall|k: int| 0 <= k < rest.len() implies (#[trigger] rest[k]).0 < 0x8000_0000
            && rest[k].1 < 0x8000_0000 && 0 <= crate::seq::seq_offset(rest[k].0, base)
            <= crate::seq::seq_offset(rest[k].1, base) < len by {
            assert(rest[k] == ranges[k]);
        }
        lemma_aged_in_range(base, rest, threshold, len);
        lemma_offset_order(last.0, threshold, base);
        let a = aged(rest, threshold);
        let b = aged(ranges, threshold);
        assert forall|k: int| 0 <= k < b.len() implies (#[trigger] b[k]).0 < 0x8000_0000 && b[k].1
            < 0x8000_0000 && 0 <= crate::seq::seq_offset(b[k].0, base) <= crate::seq::seq_offset(
            b[k].1,
            base,
        ) < len by {
            if k < a.len() {
                assert(b[k] == a[k]);
            }
        }
    }
}

/// The ranges of a report lie in the buffer, each from its first number to its last.
pub proof fn lemma_report_in_range(r: RecvView, tolerance: u32)
    requires
        r.wf(),
    ensures
        forall|k: int|
            0 <= k < r.missing_aged(tolerance).len() ==> (#[trigger] r.missing_aged(
                tolerance,
            )[k]).0 < 0x8000_0000 && r.missing_aged(tolerance)[k].1 < 0x8000_0000 && 0
                <= crate::seq::seq_offset(r.missing_aged(tolerance)[k].0, r.base)
                <= crate::seq::seq_offset(r.missing_aged(tolerance)[k].1, r.base) < r.slots.len(),
{
    lemma_trailing_gap(r.slots);
    lemma_gaps_in_range(r.base, r.slots);
    lemma_gaps_cover(r.base, r.slots);
    let g = r.missing();
    assert forall|k: int| 0 <= k < g.len() implies (#[trigger] g[k]).0 < 0x8000_0000 && g[k].1
        < 0x8000_0000 && 0 <= crate::seq::seq_offset(g[k].0, r.base) <= crate::seq::seq_offset(
        g[k].1,
        r.base,
    ) < r.slots.len() by {}
    if 0 < tolerance < r.slots.len() {
        let newest = crate::seq::seq_add(r.base, r.slots.len() - 1);
        lemma_step_back(r.base, r.slots.len() - 1, tolerance as int);
        lemma_aged_in_range(
            r.base,
            g,
            crate::seq::seq_add(newest, -tolerance),
            r.slots.len() as int,
        );
    }
}

} // verus!
