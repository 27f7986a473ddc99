//! Messages: splitting one into packet payloads, and putting it together again.

use crate::buffer;
use crate::packet::{DataPacket, DataView, PacketPosition};
use crate::seq::SeqNumber;
use crate::wire;
use bytes::Bytes;
use vstd::prelude::*;

verus! {

/// One packet's worth of a message: a part of the payload, its place in the
/// message, and the message's number.
#[derive(Debug)]
pub struct Fragment {
    pub(crate) payload: Bytes,
    pub(crate) position: PacketPosition,
    pub(crate) message: u32,
}

/// What a [`Fragment`] holds.
#[verifier::ext_equal]
pub struct FragmentView {
    /// The part of the payload.
    pub payload: Seq<u8>,
    /// Its place in the message.
    pub position: PacketPosition,
    /// The message's number.
    pub message: u32,
}

impl View for Fragment {
    type V = FragmentView;

    closed spec fn view(&self) -> FragmentView {
        FragmentView {
            payload: buffer::bytes_seq(self.payload),
            position: self.position,
            message: self.message,
        }
    }
}

impl Fragment {
    /// Puts a fragment together.
    pub(crate) fn new(payload: Bytes, position: PacketPosition, message: u32) -> (r: Self)
        ensures
            r@ == (FragmentView { payload: buffer::bytes_seq(payload), position, message }),
    {
        Fragment { payload, position, message }
    }

    /// Takes a fragment apart.
    pub(crate) fn into_parts(self) -> (r: (Bytes, PacketPosition, u32))
        ensures
            self@ == (FragmentView {
                payload: buffer::bytes_seq(r.0),
                position: r.1,
                message: r.2,
            }),
    {
        (self.payload, self.position, self.message)
    }
}

/// The views of a run of fragments.
pub open spec fn fragment_views(fragments: Seq<Fragment>) -> Seq<FragmentView> {
    fragments.map_values(|f: Fragment| f@)
}

/// How many fragments a payload of `len` bytes takes.
pub open spec fn fragment_count(len: int, max: int) -> int {
    if len <= max {
        1
    } else {
        (len + max - 1) / max
    }
}

/// Where fragment `i` ends.
pub open spec fn fragment_end(len: int, max: int, i: int) -> int {
    if (i + 1) * max < len {
        (i + 1) * max
    } else {
        len
    }
}

/// Fragment `i` of a message.
pub open spec fn fragment_at(payload: Seq<u8>, max: int, message: u32, i: int) -> FragmentView {
    FragmentView {
        payload: payload.subrange(i * max, fragment_end(payload.len() as int, max, i)),
        position: if payload.len() <= max {
            PacketPosition::Single
        } else if i == 0 {
            PacketPosition::First
        } else if (i + 1) * max >= payload.len() {
            PacketPosition::Last
        } else {
            PacketPosition::Middle
        },
        message,
    }
}

/// A message cut into payloads of at most `max` bytes: the whole as one if it
/// fits, otherwise a first, middle ones and a last.
pub open spec fn fragments_of(payload: Seq<u8>, max: int, message: u32) -> Seq<FragmentView> {
    Seq::new(
        fragment_count(payload.len() as int, max) as nat,
        |i: int| fragment_at(payload, max, message, i),
    )
}

proof fn lemma_fragment_steps(len: int, max: int, i: int)
    by (nonlinear_arith)
    requires
        0 < max,
        0 <= i,
        max < len,
    ensures
        (i + 1) * max == i * max + max,
        0 * max == 0,
        i * max < len <==> i < (len + max - 1) / max,
        i * max >= len ==> (i > 0 ==> (i - 1) * max < len ==> i == (len + max - 1) / max),
        0 <= i * max,
{
}

/// Cuts a message into packet payloads.
pub(crate) fn fragment_message(payload: Bytes, max: usize, message: u32) -> (r: Vec<Fragment>)
    requires
        max > 0,
    ensures
        fragment_views(r@) == fragments_of(buffer::bytes_seq(payload), max as int, message),
{
    let ghost whole = buffer::bytes_seq(payload);
    let len: usize = buffer::as_slice(&payload).len();
    if len <= max {
        let mut single: Vec<Fragment> = Vec::new();
        assert(fragment_end(len as int, max as int, 0) == len) by (nonlinear_arith)
            requires
                len <= max,
                fragment_end(len as int, max as int, 0) == (if (0 + 1) * max < len {
                    (0 + 1) * max
                } else {
                    len as int
                }),
        ;
        assert(0 * max == 0);
        single.push(Fragment::new(payload, PacketPosition::Single, message));
        assert(whole.subrange(0, len as int) =~= whole);
        assert(fragment_views(single@) =~= fragments_of(whole, max as int, message));
        return single;
    }
    let mut fragments: Vec<Fragment> = Vec::new();
    let mut offset: usize = 0;
    let ghost mut i: int = 0;
    proof {
        lemma_fragment_steps(len as int, max as int, 0);
    }
    while offset < len
        invariant
            0 < max < len,
            len == whole.len(),
            whole == buffer::bytes_seq(payload),
            0 <= i,
            fragments@.len() == i,
            offset <= len,
            offset == (if i * max < len { i * max } else { len as int }),
            offset == len ==> i == (len + max - 1) / (max as int),
            offset < len ==> i < (len + max - 1) / (max as int),
            fragment_views(fragments@) == fragments_of(whole, max as int, message).take(i),
        decreases len - offset,
    {
        proof {
            lemma_fragment_steps(len as int, max as int, i);
            lemma_fragment_steps(len as int, max as int, i + 1);
        }
        let rest: usize = len - offset;
        let end: usize = if rest <= max {
            len
        } else {
            offset + max
        };
        let position = if offset == 0 {
            PacketPosition::First
        } else if end == len {
            PacketPosition::Last
        } else {
            PacketPosition::Middle
        };
        assert(i == 0 <==> offset == 0) by (nonlinear_arith)
            requires
                0 <= i,
                0 < max,
                offset == i * max,
        ;
        let part = buffer::slice(&payload, offset, end);
        fragments.push(Fragment::new(part, position, message));
        assert(fragments@.last()@ == fragment_at(whole, max as int, message, i));
        proof {
            i = i + 1;
        }
        assert(fragment_views(fragments@) =~= fragments_of(whole, max as int, message).take(i));
        offset = end;
    }
    assert(fragments_of(whole, max as int, message).take(i) =~= fragments_of(
        whole,
        max as int,
        message,
    ));
    fragments
}

/// No fragment is larger than it may be.
pub proof fn lemma_fragments_fit(payload: Seq<u8>, max: int, message: u32)
    requires
        max > 0,
    ensures
        forall|i: int|
            0 <= i < fragments_of(payload, max, message).len() ==> (#[trigger] fragments_of(
                payload,
                max,
                message,
            )[i]).payload.len() <= max,
{
    let fs = fragments_of(payload, max, message);
    let len = payload.len() as int;
    assert forall|i: int| 0 <= i < fs.len() implies (#[trigger] fs[i]).payload.len() <= max by {
        if len <= max {
            assert(0 * max == 0);
            assert((0 + 1) * max == max) by (nonlinear_arith);
        } else {
            lemma_fragment_steps(len, max, i);
        }
    }
}

/// What a [`Reassembler`] holds.
#[verifier::ext_equal]
pub struct ReassemblerView {
    /// The payloads of the message in progress.
    pub fragments: Seq<Seq<u8>>,
    /// The sequence number that its next packet must have.
    pub next_seq: Option<u32>,
}

impl ReassemblerView {
    /// No message in progress.
    pub open spec fn empty() -> ReassemblerView {
        ReassemblerView { fragments: Seq::empty(), next_seq: None }
    }

    /// After the next packet in order.
    pub open spec fn pushed(self, p: DataView) -> ReassemblerView {
        match p.position {
            PacketPosition::Single => Self::empty(),
            PacketPosition::First => ReassemblerView {
                fragments: seq![p.payload],
                next_seq: Some(crate::seq::seq_add(p.seq, 1)),
            },
            PacketPosition::Middle => if self.next_seq == Some(p.seq) {
                ReassemblerView {
                    fragments: self.fragments.push(p.payload),
                    next_seq: Some(crate::seq::seq_add(p.seq, 1)),
                }
            } else {
                Self::empty()
            },
            PacketPosition::Last => Self::empty(),
        }
    }

    /// The message that the next packet in order completes.
    pub open spec fn completes(self, p: DataView) -> Option<Seq<u8>> {
        match p.position {
            PacketPosition::Single => Some(p.payload),
            PacketPosition::Last => if self.next_seq == Some(p.seq) {
                Some(wire::concat(self.fragments.push(p.payload)))
            } else {
                None
            },
            _ => None,
        }
    }

    /// After a run of packets.
    pub open spec fn pushed_all(self, ps: Seq<DataView>) -> ReassemblerView
        decreases ps.len(),
    {
        if ps.len() == 0 {
            self
        } else {
            self.pushed_all(ps.drop_last()).pushed(ps.last())
        }
    }

    /// The messages that a run of packets completes.
    pub open spec fn completes_all(self, ps: Seq<DataView>) -> Seq<Seq<u8>>
        decreases ps.len(),
    {
        if ps.len() == 0 {
            Seq::empty()
        } else {
            let rest = self.completes_all(ps.drop_last());
            match self.pushed_all(ps.drop_last()).completes(ps.last()) {
                Some(message) => rest.push(message),
                None => rest,
            }
        }
    }
}

/// The contents of a run of payloads.
pub open spec fn payloads(parts: Seq<Bytes>) -> Seq<Seq<u8>> {
    parts.map_values(|b: Bytes| buffer::bytes_seq(b))
}

/// Puts messages together from packets in order. A message in several packets is
/// held until its last one; a gap discards what was held, rather than joining
/// what does not belong together.
#[derive(Debug)]
pub struct Reassembler {
    fragments: Vec<Bytes>,
    next_seq: Option<SeqNumber>,
}

impl View for Reassembler {
    type V = ReassemblerView;

    closed spec fn view(&self) -> ReassemblerView {
        ReassemblerView {
            fragments: payloads(self.fragments@),
            next_seq: match self.next_seq {
                Some(n) => Some(n@),
                None => None,
            },
        }
    }
}

impl Reassembler {
    /// No message in progress.
    pub fn new() -> (r: Self)
        ensures
            r@ == ReassemblerView::empty(),
    {
        let r = Reassembler { fragments: Vec::new(), next_seq: None };
        assert(r@ =~= ReassemblerView::empty());
        r
    }

    /// Takes the next packet in order; returns the message that it completes.
    pub fn push(&mut self, packet: DataPacket) -> (r: Option<Bytes>)
        ensures
            final(self)@ == old(self)@.pushed(packet@),
            match r {
                Some(message) => old(self)@.completes(packet@) == Some(buffer::bytes_seq(message)),
                None => old(self)@.completes(packet@) is None,
            },
    {
        let ghost before = self@;
        let DataPacket { seq, position, payload, .. } = packet;
        let continues = match self.next_seq {
            Some(n) => n.value() == seq.value(),
            None => false,
        };
        match position {
            PacketPosition::Single => {
                self.reset();
                Some(payload)
            },
            PacketPosition::First => {
                let mut fragments: Vec<Bytes> = Vec::new();
                fragments.push(payload);
                self.fragments = fragments;
                self.next_seq = Some(seq.next());
                assert(self@ =~= before.pushed(packet@));
                None
            },
            PacketPosition::Middle => {
                if !continues {
                    self.reset();
                    return None;
                }
                self.fragments.push(payload);
                self.next_seq = Some(seq.next());
                assert(self@ =~= before.pushed(packet@));
                None
            },
            PacketPosition::Last => {
                if !continues {
                    self.reset();
                    return None;
                }
                self.fragments.push(payload);
                assert(payloads(self.fragments@) =~= before.fragments.push(
                    buffer::bytes_seq(payload),
                ));
                let message = join(&self.fragments);
                self.reset();
                Some(message)
            },
        }
    }

    fn reset(&mut self)
        ensures
            final(self)@ == ReassemblerView::empty(),
    {
        self.fragments = Vec::new();
        self.next_seq = None;
        assert(self@ =~= ReassemblerView::empty());
    }
}

/// The payloads one behind the other.
fn join(parts: &Vec<Bytes>) -> (r: Bytes)
    ensures
        buffer::bytes_seq(r) == wire::concat(payloads(parts@)),
{
    let mut message = buffer::buf_new();
    let mut i: usize = 0;
    let ghost all = payloads(parts@);
    assert(wire::concat(all.take(0)) =~= Seq::<u8>::empty());
    while i < parts.len()
        invariant
            i <= parts@.len(),
            all == payloads(parts@),
            buffer::buf_seq(message) == wire::concat(all.take(i as int)),
        decreases parts@.len() - i,
    {
        proof {
            wire::lemma_concat_part(all, i as int);
        }
        buffer::put_slice(&mut message, buffer::as_slice(&parts[i]));
        i += 1;
    }
    assert(all.take(i as int) =~= all);
    buffer::freeze(message)
}

/// The packets that carry the fragments of one message.
pub open spec fn carry(ps: Seq<DataView>, payload: Seq<u8>, max: int, message: u32) -> bool {
    &&& ps.len() == fragments_of(payload, max, message).len()
    &&& forall|i: int|
        #![trigger ps[i]]
        0 <= i < ps.len() ==> {
            &&& ps[i].payload == fragment_at(payload, max, message, i).payload
            &&& ps[i].position == fragment_at(payload, max, message, i).position
            &&& ps[i].seq == crate::seq::seq_add(ps[0].seq, i)
            &&& ps[i].seq < 0x8000_0000
        }
}

/// The payloads of the first `n` packets.
spec fn first_payloads(ps: Seq<DataView>, n: int) -> Seq<Seq<u8>> {
    Seq::new(n as nat, |i: int| ps[i].payload)
}

proof fn lemma_prefix_of_message(
    r: ReassemblerView,
    ps: Seq<DataView>,
    payload: Seq<u8>,
    max: int,
    message: u32,
    n: int,
)
    requires
        0 < max < payload.len(),
        carry(ps, payload, max, message),
        1 <= n < ps.len(),
    ensures
        r.completes_all(ps.take(n)) == Seq::<Seq<u8>>::empty(),
        r.pushed_all(ps.take(n)).fragments == first_payloads(ps, n),
        r.pushed_all(ps.take(n)).next_seq == Some(ps[n].seq),
        wire::concat(first_payloads(ps, n)) == payload.take(n * max),
        n * max < payload.len(),
    decreases n,
{
    let len = payload.len() as int;
    lemma_fragment_steps(len, max, n);
    lemma_fragment_steps(len, max, n - 1);
    let head = ps.take(n);
    assert(head.drop_last() =~= ps.take(n - 1));
    assert(head.last() == ps[n - 1]);
    assert(ps[n].seq == crate::seq::seq_add(ps[0].seq, n));
    assert(ps[n - 1].seq == crate::seq::seq_add(ps[0].seq, n - 1));
    crate::seq::lemma_steps(ps[0].seq, n - 1, 1);
    let parts = first_payloads(ps, n);
    assert(parts.drop_last() =~= first_payloads(ps, n - 1));
    assert(parts.last() == payload.subrange((n - 1) * max, n * max));
    if n == 1 {
        assert(ps.take(0) =~= Seq::<DataView>::empty());
        assert(r.completes_all(ps.take(0)) =~= Seq::<Seq<u8>>::empty());
        assert(r.pushed_all(ps.take(0)) == r);
        assert(parts =~= seq![ps[0].payload]);
        assert(wire::concat(parts.drop_last()) =~= Seq::<u8>::empty());
        assert(wire::concat(parts) =~= payload.take(max));
    } else {
        lemma_prefix_of_message(r, ps, payload, max, message, n - 1);
        assert(parts =~= first_payloads(ps, n - 1).push(ps[n - 1].payload));
        assert(wire::concat(parts) =~= payload.take(n * max));
    }
}

/// A message that was cut into fragments comes out whole, exactly once, when its
/// packets arrive in order, whatever came before.
pub proof fn law_fragments_come_back_as_the_message(
    r: ReassemblerView,
    ps: Seq<DataView>,
    payload: Seq<u8>,
    max: int,
    message: u32,
)
    requires
        0 < max,
        carry(ps, payload, max, message),
    ensures
        r.completes_all(ps) == seq![payload],
        r.pushed_all(ps) == ReassemblerView::empty(),
{
    let len = payload.len() as int;
    if len <= max {
        assert(0 * max == 0);
        assert((0 + 1) * max == max);
        assert(ps.len() == 1);
        assert(ps.drop_last() =~= Seq::<DataView>::empty());
        assert(r.completes_all(ps.drop_last()) =~= Seq::<Seq<u8>>::empty());
        assert(payload.subrange(0, len) =~= payload);
        assert(r.completes_all(ps) =~= seq![payload]);
    } else {
        let n = ps.len() as int;
        lemma_fragment_steps(len, max, 1);
        lemma_fragment_steps(len, max, n);
        lemma_fragment_steps(len, max, n - 1);
        lemma_prefix_of_message(r, ps, payload, max, message, n - 1);
        assert(ps.take(n - 1) =~= ps.drop_last());
        let parts = first_payloads(ps, n - 1).push(ps[n - 1].payload);
        assert(parts.drop_last() =~= first_payloads(ps, n - 1));
        assert(wire::concat(parts) =~= payload);
        assert(r.completes_all(ps) =~= seq![payload]);
    }
}

/// The first packet of a run, then the rest.
pub proof fn lemma_run_front(r: ReassemblerView, ps: Seq<DataView>)
    requires
        ps.len() > 0,
    ensures
        r.pushed_all(ps) == r.pushed(ps[0]).pushed_all(ps.skip(1)),
        r.completes_all(ps) == (match r.completes(ps[0]) {
            Some(message) => seq![message],
            None => Seq::empty(),
        }) + r.pushed(ps[0]).completes_all(ps.skip(1)),
    decreases ps.len(),
{
    let front = ps.drop_last();
    let first = r.pushed(ps[0]);
    let lead: Seq<Seq<u8>> = match r.completes(ps[0]) {
        Some(message) => seq![message],
        None => Seq::empty(),
    };
    if ps.len() == 1 {
        assert(front =~= Seq::<DataView>::empty());
        assert(ps.skip(1) =~= Seq::<DataView>::empty());
        assert(r.pushed_all(front) == r);
        assert(r.completes_all(front) =~= Seq::<Seq<u8>>::empty());
        assert(first.completes_all(ps.skip(1)) =~= Seq::<Seq<u8>>::empty());
        assert(r.completes_all(ps) =~= lead + first.completes_all(ps.skip(1)));
    } else {
        lemma_run_front(r, front);
        assert(front[0] == ps[0]);
        assert(front.skip(1) =~= ps.skip(1).drop_last());
        assert(ps.skip(1).last() == ps.last());
        assert(r.completes_all(ps) =~= lead + first.completes_all(ps.skip(1)));
    }
}

/// A lost fragment discards the message: without the packet before it, no later
/// fragment completes anything.
pub proof fn law_gap_discards_the_message(r: ReassemblerView, p: DataView)
    requires
        r.next_seq != Some(p.seq),
        p.position == PacketPosition::Middle || p.position == PacketPosition::Last,
    ensures
        r.completes(p) is None,
        r.pushed(p) == ReassemblerView::empty(),
{
}

/// Whether the packets from `a` on start a message and go on with it, under
/// consecutive numbers.
pub open spec fn in_progress(ps: Seq<DataView>, a: int) -> bool {
    &&& 0 <= a < ps.len()
    &&& ps[a].position == PacketPosition::First
    &&& ps[a].seq < 0x8000_0000
    &&& forall|k: int|
        a < k < ps.len() ==> (#[trigger] ps[k]).position == PacketPosition::Middle && ps[k].seq
            == crate::seq::seq_add(ps[a].seq, k - a)
}

/// Whether the packets from `a` on are one whole message: a single packet, or a first,
/// middle ones and a last under consecutive numbers.
pub open spec fn whole(ps: Seq<DataView>, a: int) -> bool {
    let n = ps.len() as int;
    ||| a == n - 1 && 0 <= a && ps[a].position == PacketPosition::Single
    ||| a < n - 1 && in_progress(ps.drop_last(), a) && ps[n - 1].position == PacketPosition::Last
        && ps[n - 1].seq == crate::seq::seq_add(ps[a].seq, n - 1 - a)
}

/// The payloads of the packets from `a` on.
pub open spec fn payloads_from(ps: Seq<DataView>, a: int) -> Seq<Seq<u8>> {
    Seq::new((ps.len() - a) as nat, |k: int| ps[a + k].payload)
}

proof fn lemma_progress_is_held(ps: Seq<DataView>, a: int)
    requires
        in_progress(ps, a),
    ensures
        ReassemblerView::empty().pushed_all(ps) == (ReassemblerView {
            fragments: payloads_from(ps, a),
            next_seq: Some(crate::seq::seq_add(ps[a].seq, ps.len() - a)),
        }),
    decreases ps.len(),
{
    let rest = ps.drop_last();
    let p = ps.last();
    if a == ps.len() - 1 {
        assert(payloads_from(ps, a) =~= seq![p.payload]);
    } else {
        assert forall|k: int| a < k < rest.len() implies (#[trigger] rest[k]).position
            == PacketPosition::Middle && rest[k].seq == crate::seq::seq_add(rest[a].seq, k - a) by {
            assert(rest[k] == ps[k]);
        }
        lemma_progress_is_held(rest, a);
        assert(ps[ps.len() - 1] == p);
        assert(p.seq == crate::seq::seq_add(ps[a].seq, ps.len() - 1 - a));
        crate::seq::lemma_steps(ps[a].seq, ps.len() - 1 - a, 1);
        assert(payloads_from(ps, a) =~= payloads_from(rest, a).push(p.payload));
    }
}

proof fn lemma_held_is_in_progress(ps: Seq<DataView>) -> (a: int)
    requires
        forall|k: int| 0 <= k < ps.len() ==> (#[trigger] ps[k]).seq < 0x8000_0000,
    ensures
        ReassemblerView::empty().pushed_all(ps).next_seq is Some ==> in_progress(ps, a),
    decreases ps.len(),
{
    if ps.len() == 0 {
        0
    } else {
        let rest = ps.drop_last();
        let p = ps.last();
        assert(ps[ps.len() - 1] == p);
        assert forall|k: int| 0 <= k < rest.len() implies (#[trigger] rest[k]).seq
            < 0x8000_0000 by {
            assert(rest[k] == ps[k]);
        }
        let a = lemma_held_is_in_progress(rest);
        if p.position == PacketPosition::First {
            ps.len() - 1
        } else {
            let r = ReassemblerView::empty().pushed_all(rest);
            if p.position == PacketPosition::Middle && r.next_seq == Some(p.seq) {
                lemma_progress_is_held(rest, a);
                assert forall|k: int| a < k < ps.len() implies (#[trigger] ps[k]).position
                    == PacketPosition::Middle && ps[k].seq == crate::seq::seq_add(
                    ps[a].seq,
                    k - a,
                ) by {
                    if k < rest.len() {
                        assert(rest[k] == ps[k]);
                    }
                }
                assert(rest[a] == ps[a]);
            }
            a
        }
    }
}

/// A message comes out exactly when the packets just taken are the whole of it: a single
/// packet, or a first, its middle ones and its last, in order and without a gap; and
/// it is their payloads, one behind the other. Packets of different messages, or around a
/// gap, are never joined.
pub proof fn law_only_whole_messages_come_out(ps: Seq<DataView>) -> (a: int)
    requires
        ps.len() > 0,
        forall|k: int| 0 <= k < ps.len() ==> (#[trigger] ps[k]).seq < 0x8000_0000,
    ensures
        ({
            let out = ReassemblerView::empty().pushed_all(ps.drop_last()).completes(ps.last());
            &&& out is Some ==> whole(ps, a) && out == Some(wire::concat(payloads_from(ps, a)))
            &&& forall|b: int| whole(ps, b) ==> out == Some(wire::concat(payloads_from(ps, b)))
        }),
{
    let rest = ps.drop_last();
    let p = ps.last();
    let n = ps.len() as int;
    let r = ReassemblerView::empty().pushed_all(rest);
    let out = r.completes(p);
    assert forall|k: int| 0 <= k < rest.len() implies (#[trigger] rest[k]).seq < 0x8000_0000 by {
        assert(rest[k] == ps[k]);
    }
    let held = lemma_held_is_in_progress(rest);
    assert forall|b: int| whole(ps, b) implies out == Some(
        wire::concat(payloads_from(ps, b)),
    ) by {
        if ps[n - 1].position == PacketPosition::Single {
            lemma_concat_single(ps, b);
        } else {
            lemma_progress_is_held(rest, b);
            assert(rest[b] == ps[b]);
            assert(payloads_from(ps, b) =~= payloads_from(rest, b).push(p.payload));
        }
    }
    if p.position == PacketPosition::Single {
        assert(whole(ps, n - 1));
        n - 1
    } else {
        if out is Some {
            lemma_progress_is_held(rest, held);
            assert(rest[held] == ps[held]);
            assert(whole(ps, held));
        }
        held
    }
}

proof fn lemma_concat_single(ps: Seq<DataView>, b: int)
    requires
        ps.len() > 0,
        b == ps.len() - 1,
    ensures
        wire::concat(payloads_from(ps, b)) == ps.last().payload,
{
    let one = payloads_from(ps, b);
    assert(one.drop_last() =~= Seq::empty());
    assert(one.last() == ps.last().payload);
    assert(wire::concat(one.drop_last()) =~= Seq::<u8>::empty());
    assert(wire::concat(one) =~= ps.last().payload);
}

} // verus!
