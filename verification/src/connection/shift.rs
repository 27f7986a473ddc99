//! Only the time since the start counts: a connection whose instants are all
//! moved by the same amount does the same, as long as no instant leaves the clock.

use crate::arith;
use crate::connection::config::{ConfigView, NegotiatedView};
use crate::connection::event::TimerId;
use crate::connection::message;
use crate::connection::message::FragmentView;
use crate::connection::model;
use crate::connection::model::ConnView;
use crate::connection::runs::Input;
use crate::connection::{Side, State};
use crate::control::{AckCif, ControlView};
use crate::error::{CryptoError, PacketError};
use crate::fec::RecoveredView;
use crate::handshake::HandshakeView;
use crate::packet::{DataView, Encryption, PacketView, SocketId};
use crate::recv_buffer;
use crate::recv_buffer::RecvView;
use crate::send_buffer;
use crate::send_buffer::SentView;
use crate::stats::Stats;
use vstd::prelude::*;

verus! {

/// The instant `d` nanoseconds later, or earlier if `d` is negative.
pub open spec fn moved_instant(t: u64, d: int) -> u64 {
    (t + d) as u64
}

/// Whether an instant moved by `d` is still on the clock.
pub open spec fn on_clock(t: u64, d: int) -> bool {
    0 <= t + d <= u64::MAX
}

/// An instant, if there is one, moved by `d`.
pub open spec fn moved_option(t: Option<u64>, d: int) -> Option<u64> {
    match t {
        Some(t) => Some(moved_instant(t, d)),
        None => None,
    }
}

/// A sent packet with its instant moved by `d`.
pub open spec fn moved_packet(p: SentView, d: int) -> SentView {
    SentView { last_retransmit: moved_option(p.last_retransmit, d), ..p }
}

/// Sent packets with their instants moved by `d`.
pub open spec fn moved_sent(s: Seq<SentView>, d: int) -> Seq<SentView> {
    Seq::new(s.len(), |i: int| moved_packet(s[i], d))
}

/// Acknowledgements with their instants moved by `d`.
pub open spec fn moved_acks(s: Seq<(u32, u64)>, d: int) -> Seq<(u32, u64)> {
    Seq::new(s.len(), |i: int| (s[i].0, moved_instant(s[i].1, d)))
}

impl ConnView {
    /// The connection with all its instants moved by `d`; all else is the same,
    /// among it what waits to be fetched.
    pub open spec fn moved(self, d: int) -> ConnView {
        ConnView {
            start: moved_instant(self.start, d),
            send_buffer: moved_sent(self.send_buffer, d),
            tsbpd_base: match self.tsbpd_base {
                Some((ts, at)) => Some((ts, moved_instant(at, d))),
                None => None,
            },
            pending_acks: moved_acks(self.pending_acks, d),
            last_nak: moved_option(self.last_nak, d),
            next_send: moved_option(self.next_send, d),
            last_sent: moved_instant(self.last_sent, d),
            last_recv_any: moved_instant(self.last_recv_any, d),
            last_recv: moved_option(self.last_recv, d),
            ..self
        }
    }

    /// Whether all its instants, moved by `d`, are still on the clock.
    pub open spec fn fits(self, d: int) -> bool {
        &&& on_clock(self.start, d)
        &&& forall|i: int|
            0 <= i < self.send_buffer.len() ==> ((#[trigger] self.send_buffer[i]).last_retransmit
                matches Some(t) ==> on_clock(t, d))
        &&& self.tsbpd_base matches Some((_, t)) ==> on_clock(t, d)
        &&& forall|i: int|
            0 <= i < self.pending_acks.len() ==> on_clock((#[trigger] self.pending_acks[i]).1, d)
        &&& self.last_nak matches Some(t) ==> on_clock(t, d)
        &&& self.next_send matches Some(t) ==> on_clock(t, d)
        &&& on_clock(self.last_sent, d)
        &&& on_clock(self.last_recv_any, d)
        &&& self.last_recv matches Some(t) ==> on_clock(t, d)
    }

    /// Whether the times of arrival and of delivery that the time base gives for
    /// a timestamp are on the clock, moved by `d` or not.
    pub open spec fn time_clear(self, ts: u32, d: int) -> bool {
        match (self.tsbpd_base, self.ts_wrap) {
            (Some((ref_ts, at)), Some(wrap)) => {
                let expected = at + arith::clamp_i64(
                    arith::clamp_i64(wrap.place(ts) - ref_ts) + self.drift.correction_us,
                ) * 1_000;
                &&& 0 <= expected
                &&& 0 <= expected + d
                &&& expected + self.latency <= u64::MAX
                &&& expected + self.latency + d <= u64::MAX
            },
            _ => true,
        }
    }

    /// Whether that is so of every packet held. A latency is never negative.
    pub open spec fn clear(self, d: int) -> bool {
        &&& self.latency >= 0
        &&& forall|i: int|
            0 <= i < self.recv_buffer.slots.len() ==> ((#[trigger] self.recv_buffer.slots[i])
                matches Some(p) ==> self.time_clear(p.timestamp, d))
    }

    /// Whether that is so of a packet that comes in, before and after it has
    /// shown the drift, and of those held by then.
    pub open spec fn arrival_clear(self, p: DataView, now: u64, d: int) -> bool {
        &&& self.latency >= 0
        &&& self.anchored(p.timestamp, now).time_clear(p.timestamp, d)
        &&& self.clear_payload(p) matches Some(payload) ==> {
            let q = DataView { payload, ..p };
            self.recv_buffer.inserted(q) matches Some(buffer) ==> self.stored(
                q,
                buffer,
                now,
            ).clear(d)
        }
    }

    /// Whether that is so of a packet that parity has brought back.
    pub open spec fn injection_clear(self, r: RecoveredView, now: u64, d: int) -> bool {
        Encryption::of_bits(r.flags as int) matches Ok(encryption) ==> self.rebuilt_counted()
            .arrival_clear(self.rebuilt_packet(r, encryption), now, d)
    }

    /// Whether the pacer's next turn is on the clock, moved by `d` or not.
    pub open spec fn pacer_clear(self, now: u64, d: int) -> bool {
        self.live_cc matches Some(cc) ==> {
            &&& 0 <= cc.snd_period
            &&& now + cc.snd_period <= u64::MAX
            &&& now + cc.snd_period + d <= u64::MAX
        }
    }

    /// Whether that is so of all the packets that parity has brought back.
    pub open spec fn injected_clear(self, rs: Seq<RecoveredView>, now: u64, d: int) -> bool
        decreases rs.len(),
    {
        rs.len() > 0 ==> {
            &&& self.injected_clear(rs.drop_last(), now, d)
            &&& self.injected_all(rs.drop_last(), now).injection_clear(rs.last(), now, d)
        }
    }
}

proof fn lemma_elapsed(now: u64, then: u64, d: int)
    requires
        on_clock(now, d),
        on_clock(then, d),
    ensures
        model::since(moved_instant(now, d), moved_instant(then, d)) == model::since(now, then),
        model::wire_ts(moved_instant(then, d), moved_instant(now, d)) == model::wire_ts(then, now),
        model::signed_micros(moved_instant(then, d), moved_instant(now, d))
            == model::signed_micros(then, now),
{
}

proof fn lemma_ts(s: ConnView, now: u64, d: int)
    requires
        s.fits(d),
        on_clock(now, d),
    ensures
        s.moved(d).ts(moved_instant(now, d)) == s.ts(now),
{
    lemma_elapsed(now, s.start, d);
}

// ---- sending ----

proof fn lemma_accounted(s: ConnView, d: int)
    requires
        s.fits(d),
    ensures
        s.moved(d).accounted() == s.accounted().moved(d),
        s.accounted().fits(d),
        s.accounted().live_cc == s.live_cc,
        s.accounted().next_send == s.next_send,
{
    reveal(ConnView::accounted);
    reveal(ConnView::rotated);
}

proof fn lemma_packets(s: ConnView, f: FragmentView, now: u64, d: int)
    requires
        s.fits(d),
        on_clock(now, d),
    ensures
        s.moved(d).wire_packet(f, moved_instant(now, d)) == s.wire_packet(f, now),
{
    reveal(ConnView::plain_packet);
    reveal(ConnView::wire_packet);
    lemma_ts(s, now, d);
}

proof fn lemma_kept(s: ConnView, p: DataView, len: int, d: int)
    requires
        s.fits(d),
    ensures
        s.moved(d).kept(p, len) == s.kept(p, len).moved(d),
        s.kept(p, len).fits(d),
        s.moved(d).parity_due(p) == s.parity_due(p),
        s.kept(p, len).next_send == s.next_send,
{
    reveal(ConnView::kept);
    reveal(ConnView::parity_due);
    let sent = SentView { packet: p, last_retransmit: None };
    assert(moved_sent(s.send_buffer, d).push(sent) =~= moved_sent(s.send_buffer.push(sent), d));
}

proof fn lemma_sent(s: ConnView, f: FragmentView, now: u64, d: int)
    requires
        s.fits(d),
        on_clock(now, d),
    ensures
        s.moved(d).sent(f, moved_instant(now, d)) == s.sent(f, now).moved(d),
        s.sent(f, now).fits(d),
        s.sent(f, now).next_send == s.next_send,
{
    reveal(ConnView::sent);
    let a = s.accounted();
    lemma_accounted(s, d);
    reveal(ConnView::sent_now);
    let p = a.wire_packet(f, now);
    lemma_packets(a, f, now, d);
    lemma_kept(a, p, f.payload.len() as int, d);
    reveal(ConnView::parity_sent);
    reveal(ConnView::exp_armed);
}

proof fn lemma_sent_all(s: ConnView, fs: Seq<FragmentView>, now: u64, d: int)
    requires
        s.fits(d),
        on_clock(now, d),
    ensures
        s.moved(d).sent_all(fs, moved_instant(now, d)) == s.sent_all(fs, now).moved(d),
        s.sent_all(fs, now).fits(d),
    decreases fs.len(),
{
    reveal(ConnView::sent_all);
    if fs.len() > 0 {
        lemma_sent_all(s, fs.drop_last(), now, d);
        lemma_sent(s.sent_all(fs.drop_last(), now), fs.last(), now, d);
    }
}

proof fn lemma_released_due(s: ConnView, released: nat, period: int, now: u64, d: int)
    requires
        s.fits(d),
        on_clock(now, d),
        0 <= period,
        now + period <= u64::MAX,
        now + period + d <= u64::MAX,
    ensures
        s.moved(d).released_due(released, period, moved_instant(now, d)) == (
            s.released_due(released, period, now).0.moved(d),
            s.released_due(released, period, now).1,
        ),
        s.released_due(released, period, now).0.fits(d),
    decreases model::MAX_PACE_BURST - released,
{
    reveal(ConnView::released_due);
    reveal(ConnView::releases);
    let then = moved_instant(now, d);
    if s.releases(released, now) {
        let q = ConnView { send_queue: s.send_queue.skip(1), ..s };
        lemma_sent(q, s.send_queue[0], now, d);
        assert(s.moved(d).released_one(period, then) == s.released_one(period, now).moved(d)
            && s.released_one(period, now).fits(d)) by {
            reveal(ConnView::released_one);
            reveal(ConnView::slot_used);
        }
        lemma_released_due(s.released_one(period, now), released + 1, period, now, d);
        assert(s.moved(d).releases(released, then));
    }
}

proof fn lemma_shut_down(s: ConnView, now: u64, d: int)
    requires
        s.fits(d),
        on_clock(now, d),
    ensures
        s.moved(d).shut_down(moved_instant(now, d)) == s.shut_down(now).moved(d),
        s.shut_down(now).fits(d),
        s.moved(d).closed_if_drained(moved_instant(now, d)) == s.closed_if_drained(now).moved(d),
        s.closed_if_drained(now).fits(d),
{
    reveal(ConnView::shut_down);
    reveal(ConnView::timers_cleared);
    reveal(ConnView::closed_if_drained);
    lemma_ts(s, now, d);
}

proof fn lemma_paced(s: ConnView, now: u64, d: int)
    requires
        s.fits(d),
        on_clock(now, d),
        s.pacer_clear(now, d),
    ensures
        s.moved(d).paced(moved_instant(now, d)) == s.paced(now).moved(d),
        s.paced(now).fits(d),
{
    reveal(ConnView::paced);
    if let Some(cc) = s.live_cc {
        let (t, released) = s.released_due(0, cc.snd_period, now);
        lemma_released_due(s, 0, cc.snd_period, now, d);
        reveal(ConnView::rescheduled);
        let late = ConnView { next_send: Some(model::later(now, cc.snd_period)), ..t };
        lemma_shut_down(t.untimed(TimerId::SndPacing), now, d);
        lemma_shut_down(late.untimed(TimerId::SndPacing), now, d);
        if let Some(at) = t.next_send {
            lemma_elapsed(at, now, d);
        }
        lemma_elapsed(now, now, d);
        lemma_elapsed(model::later(now, cc.snd_period), now, d);
    }
}

proof fn lemma_submitted(s: ConnView, payload: Seq<u8>, now: u64, d: int)
    requires
        s.fits(d),
        on_clock(now, d),
        s.pacer_clear(now, d),
    ensures
        s.moved(d).submitted(payload, moved_instant(now, d)) == s.submitted(payload, now).moved(d),
        s.submitted(payload, now).fits(d),
{
    reveal(ConnView::submitted);
    let fs = message::fragments_of(payload, s.max_payload(), s.next_message);
    let t = ConnView { next_message: model::following_message(s.next_message), ..s };
    lemma_sent_all(t, fs, now, d);
    lemma_paced(ConnView { send_queue: t.send_queue + fs, ..t }, now, d);
}

// ---- retransmitting ----

proof fn lemma_late_count(s: Seq<SentView>, ts: u32, budget: int, d: int)
    ensures
        model::late_count(moved_sent(s, d), ts, budget) == model::late_count(s, ts, budget),
        model::late_count(s, ts, budget) <= s.len(),
    decreases s.len(),
{
    if s.len() > 0 {
        lemma_late_count(s.skip(1), ts, budget, d);
        assert(moved_sent(s, d).skip(1) =~= moved_sent(s.skip(1), d));
    }
}

proof fn lemma_late_dropped(s: ConnView, now: u64, d: int)
    requires
        s.fits(d),
        on_clock(now, d),
    ensures
        s.moved(d).late_dropped(moved_instant(now, d)) == s.late_dropped(now).moved(d),
        s.late_dropped(now).fits(d),
{
    reveal(ConnView::late_dropped);
    reveal(ConnView::shed);
    reveal(ConnView::drop_budget);
    lemma_ts(s, now, d);
    lemma_late_count(s.send_buffer, s.ts(now), s.drop_budget(), d);
    let n = model::late_count(s.send_buffer, s.ts(now), s.drop_budget()) as int;
    assert(moved_sent(s.send_buffer, d).skip(n) =~= moved_sent(s.send_buffer.skip(n), d));
}

proof fn lemma_resent_if_due(s: ConnView, n: u32, start: u32, end: u32, now: u64, d: int)
    requires
        s.fits(d),
        on_clock(now, d),
    ensures
        s.moved(d).resent_if_due(n, start, end, moved_instant(now, d)) == s.resent_if_due(
            n,
            start,
            end,
            now,
        ).moved(d),
        s.resent_if_due(n, start, end, now).fits(d),
{
    reveal(ConnView::resent_if_due);
    reveal(ConnView::resend_due);
    reveal(ConnView::resent_at);
    if let Some(i) = send_buffer::position(s.send_buffer, n) {
        if let Some(at) = s.send_buffer[i].last_retransmit {
            lemma_elapsed(now, at, d);
        }
        let again = SentView { last_retransmit: Some(now), ..s.send_buffer[i] };
        assert(moved_sent(s.send_buffer, d).update(i, moved_packet(again, d)) =~= moved_sent(
            s.send_buffer.update(i, again),
            d,
        ));
    }
}

proof fn lemma_resent_from(
    s: ConnView,
    first: u32,
    k: nat,
    start: u32,
    end: u32,
    now: u64,
    d: int,
)
    requires
        s.fits(d),
        on_clock(now, d),
    ensures
        s.moved(d).resent_from(first, k, start, end, moved_instant(now, d)) == s.resent_from(
            first,
            k,
            start,
            end,
            now,
        ).moved(d),
        s.resent_from(first, k, start, end, now).fits(d),
    decreases k,
{
    reveal(ConnView::resent_from);
    if k > 0 {
        let before = s.resent_from(first, (k - 1) as nat, start, end, now);
        lemma_resent_from(s, first, (k - 1) as nat, start, end, now, d);
        lemma_resent_if_due(before, crate::seq::seq_add(first, k - 1), start, end, now, d);
    }
}

proof fn lemma_retransmitted(s: ConnView, start: u32, end: u32, now: u64, d: int)
    requires
        s.fits(d),
        on_clock(now, d),
    ensures
        s.moved(d).retransmitted(start, end, moved_instant(now, d)) == s.retransmitted(
            start,
            end,
            now,
        ).moved(d),
        s.retransmitted(start, end, now).fits(d),
{
    reveal(ConnView::retransmitted);
    if s.send_buffer.len() > 0 {
        let first = s.send_buffer[0].packet.seq;
        let last = s.send_buffer.last().packet.seq;
        lemma_resent_from(s, first, ((last - first) % 0x8000_0000 + 1) as nat, start, end, now, d);
    }
}

proof fn lemma_retransmitted_all(s: ConnView, loss: Seq<(u32, u32)>, now: u64, d: int)
    requires
        s.fits(d),
        on_clock(now, d),
    ensures
        s.moved(d).retransmitted_all(loss, moved_instant(now, d)) == s.retransmitted_all(
            loss,
            now,
        ).moved(d),
        s.retransmitted_all(loss, now).fits(d),
    decreases loss.len(),
{
    reveal(ConnView::retransmitted_all);
    if loss.len() > 0 {
        lemma_retransmitted_all(s, loss.drop_last(), now, d);
        lemma_retransmitted(
            s.retransmitted_all(loss.drop_last(), now),
            loss.last().0,
            loss.last().1,
            now,
            d,
        );
    }
}

proof fn lemma_released(s: ConnView, last_ack_seq: u32, cif: AckCif, d: int)
    requires
        s.fits(d),
    ensures
        s.moved(d).released(last_ack_seq, cif) == s.released(last_ack_seq, cif).moved(d),
        s.released(last_ack_seq, cif).fits(d),
{
    reveal(ConnView::released);
    let n = send_buffer::acked_count(s.send_buffer, last_ack_seq);
    assert(send_buffer::acked_count(moved_sent(s.send_buffer, d), last_ack_seq) == n);
    assert(moved_sent(s.send_buffer, d).skip(n) =~= moved_sent(s.send_buffer.skip(n), d));
}

proof fn lemma_exp_restarted(s: ConnView, d: int)
    requires
        s.fits(d),
    ensures
        s.moved(d).exp_restarted() == s.exp_restarted().moved(d),
        s.exp_restarted().fits(d),
{
    reveal(ConnView::exp_restarted);
    reveal(ConnView::exp_armed);
}

proof fn lemma_ack_heard(
    s: ConnView,
    ack_number: u32,
    last_ack_seq: u32,
    cif: AckCif,
    now: u64,
    d: int,
)
    requires
        s.fits(d),
        on_clock(now, d),
    ensures
        s.moved(d).ack_heard(ack_number, last_ack_seq, cif, moved_instant(now, d)) == s.ack_heard(
            ack_number,
            last_ack_seq,
            cif,
            now,
        ).moved(d),
        s.ack_heard(ack_number, last_ack_seq, cif, now).fits(d),
{
    reveal(ConnView::ack_heard);
    let a = s.released(last_ack_seq, cif);
    lemma_released(s, last_ack_seq, cif, d);
    let b = a.late_dropped(now);
    lemma_late_dropped(a, now, d);
    let c = b.exp_restarted();
    lemma_exp_restarted(b, d);
    lemma_shut_down(c, now, d);
    lemma_ts(c.closed_if_drained(now), now, d);
}

proof fn lemma_nak_heard(s: ConnView, loss: Seq<(u32, u32)>, now: u64, d: int)
    requires
        s.fits(d),
        on_clock(now, d),
    ensures
        s.moved(d).nak_heard(loss, moved_instant(now, d)) == s.nak_heard(loss, now).moved(d),
        s.nak_heard(loss, now).fits(d),
{
    reveal(ConnView::nak_heard);
    let t = ConnView {
        stats: Stats { naks_received: model::bump(s.stats.naks_received, 1), ..s.stats },
        ..s
    };
    lemma_late_dropped(t, now, d);
    lemma_retransmitted_all(t.late_dropped(now), loss, now, d);
}

proof fn lemma_exp_fired(s: ConnView, now: u64, d: int)
    requires
        s.fits(d),
        on_clock(now, d),
    ensures
        s.moved(d).exp_fired(moved_instant(now, d)) == s.exp_fired(now).moved(d),
        s.exp_fired(now).fits(d),
{
    reveal(ConnView::exp_fired);
    let t = s.late_dropped(now);
    lemma_late_dropped(s, now, d);
    if t.send_buffer.len() > 0 {
        lemma_retransmitted(
            t,
            t.send_buffer[0].packet.seq,
            t.send_buffer.last().packet.seq,
            now,
            d,
        );
    }
    reveal(ConnView::exp_armed);
}

// ---- receiving ----

proof fn lemma_times(s: ConnView, ts: u32, d: int)
    requires
        s.fits(d),
        s.time_clear(ts, d),
        s.latency >= 0,
    ensures
        s.moved(d).expected_arrival(ts) == moved_option(s.expected_arrival(ts), d),
        s.moved(d).play_time(ts) == moved_option(s.play_time(ts), d),
        s.play_time(ts) matches Some(t) ==> on_clock(t, d),
        s.expected_arrival(ts) matches Some(t) ==> on_clock(t, d),
{
    reveal(ConnView::expected_arrival);
    reveal(ConnView::play_time);
}

proof fn lemma_handed(s: ConnView, p: DataView, d: int)
    requires
        s.fits(d),
    ensures
        s.moved(d).handed(p) == s.handed(p).moved(d),
        s.handed(p).fits(d),
        s.clear(d) ==> s.handed(p).clear(d),
{
    reveal(ConnView::handed);
}

proof fn lemma_delivered(s: ConnView, now: u64, d: int)
    requires
        s.fits(d),
        s.clear(d),
        on_clock(now, d),
    ensures
        s.moved(d).delivered(moved_instant(now, d)) == s.delivered(now).moved(d),
        s.delivered(now).fits(d),
    decreases s.recv_buffer.slots.len(),
{
    reveal(ConnView::delivered);
    recv_buffer::lemma_first_present(s.recv_buffer.slots);
    if let Some(p) = s.recv_buffer.next() {
        assert(s.time_clear(p.timestamp, d));
        lemma_times(s, p.timestamp, d);
        if let Some(at) = s.play_time(p.timestamp) {
            lemma_elapsed(at, now, d);
            if at <= now {
                reveal(ConnView::played);
                let popped = s.recv_buffer.popped();
                let advanced = crate::seq::seq_offset(popped.base, s.recv_buffer.base);
                let t = ConnView {
                    recv_buffer: popped,
                    stats: Stats {
                        packets_dropped: model::bump(
                            s.stats.packets_dropped,
                            if advanced > 1 {
                                advanced - 1
                            } else {
                                0
                            },
                        ),
                        ..s.stats
                    },
                    ..s
                };
                assert(t.clear(d)) by {
                    let i = recv_buffer::first_present(s.recv_buffer.slots);
                    assert forall|k: int| 0 <= k < popped.slots.len() implies ((
                    #[trigger] popped.slots[k]) matches Some(q) ==> t.time_clear(
                        q.timestamp,
                        d,
                    )) by {
                        assert(popped.slots[k] == s.recv_buffer.slots[i + 1 + k]);
                    }
                }
                lemma_handed(t, p, d);
                assert(s.played() == t.handed(p));
                assert(t.handed(p).recv_buffer == popped) by {
                    reveal(ConnView::handed);
                }
                lemma_delivered(s.played(), now, d);
            }
        }
    }
}

proof fn lemma_flushed(s: ConnView, d: int)
    requires
        s.fits(d),
    ensures
        s.moved(d).flushed() == s.flushed().moved(d),
        s.flushed().fits(d),
    decreases s.recv_buffer.slots.len(),
{
    reveal(ConnView::flushed);
    recv_buffer::lemma_first_present(s.recv_buffer.slots);
    let slots = s.recv_buffer.slots;
    if slots.len() > 0 && slots[0] is Some {
        let t = ConnView { recv_buffer: s.recv_buffer.popped(), ..s };
        lemma_handed(t, slots[0]->0, d);
        assert(t.handed(slots[0]->0).recv_buffer == t.recv_buffer) by {
            reveal(ConnView::handed);
        }
        lemma_flushed(t.handed(slots[0]->0), d);
    }
}

proof fn lemma_tracked(s: ConnView, p: DataView, buffer: RecvView, now: u64, d: int)
    requires
        s.fits(d),
        on_clock(now, d),
    ensures
        ({
            let len = p.payload.len() as int;
            let t = s.buffered(buffer, len).reorder_tracked(p.seq, p.retransmitted);
            let u = t.rate_tracked(len, now);
            &&& s.moved(d).buffered(buffer, len).reorder_tracked(p.seq, p.retransmitted)
                == t.moved(d)
            &&& t.moved(d).rate_tracked(len, moved_instant(now, d)) == u.moved(d)
            &&& u.fits(d)
            &&& u.tsbpd_base == s.tsbpd_base
            &&& u.ts_wrap == s.ts_wrap
            &&& u.drift == s.drift
            &&& u.latency == s.latency
        }),
{
    reveal(ConnView::buffered);
    reveal(ConnView::reorder_tracked);
    reveal(ConnView::rate_tracked);
    if let Some(at) = s.last_recv {
        lemma_elapsed(now, at, d);
    }
}

proof fn lemma_anchored(s: ConnView, ts: u32, now: u64, d: int)
    requires
        s.fits(d),
        on_clock(now, d),
    ensures
        s.moved(d).anchored(ts, moved_instant(now, d)) == s.anchored(ts, now).moved(d),
        s.anchored(ts, now).fits(d),
        s.anchored(ts, now).latency == s.latency,
{
    reveal(ConnView::anchored);
}

proof fn lemma_drift_tracked(s: ConnView, ts: u32, retransmitted: bool, now: u64, d: int)
    requires
        s.fits(d),
        on_clock(now, d),
        s.moved(d).expected_arrival(ts) == moved_option(s.expected_arrival(ts), d),
        s.expected_arrival(ts) matches Some(at) ==> on_clock(at, d),
    ensures
        s.moved(d).drift_tracked(ts, retransmitted, moved_instant(now, d)) == s.drift_tracked(
            ts,
            retransmitted,
            now,
        ).moved(d),
        s.drift_tracked(ts, retransmitted, now).fits(d),
{
    reveal(ConnView::drift_tracked);
    if let Some(at) = s.expected_arrival(ts) {
        lemma_elapsed(now, at, d);
    }
}

proof fn lemma_stored(s: ConnView, p: DataView, buffer: RecvView, now: u64, d: int)
    requires
        s.fits(d),
        s.latency >= 0,
        s.anchored(p.timestamp, now).time_clear(p.timestamp, d),
        on_clock(now, d),
    ensures
        s.moved(d).stored(p, buffer, moved_instant(now, d)) == s.stored(p, buffer, now).moved(d),
        s.stored(p, buffer, now).fits(d),
{
    reveal(ConnView::stored);
    let len = p.payload.len() as int;
    let t = s.buffered(buffer, len).reorder_tracked(p.seq, p.retransmitted).rate_tracked(len, now);
    lemma_tracked(s, p, buffer, now, d);
    lemma_anchored(t, p.timestamp, now, d);
    assert(t.anchored(p.timestamp, now).time_clear(p.timestamp, d)) by {
        reveal(ConnView::anchored);
    }
    lemma_times(t.anchored(p.timestamp, now), p.timestamp, d);
    lemma_drift_tracked(t.anchored(p.timestamp, now), p.timestamp, p.retransmitted, now, d);
}

proof fn lemma_checked(s: ConnView, now: u64, d: int)
    requires
        s.fits(d),
        on_clock(now, d),
    ensures
        s.moved(d).arrival_counted(moved_instant(now, d)).loss_checked(moved_instant(now, d))
            == s.arrival_counted(now).loss_checked(now).moved(d),
        s.arrival_counted(now).loss_checked(now).fits(d),
{
    let then = moved_instant(now, d);
    let a = s.arrival_counted(now);
    assert(s.moved(d).arrival_counted(then) == a.moved(d) && a.fits(d)) by {
        reveal(ConnView::arrival_counted);
        reveal(ConnView::light_acked);
        lemma_ts(s, now, d);
    }
    reveal(ConnView::loss_checked);
    reveal(ConnView::nak_sent);
    lemma_ts(a, now, d);
}

proof fn lemma_inserted(s: ConnView, p: DataView, now: u64, d: int)
    requires
        s.fits(d),
        s.arrival_clear(p, now, d),
        on_clock(now, d),
    ensures
        s.moved(d).inserted(p, moved_instant(now, d)) == s.inserted(p, now).moved(d),
        s.inserted(p, now).fits(d),
{
    let then = moved_instant(now, d);
    reveal(ConnView::inserted);
    reveal(ConnView::full_counted);
    reveal(ConnView::undecryptable_counted);
    reveal(ConnView::duplicate_counted);
    assert(s.moved(d).available() == s.available()) by {
        reveal(ConnView::available);
    }
    assert(s.moved(d).clear_payload(p) == s.clear_payload(p)) by {
        reveal(ConnView::clear_payload);
    }
    if s.available() > 0 && s.clear_payload(p) is Some {
        let q = DataView { payload: s.clear_payload(p)->0, ..p };
        if let Some(buffer) = s.recv_buffer.inserted(q) {
            let t = s.stored(q, buffer, now);
            lemma_stored(s, q, buffer, now, d);
            lemma_delivered(t, now, d);
            lemma_checked(t.delivered(now), now, d);
        }
    }
}

proof fn lemma_injected(s: ConnView, r: RecoveredView, now: u64, d: int)
    requires
        s.fits(d),
        s.injection_clear(r, now, d),
        on_clock(now, d),
    ensures
        s.moved(d).injected(r, moved_instant(now, d)) == s.injected(r, now).moved(d),
        s.injected(r, now).fits(d),
{
    reveal(ConnView::injected);
    if let Ok(encryption) = Encryption::of_bits(r.flags as int) {
        lemma_inserted(s.rebuilt_counted(), s.rebuilt_packet(r, encryption), now, d);
    }
}

proof fn lemma_injected_all(s: ConnView, rs: Seq<RecoveredView>, now: u64, d: int)
    requires
        s.fits(d),
        s.injected_clear(rs, now, d),
        on_clock(now, d),
    ensures
        s.moved(d).injected_all(rs, moved_instant(now, d)) == s.injected_all(rs, now).moved(d),
        s.injected_all(rs, now).fits(d),
    decreases rs.len(),
{
    reveal(ConnView::injected_all);
    if rs.len() > 0 {
        lemma_injected_all(s, rs.drop_last(), now, d);
        lemma_injected(s.injected_all(rs.drop_last(), now), rs.last(), now, d);
    }
}

impl ConnView {
    /// Whether the times stay on the clock while a data packet and what it lets
    /// parity rebuild come in.
    pub open spec fn data_clear(self, p: DataView, now: u64, d: int) -> bool {
        match self.fec_recv {
            None => self.arrival_clear(p, now, d),
            Some(fec) => if p.message_number == 0 {
                ConnView {
                    fec_recv: Some(fec.after_parity(p.seq, p.payload, p.timestamp)),
                    ..self
                }.injected_clear(fec.from_parity(p.seq, p.payload, p.timestamp), now, d)
            } else {
                let s = ConnView {
                    fec_recv: Some(fec.after_data(p.seq, model::parity_fields(p))),
                    ..self
                };
                &&& s.arrival_clear(p, now, d)
                &&& s.inserted(p, now).injected_clear(
                    fec.from_data(p.seq, model::parity_fields(p)),
                    now,
                    d,
                )
            },
        }
    }
}

impl ConnView {
    /// Whether the times stay on the clock while a packet comes in.
    pub open spec fn packet_clear(
        self,
        p: Result<PacketView, PacketError>,
        now: u64,
        d: int,
    ) -> bool {
        match p {
            Ok(PacketView::Data(data)) => self.data_clear(data, now, d),
            Ok(PacketView::Control { body: ControlView::DropReq { .. }, .. }) => self.clear(d),
            _ => true,
        }
    }
}

proof fn lemma_data_heard(s: ConnView, p: DataView, now: u64, d: int)
    requires
        s.fits(d),
        s.data_clear(p, now, d),
        on_clock(now, d),
    ensures
        s.moved(d).data_heard(p, moved_instant(now, d)) == s.data_heard(p, now).moved(d),
        s.data_heard(p, now).fits(d),
{
    reveal(ConnView::data_heard);
    match s.fec_recv {
        None => {
            lemma_inserted(s, p, now, d);
        },
        Some(fec) => if p.message_number == 0 {
            let t = ConnView {
                fec_recv: Some(fec.after_parity(p.seq, p.payload, p.timestamp)),
                ..s
            };
            lemma_injected_all(t, fec.from_parity(p.seq, p.payload, p.timestamp), now, d);
        } else {
            let t = ConnView {
                fec_recv: Some(fec.after_data(p.seq, model::parity_fields(p))),
                ..s
            };
            let rs = fec.from_data(p.seq, model::parity_fields(p));
            lemma_inserted(t, p, now, d);
            lemma_injected_all(t.inserted(p, now), rs, now, d);
        },
    }
}

proof fn lemma_drop_heard(s: ConnView, first: u32, last: u32, now: u64, d: int)
    requires
        s.fits(d),
        s.clear(d),
        on_clock(now, d),
    ensures
        s.moved(d).drop_heard(first, last, moved_instant(now, d)) == s.drop_heard(
            first,
            last,
            now,
        ).moved(d),
        s.drop_heard(first, last, now).fits(d),
{
    reveal(ConnView::drop_heard);
    let dropped = s.recv_buffer.dropped(first, last);
    let advanced = crate::seq::seq_offset(dropped.base, s.recv_buffer.base);
    let t = ConnView {
        recv_buffer: dropped,
        stats: Stats {
            packets_dropped: model::bump(
                s.stats.packets_dropped,
                if advanced > 0 {
                    advanced
                } else {
                    0
                },
            ),
            ..s.stats
        },
        reported_loss: dropped.missing(),
        ..s
    };
    assert(t.clear(d)) by {
        let n = s.recv_buffer.slots.len() - dropped.slots.len();
        assert forall|k: int| 0 <= k < dropped.slots.len() implies ((#[trigger] dropped.slots[k])
            matches Some(q) ==> t.time_clear(q.timestamp, d)) by {
            assert(dropped.slots[k] == s.recv_buffer.slots[n + k]);
        }
    }
    lemma_delivered(t, now, d);
}

proof fn lemma_ack_index(acks: Seq<(u32, u64)>, n: u32, d: int)
    ensures
        model::ack_index(moved_acks(acks, d), n) == model::ack_index(acks, n),
        0 <= model::ack_index(acks, n) <= acks.len(),
    decreases acks.len(),
{
    if acks.len() > 0 {
        lemma_ack_index(acks.skip(1), n, d);
        assert(moved_acks(acks, d).skip(1) =~= moved_acks(acks.skip(1), d));
    }
}

proof fn lemma_ackack_heard(s: ConnView, ack_number: u32, now: u64, d: int)
    requires
        s.fits(d),
        on_clock(now, d),
    ensures
        s.moved(d).ackack_heard(ack_number, moved_instant(now, d)) == s.ackack_heard(
            ack_number,
            now,
        ).moved(d),
        s.ackack_heard(ack_number, now).fits(d),
{
    reveal(ConnView::ackack_heard);
    lemma_ack_index(s.pending_acks, ack_number, d);
    let i = model::ack_index(s.pending_acks, ack_number);
    if i < s.pending_acks.len() {
        lemma_elapsed(now, s.pending_acks[i].1, d);
        assert(moved_acks(s.pending_acks, d).skip(i + 1) =~= moved_acks(
            s.pending_acks.skip(i + 1),
            d,
        ));
    }
}

proof fn lemma_ack_fired(s: ConnView, now: u64, d: int)
    requires
        s.fits(d),
        on_clock(now, d),
    ensures
        s.moved(d).ack_fired(moved_instant(now, d)) == s.ack_fired(now).moved(d),
        s.ack_fired(now).fits(d),
{
    reveal(ConnView::ack_fired);
    let t = s.timer(TimerId::Ack, model::ACK_INTERVAL as int);
    lemma_ts(t, now, d);
    assert(t.moved(d).available() == t.available()) by {
        reveal(ConnView::available);
    }
    assert(t.moved(d).full_ack() == t.full_ack()) by {
        reveal(ConnView::full_ack);
        reveal(ConnView::available);
    }
    reveal(ConnView::ack_noted);
    reveal(ConnView::awaiting);
    let all = s.pending_acks.push((s.next_ack_number, now));
    let moved = moved_acks(s.pending_acks, d).push((s.next_ack_number, moved_instant(now, d)));
    assert(moved =~= moved_acks(all, d));
    assert(moved.skip(1) =~= moved_acks(all.skip(1), d));
}

proof fn lemma_nak_fired(s: ConnView, now: u64, d: int)
    requires
        s.fits(d),
        on_clock(now, d),
    ensures
        s.moved(d).nak_fired(moved_instant(now, d)) == s.nak_fired(now).moved(d),
        s.nak_fired(now).fits(d),
{
    reveal(ConnView::nak_fired);
    reveal(ConnView::nak_sent);
    lemma_ts(s, now, d);
    if let Some(at) = s.last_nak {
        lemma_elapsed(now, at, d);
    }
}

// ---- keys ----

proof fn lemma_rekeyed(s: ConnView, sek: Seq<u8>, now: u64, d: int)
    requires
        s.fits(d),
        on_clock(now, d),
    ensures
        s.moved(d).rekeyed(sek, moved_instant(now, d)) == s.rekeyed(sek, now).moved(d),
        s.rekeyed(sek, now).fits(d),
{
    reveal(ConnView::rekeyed);
    reveal(ConnView::next_km);
    lemma_ts(s, now, d);
}

proof fn lemma_km(s: ConnView, cif: Seq<u8>, now: u64, d: int)
    requires
        s.fits(d),
        on_clock(now, d),
    ensures
        s.moved(d).km_requested(cif, moved_instant(now, d)) == s.km_requested(cif, now).moved(d),
        s.km_requested(cif, now).fits(d),
        s.moved(d).km_confirmed(cif) == s.km_confirmed(cif).moved(d),
        s.km_confirmed(cif).fits(d),
        s.moved(d).km_resent(moved_instant(now, d)) == s.km_resent(now).moved(d),
        s.km_resent(now).fits(d),
{
    reveal(ConnView::km_requested);
    reveal(ConnView::km_confirmed);
    reveal(ConnView::km_resent);
    lemma_ts(s, now, d);
}

// ---- setting up and closing ----

proof fn lemma_handshake_sent(s: ConnView, hs: HandshakeView, now: u64, d: int)
    requires
        s.fits(d),
        on_clock(now, d),
    ensures
        s.moved(d).handshake_sent(hs, moved_instant(now, d)) == s.handshake_sent(hs, now).moved(d),
        s.handshake_sent(hs, now).fits(d),
{
    reveal(ConnView::handshake_sent);
    lemma_ts(s, now, d);
}

proof fn lemma_connected(s: ConnView, agreed: NegotiatedView, now: u64, d: int)
    requires
        s.fits(d),
        on_clock(now, d),
    ensures
        s.moved(d).connected(agreed, moved_instant(now, d)) == s.connected(agreed, now).moved(d),
        s.connected(agreed, now).fits(d),
{
    reveal(ConnView::connected);
}

proof fn lemma_answered(s: ConnView, hs: HandshakeView, now: u64, d: int)
    requires
        s.fits(d),
        on_clock(now, d),
    ensures
        s.moved(d).induction_answered(hs, moved_instant(now, d)) == s.induction_answered(
            hs,
            now,
        ).moved(d),
        s.induction_answered(hs, now).fits(d),
        s.moved(d).conclusion_answered(hs, moved_instant(now, d)) == s.conclusion_answered(
            hs,
            now,
        ).moved(d),
        s.conclusion_answered(hs, now).fits(d),
{
    reveal(ConnView::refused);
    let t = ConnView {
        peer_socket_id: hs.srt_socket_id,
        syn_cookie: hs.syn_cookie,
        state: State::Conclusion,
        ..s
    };
    assert(t.moved(d).conclusion_hs() == t.conclusion_hs()) by {
        reveal(ConnView::conclusion_hs);
        reveal(ConnView::conclusion_exts);
    }
    lemma_handshake_sent(t, t.conclusion_hs(), now, d);
    assert(s.moved(d).induction_answered(hs, moved_instant(now, d)) == s.induction_answered(
        hs,
        now,
    ).moved(d) && s.induction_answered(hs, now).fits(d)) by {
        reveal(ConnView::induction_answered);
    }
    lemma_connected(
        s.untimed(TimerId::Handshake),
        model::negotiated(s.config.latency, hs),
        now,
        d,
    );
    reveal(ConnView::conclusion_answered);
}

proof fn lemma_close_asked(s: ConnView, now: u64, d: int)
    requires
        s.fits(d),
        on_clock(now, d),
    ensures
        s.moved(d).close_asked(moved_instant(now, d)) == s.close_asked(now).moved(d),
        s.close_asked(now).fits(d),
{
    reveal(ConnView::close_asked);
    lemma_shut_down(s, now, d);
}

proof fn lemma_peer_closed(s: ConnView, d: int)
    requires
        s.fits(d),
    ensures
        s.moved(d).peer_closed() == s.peer_closed().moved(d),
        s.peer_closed().fits(d),
{
    reveal(ConnView::peer_closed);
    reveal(ConnView::timers_cleared);
    lemma_flushed(s, d);
}

proof fn lemma_fired(s: ConnView, id: TimerId, now: u64, d: int)
    requires
        s.fits(d),
        id == TimerId::Tsbpd ==> s.clear(d),
        id == TimerId::SndPacing ==> s.pacer_clear(now, d),
        on_clock(now, d),
    ensures
        s.moved(d).fired(id, moved_instant(now, d)) == s.fired(id, now).moved(d),
        s.fired(id, now).fits(d),
{
    reveal(ConnView::fired);
    match id {
        TimerId::Handshake => {
            reveal(ConnView::handshake_fired);
            lemma_elapsed(now, s.start, d);
        },
        TimerId::Ack => {
            lemma_ack_fired(s, now, d);
        },
        TimerId::Nak => {
            lemma_nak_fired(s, now, d);
        },
        TimerId::Exp => {
            lemma_exp_fired(s, now, d);
        },
        TimerId::Tsbpd => {
            lemma_delivered(s, now, d);
        },
        TimerId::SndPacing => {
            lemma_paced(s, now, d);
        },
        TimerId::Linger => {
            reveal(ConnView::linger_fired);
            lemma_shut_down(s, now, d);
        },
        TimerId::Keepalive => {
            reveal(ConnView::keepalive_fired);
            let t = s.km_resent(now);
            lemma_km(s, Seq::empty(), now, d);
            lemma_ts(t, now, d);
            lemma_elapsed(now, t.last_sent, d);
        },
        TimerId::PeerIdle => {
            reveal(ConnView::peer_idle_fired);
            reveal(ConnView::timers_cleared);
            lemma_elapsed(now, s.last_recv_any, d);
        },
    }
}

proof fn lemma_heard(s: ConnView, p: PacketView, now: u64, d: int)
    requires
        s.fits(d),
        s.packet_clear(Ok(p), now, d),
        on_clock(now, d),
    ensures
        s.moved(d).heard(p, moved_instant(now, d)) == s.heard(p, now).moved(d),
        s.heard(p, now).fits(d),
{
    reveal(ConnView::heard);
    match p {
        PacketView::Data(data) => {
            lemma_data_heard(s, data, now, d);
        },
        PacketView::Control { body, .. } => match body {
            ControlView::Ack { ack_number, last_ack_seq, cif } => {
                lemma_ack_heard(s, ack_number, last_ack_seq, cif, now, d);
            },
            ControlView::AckAck { ack_number } => {
                lemma_ackack_heard(s, ack_number, now, d);
            },
            ControlView::Nak { loss } => {
                lemma_nak_heard(s, loss, now, d);
            },
            ControlView::Shutdown => {
                lemma_peer_closed(s, d);
            },
            ControlView::DropReq { first, last, .. } => {
                lemma_drop_heard(s, first, last, now, d);
            },
            ControlView::Raw { cif, .. } => {
                lemma_km(s, cif, now, d);
            },
            _ => {},
        },
    }
}

impl ConnView {
    /// Whether no instant leaves the clock in a step, moved by `d` or not: neither
    /// that of the call, nor one that the pacer or the time base comes up with on
    /// the way.
    pub open spec fn step_clear(self, input: Input, now: u64, d: int) -> bool {
        &&& on_clock(now, d)
        &&& match input {
            Input::Timer(TimerId::Tsbpd) => self.clear(d),
            Input::Timer(TimerId::SndPacing) => self.pacer_clear(now, d),
            Input::Send(_) => self.pacer_clear(now, d),
            Input::Datagram(bytes) => if self.state == State::Connected {
                ConnView { last_recv_any: now, ..self }.packet_clear(
                    PacketView::of_bytes(bytes),
                    now,
                    d,
                )
            } else {
                true
            },
            _ => true,
        }
    }

    /// Whether no instant leaves the clock in a run, moved by `d` or not.
    pub open spec fn run_clear(self, inputs: Seq<(Input, u64)>, d: int) -> bool
        decreases inputs.len(),
    {
        inputs.len() > 0 ==> {
            &&& self.run_clear(inputs.drop_last(), d)
            &&& self.ran(inputs.drop_last()).step_clear(inputs.last().0, inputs.last().1, d)
        }
    }
}

proof fn lemma_fed(s: ConnView, datagram: Seq<u8>, now: u64, d: int)
    requires
        s.fits(d),
        s.step_clear(Input::Datagram(datagram), now, d),
    ensures
        s.moved(d).fed(datagram, moved_instant(now, d)) == s.fed(datagram, now).moved(d),
        s.fed(datagram, now).fits(d),
{
    reveal(ConnView::fed);
    if let Ok(p) = PacketView::of_bytes(datagram) {
        if s.state == State::Connected {
            let t = ConnView { last_recv_any: now, ..s };
            lemma_heard(t, p, now, d);
        } else if let PacketView::Control { body: ControlView::Handshake(hs), .. } = p {
            lemma_answered(s, hs, now, d);
        }
    }
}

proof fn lemma_stepped(s: ConnView, input: Input, now: u64, d: int)
    requires
        s.fits(d),
        s.step_clear(input, now, d),
    ensures
        s.moved(d).stepped(input, moved_instant(now, d)) == s.stepped(input, now).moved(d),
        s.stepped(input, now).fits(d),
{
    match input {
        Input::Datagram(bytes) => {
            lemma_fed(s, bytes, now, d);
        },
        Input::Timer(id) => {
            lemma_fired(s, id, now, d);
        },
        Input::Send(payload) => {
            lemma_submitted(s, payload, now, d);
        },
        Input::Close => {
            lemma_close_asked(s, now, d);
        },
        Input::Rekey(sek) => {
            lemma_rekeyed(s, sek, now, d);
        },
        _ => {},
    }
}

/// Calls with their instants moved by `d`.
pub open spec fn moved_inputs(inputs: Seq<(Input, u64)>, d: int) -> Seq<(Input, u64)> {
    Seq::new(inputs.len(), |i: int| (inputs[i].0, moved_instant(inputs[i].1, d)))
}

/// A caller that starts at another instant is the same but for its instants.
pub proof fn law_callers_start_alike(
    config: ConfigView,
    id: SocketId,
    initial_seq: u32,
    salt: Seq<u8>,
    sek: Seq<u8>,
    now: u64,
    d: int,
)
    requires
        on_clock(now, d),
    ensures
        ConnView::calling(config, id, initial_seq, moved_instant(now, d), salt, sek)
            == ConnView::calling(config, id, initial_seq, now, salt, sek).moved(d),
        ConnView::calling(config, id, initial_seq, now, salt, sek).fits(d),
{
    reveal(ConnView::calling);
    reveal(ConnView::fresh);
    reveal(ConnView::inducted);
    let base = ConnView::fresh(
        config,
        id,
        initial_seq,
        now,
        Side::Caller,
        State::Induction,
    );
    assert(moved_sent(base.send_buffer, d) =~= base.send_buffer);
    assert(moved_acks(base.pending_acks, d) =~= base.pending_acks);
    reveal(ConnView::induction_hs);
    reveal(ConnView::handshake_sent);
    lemma_elapsed(now, now, d);
}

/// A connection that is let in at another instant is the same but for its
/// instants.
pub proof fn law_acceptors_start_alike(
    config: ConfigView,
    id: SocketId,
    hs: HandshakeView,
    now: u64,
    d: int,
)
    requires
        on_clock(now, d),
    ensures
        match ConnView::accepted(config, id, hs, now) {
            Ok(conn) => ConnView::accepted(config, id, hs, moved_instant(now, d)) == Ok::<
                ConnView,
                CryptoError,
            >(conn.moved(d)) && conn.fits(d),
            Err(e) => ConnView::accepted(config, id, hs, moved_instant(now, d)) == Err::<
                ConnView,
                CryptoError,
            >(e),
        },
{
    reveal(ConnView::accepted);
    reveal(ConnView::fresh);
    reveal(ConnView::connected);
    let base = ConnView::fresh(
        config,
        id,
        hs.initial_seq,
        now,
        Side::Acceptor,
        State::Conclusion,
    );
    assert(moved_sent(base.send_buffer, d) =~= base.send_buffer);
    assert(moved_acks(base.pending_acks, d) =~= base.pending_acks);
    lemma_elapsed(now, now, d);
}

/// Only the time since the start counts: with every instant moved by the same
/// amount, a run of the same calls leaves the same state but for its instants, and
/// so the same outputs and the same events to be fetched at every point, as long
/// as no instant leaves the clock.
pub proof fn law_only_the_time_since_the_start_counts(
    conn: ConnView,
    inputs: Seq<(Input, u64)>,
    d: int,
)
    requires
        conn.fits(d),
        conn.run_clear(inputs, d),
    ensures
        conn.moved(d).ran(moved_inputs(inputs, d)) == conn.ran(inputs).moved(d),
        conn.moved(d).ran(moved_inputs(inputs, d)).outputs == conn.ran(inputs).outputs,
        conn.moved(d).ran(moved_inputs(inputs, d)).events == conn.ran(inputs).events,
        conn.ran(inputs).fits(d),
    decreases inputs.len(),
{
    let then = moved_inputs(inputs, d);
    if inputs.len() > 0 {
        law_only_the_time_since_the_start_counts(conn, inputs.drop_last(), d);
        assert(then.drop_last() =~= moved_inputs(inputs.drop_last(), d));
        lemma_stepped(conn.ran(inputs.drop_last()), inputs.last().0, inputs.last().1, d);
    }
}

} // verus!
