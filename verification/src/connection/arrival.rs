//! What the receiver does about what arrives: how it measures the round trip and
//! the drift of the clocks, what it passes over, and what it reports.

use crate::arith;
use crate::connection::event::{OutputView, TimerId};
use crate::connection::model;
use crate::connection::model::ConnView;
use crate::connection::recovery::{
    again, between, brings, covers, law_acknowledgements_let_go,
    law_reported_losses_are_all_made_good, law_too_old_packets_are_given_up, lemma_control_heard,
    lemma_told, reported, told,
};
use crate::connection::State;
use crate::control::{AckCif, ControlView};
use crate::drift::DriftView;
use crate::error::PacketError;
use crate::fec::RecoveredView;
use crate::loss_list;
use crate::packet;
use crate::packet::{DataView, Encryption, PacketPosition, PacketView, SocketId};
use crate::rate;
use crate::recv_buffer;
use crate::recv_buffer::RecvView;
use crate::rtt;
use crate::send_buffer;
use crate::stats::Stats;
use crate::timestamp;
use crate::timestamp::WrapView;
use vstd::prelude::*;

verus! {

// ---- the round trip ----

proof fn lemma_pending(acks: Seq<(u32, u64)>, n: u32, i: int)
    requires
        0 <= i <= acks.len(),
        i < acks.len() ==> acks[i].0 == n,
        forall|j: int| 0 <= j < i ==> (#[trigger] acks[j]).0 != n,
    ensures
        model::ack_index(acks, n) == i,
    decreases acks.len(),
{
    if i > 0 {
        let rest = acks.skip(1);
        assert(acks[0].0 != n);
        assert forall|j: int| 0 <= j < i - 1 implies (#[trigger] rest[j]).0 != n by {
            assert(rest[j] == acks[j + 1]);
        }
        lemma_pending(rest, n, i - 1);
    }
}

proof fn lemma_answer(
    conn: ConnView,
    datagram: Seq<u8>,
    timestamp: u32,
    dest: SocketId,
    i: int,
    now: u64,
)
    requires
        conn.state == State::Connected,
        0 <= i < conn.pending_acks.len(),
        forall|j: int| 0 <= j < i ==> (#[trigger] conn.pending_acks[j]).0 != conn.pending_acks[i].0,
        conn.pending_acks[i].1 <= now,
        brings(
            datagram,
            timestamp,
            dest,
            ControlView::AckAck { ack_number: conn.pending_acks[i].0 },
        ),
    ensures
        conn.fed(datagram, now) == (ConnView {
            rtt: conn.rtt.after(now - conn.pending_acks[i].1),
            pending_acks: conn.pending_acks.skip(i + 1),
            last_recv_any: now,
            ..conn
        }),
{
    let ack_number = conn.pending_acks[i].0;
    lemma_control_heard(conn, datagram, timestamp, dest, ControlView::AckAck { ack_number }, now);
    reveal(ConnView::heard);
    reveal(ConnView::ackack_heard);
    lemma_pending(conn.pending_acks, ack_number, i);
}

/// The answer to a full acknowledgement shows the round trip: the time since it was
/// sent. The first one is taken as it is, with half of it as the variance; a later
/// one moves the average, in whole microseconds, an eighth of the way, and the
/// variance a quarter of the way to the distance from the average. The
/// acknowledgement and the ones before it no longer wait, and nothing else changes.
pub proof fn law_answers_show_the_round_trip(
    conn: ConnView,
    datagram: Seq<u8>,
    timestamp: u32,
    dest: SocketId,
    i: int,
    now: u64,
)
    requires
        conn.state == State::Connected,
        0 <= i < conn.pending_acks.len(),
        forall|j: int| 0 <= j < i ==> (#[trigger] conn.pending_acks[j]).0 != conn.pending_acks[i].0,
        conn.pending_acks[i].1 <= now,
        0 <= conn.rtt.rtt <= u64::MAX,
        0 <= conn.rtt.var <= u64::MAX,
        brings(
            datagram,
            timestamp,
            dest,
            ControlView::AckAck { ack_number: conn.pending_acks[i].0 },
        ),
    ensures
        ({
            let after = conn.fed(datagram, now);
            let trip = now - conn.pending_acks[i].1;
            let apart = if conn.rtt.rtt / 1_000 >= trip / 1_000 {
                conn.rtt.rtt / 1_000 - trip / 1_000
            } else {
                trip / 1_000 - conn.rtt.rtt / 1_000
            };
            &&& after.rtt.sampled
            &&& !conn.rtt.sampled ==> after.rtt.rtt == trip && after.rtt.var == trip / 1_000 / 2
                * 1_000
            &&& conn.rtt.sampled ==> {
                &&& after.rtt.rtt % 1_000 == 0
                &&& 8 * (after.rtt.rtt / 1_000) <= 7 * (conn.rtt.rtt / 1_000) + trip / 1_000 < 8 * (
                after.rtt.rtt / 1_000) + 8
                &&& after.rtt.var % 1_000 == 0
                &&& 4 * (after.rtt.var / 1_000) <= 3 * (conn.rtt.var / 1_000) + apart < 4 * (
                after.rtt.var / 1_000) + 4
            }
            &&& after == (ConnView {
                rtt: after.rtt,
                pending_acks: conn.pending_acks.skip(i + 1),
                last_recv_any: now,
                ..conn
            })
        }),
{
    lemma_answer(conn, datagram, timestamp, dest, i, now);
    rtt::law_sample_moves_the_estimate(conn.rtt, now - conn.pending_acks[i].1);
}

/// An answer to an acknowledgement that does not wait for one shows nothing.
pub proof fn law_stray_answers_show_nothing(
    conn: ConnView,
    datagram: Seq<u8>,
    timestamp: u32,
    dest: SocketId,
    ack_number: u32,
    now: u64,
)
    requires
        conn.state == State::Connected,
        forall|j: int|
            0 <= j < conn.pending_acks.len() ==> (#[trigger] conn.pending_acks[j]).0 != ack_number,
        brings(datagram, timestamp, dest, ControlView::AckAck { ack_number }),
    ensures
        conn.fed(datagram, now) == (ConnView { last_recv_any: now, ..conn }),
{
    lemma_control_heard(conn, datagram, timestamp, dest, ControlView::AckAck { ack_number }, now);
    reveal(ConnView::heard);
    reveal(ConnView::ackack_heard);
    lemma_pending(conn.pending_acks, ack_number, conn.pending_acks.len() as int);
}

/// One answer to a pending full acknowledgement, as the receiver meets it.
pub struct Answer {
    /// The receiver before it.
    pub conn: ConnView,
    /// The datagram that brings it.
    pub datagram: Seq<u8>,
    /// The datagram's timestamp.
    pub timestamp: u32,
    /// The datagram's destination.
    pub dest: SocketId,
    /// The place of the acknowledgement among those that wait.
    pub place: int,
    /// When it arrives.
    pub now: u64,
}

impl Answer {
    /// Whether it answers the first pending acknowledgement of its number, which was
    /// sent `trip` nanoseconds before.
    pub open spec fn takes(self, trip: int) -> bool {
        &&& self.conn.state == State::Connected
        &&& 0 <= self.place < self.conn.pending_acks.len()
        &&& forall|j: int|
            0 <= j < self.place ==> (#[trigger] self.conn.pending_acks[j]).0
                != self.conn.pending_acks[self.place].0
        &&& self.now - self.conn.pending_acks[self.place].1 == trip
        &&& brings(
            self.datagram,
            self.timestamp,
            self.dest,
            ControlView::AckAck { ack_number: self.conn.pending_acks[self.place].0 },
        )
    }
}

/// If all answers take the same time, the smoothed round trip stays between where it
/// started and that time, in whole microseconds, and once it is there it stays
/// there. Between two answers anything may happen that leaves the estimate alone.
pub proof fn law_steady_answers_keep_the_round_trip_between(
    answers: Seq<Answer>,
    trip_us: int,
    n: int,
)
    requires
        0 <= n < answers.len(),
        0 <= trip_us,
        trip_us * 1_000 <= u64::MAX,
        answers[0].conn.rtt.sampled,
        0 <= answers[0].conn.rtt.rtt <= u64::MAX,
        forall|k: int| 0 <= k < answers.len() ==> (#[trigger] answers[k]).takes(trip_us * 1_000),
        forall|k: int| 0 <= k < answers.len() ==> 0 <= (#[trigger] answers[k]).conn.rtt.var <= u64::MAX,
        forall|k: int|
            0 <= k < answers.len() - 1 ==> (#[trigger] answers[k].conn.fed(
                answers[k].datagram,
                answers[k].now,
            )).rtt == answers[k + 1].conn.rtt,
    ensures
        ({
            let start = answers[0].conn.rtt.rtt / 1_000;
            let reached = answers[n].conn.fed(answers[n].datagram, answers[n].now).rtt.rtt / 1_000;
            &&& start <= trip_us ==> start <= reached <= trip_us
            &&& start >= trip_us ==> trip_us <= reached <= start
            &&& answers[n].conn.rtt.rtt == trip_us * 1_000 ==> reached == trip_us
        }),
        0 <= answers[n].conn.fed(answers[n].datagram, answers[n].now).rtt.rtt <= u64::MAX,
        answers[n].conn.fed(answers[n].datagram, answers[n].now).rtt.sampled,
    decreases n,
{
    if n > 0 {
        law_steady_answers_keep_the_round_trip_between(answers, trip_us, n - 1);
    }
    let a = answers[n];
    assert(a.takes(trip_us * 1_000));
    if n > 0 {
        let b = answers[n - 1];
        assert(b.conn.fed(b.datagram, b.now).rtt == answers[n - 1 + 1].conn.rtt);
    }
    let after = a.conn.fed(a.datagram, a.now);
    assert(after.rtt == a.conn.rtt.after(trip_us * 1_000)) by {
        lemma_answer(a.conn, a.datagram, a.timestamp, a.dest, a.place, a.now);
    }
    assert(0 <= a.conn.rtt.var <= u64::MAX);
    rtt::law_sample_moves_the_estimate(a.conn.rtt, trip_us * 1_000);
}

// ---- what counts as missing ----

proof fn lemma_between(base: u32, lo: int, hi: int, j: int)
    requires
        base < 0x8000_0000,
        0 <= lo <= hi < 0x4000_0000,
        -0x4000_0000 <= j < 0x4000_0000,
    ensures
        between(
            crate::seq::seq_add(base, j),
            crate::seq::seq_add(base, lo),
            crate::seq::seq_add(base, hi),
        ) <==> lo <= j <= hi,
{
}

proof fn lemma_number_at(n: u32, base: u32)
    requires
        n < 0x8000_0000,
        base < 0x8000_0000,
    ensures
        n == crate::seq::seq_add(base, crate::seq::seq_offset(n, base)),
{
}

proof fn lemma_reported(base: u32, ranges: Seq<(u32, u32)>, j: int)
    requires
        base < 0x8000_0000,
        -0x4000_0000 <= j < 0x4000_0000,
        forall|k: int|
            0 <= k < ranges.len() ==> (#[trigger] ranges[k]).0 < 0x8000_0000 && ranges[k].1
                < 0x8000_0000 && 0 <= crate::seq::seq_offset(ranges[k].0, base)
                <= crate::seq::seq_offset(ranges[k].1, base) < 0x4000_0000,
    ensures
        reported(ranges, crate::seq::seq_add(base, j)) <==> recv_buffer::covered(base, ranges, j),
{
    let n = crate::seq::seq_add(base, j);
    assert forall|k: int| 0 <= k < ranges.len() implies (between(
        n,
        (#[trigger] ranges[k]).0,
        ranges[k].1,
    ) <==> crate::seq::seq_offset(ranges[k].0, base) <= j <= crate::seq::seq_offset(
        ranges[k].1,
        base,
    )) by {
        lemma_number_at(ranges[k].0, base);
        lemma_number_at(ranges[k].1, base);
        lemma_between(
            base,
            crate::seq::seq_offset(ranges[k].0, base),
            crate::seq::seq_offset(ranges[k].1, base),
            j,
        );
    }
    if reported(ranges, n) {
        let k = choose|k: int|
            0 <= k < ranges.len() && between(n, (#[trigger] ranges[k]).0, ranges[k].1);
        assert(crate::seq::seq_offset(ranges[k].0, base) <= j <= crate::seq::seq_offset(
            ranges[k].1,
            base,
        ));
    }
    if recv_buffer::covered(base, ranges, j) {
        let k = choose|k: int|
            0 <= k < ranges.len() && crate::seq::seq_offset((#[trigger] ranges[k]).0, base) <= j
                <= crate::seq::seq_offset(ranges[k].1, base);
        assert(between(n, ranges[k].0, ranges[k].1));
    }
}

/// A loss report names a number exactly if its packet is missing and lies at least the
/// tolerance behind the newest one; numbers from before the next one expected are never
/// named.
pub proof fn law_reports_name_exactly_the_missing(r: RecvView, tolerance: u32, j: int)
    requires
        r.wf(),
        -0x4000_0000 <= j < r.slots.len(),
    ensures
        reported(r.missing_aged(tolerance), ((r.base + j) % 0x8000_0000) as u32) <==> j >= 0
            && r.slots[j] is None && j + tolerance <= r.slots.len() - 1,
{
    recv_buffer::lemma_report_in_range(r, tolerance);
    let ranges = r.missing_aged(tolerance);
    lemma_reported(r.base, ranges, j);
    if j >= 0 {
        recv_buffer::law_reports_name_the_gaps_old_enough(r, tolerance, j);
    } else if recv_buffer::covered(r.base, ranges, j) {
        let k = choose|k: int|
            0 <= k < ranges.len() && crate::seq::seq_offset((#[trigger] ranges[k]).0, r.base) <= j
                <= crate::seq::seq_offset(ranges[k].1, r.base);
        assert(false);
    }
}

// ---- what the peer gives up ----

proof fn lemma_behind(base: u32, last: u32)
    requires
        base < 0x8000_0000,
        last < 0x8000_0000,
        0 <= crate::seq::seq_offset(last, base) < 0x3FFF_FFFF,
    ensures
        crate::seq::seq_add(last, 1) == ((base + (crate::seq::seq_offset(last, base) + 1))
            % 0x8000_0000) as u32,
        crate::seq::seq_offset(crate::seq::seq_add(last, 1), base) == crate::seq::seq_offset(
            last,
            base,
        ) + 1,
{
}

proof fn lemma_two_moves(from: u32, mid: u32, to: u32, i: int)
    requires
        from < 0x8000_0000,
        to < 0x8000_0000,
        0 <= i,
        mid == ((from + i) % 0x8000_0000) as u32,
        i + (to - mid) % 0x8000_0000 < 0x8000_0000,
    ensures
        (to - from) % 0x8000_0000 == i + (to - mid) % 0x8000_0000,
{
}

proof fn lemma_delivering_only_advances(conn: ConnView, now: u64)
    requires
        conn.recv_buffer.wf(),
    ensures
        ({
            let after = conn.delivered(now);
            let moved = (after.recv_buffer.base - conn.recv_buffer.base) % 0x8000_0000;
            &&& after.recv_buffer.wf()
            &&& moved <= conn.recv_buffer.slots.len()
            &&& after.recv_buffer.slots == conn.recv_buffer.slots.skip(moved)
            &&& after.stats.packets_dropped >= conn.stats.packets_dropped
            &&& after.reported_loss == conn.reported_loss
            &&& after.drift == conn.drift
            &&& after.rtt == conn.rtt
            &&& after.tsbpd_base == conn.tsbpd_base
            &&& after.ts_wrap == conn.ts_wrap
            &&& after.rate == conn.rate
            &&& after.last_recv == conn.last_recv
            &&& after.reorder_tolerance == conn.reorder_tolerance
            &&& after.packets_since_ack == conn.packets_since_ack
            &&& after.state == conn.state
            &&& after.stats.packets_received == conn.stats.packets_received
            &&& after.stats.bytes_received == conn.stats.bytes_received
            &&& after.stats.acks_sent == conn.stats.acks_sent
            &&& after.stats.naks_sent == conn.stats.naks_sent
            &&& after.last_nak == conn.last_nak
        }),
    decreases conn.recv_buffer.slots.len(),
{
    reveal(ConnView::delivered);
    let r = conn.recv_buffer;
    assert(r.slots.skip(0) =~= r.slots);
    match r.next() {
        Some(p) => match conn.play_time(p.timestamp) {
            Some(at) => if now >= at {
                recv_buffer::law_pop_advances(r);
                recv_buffer::lemma_first_present(r.slots);
                let i = recv_buffer::first_present(r.slots);
                let played = conn.played();
                assert(played.recv_buffer == r.popped() && played.stats.packets_dropped
                    >= conn.stats.packets_dropped && played.reported_loss == conn.reported_loss
                    && played.drift == conn.drift && played.rtt == conn.rtt && played.tsbpd_base
                    == conn.tsbpd_base && played.ts_wrap == conn.ts_wrap && played.rate
                    == conn.rate && played.last_recv == conn.last_recv
                    && played.reorder_tolerance == conn.reorder_tolerance
                    && played.packets_since_ack == conn.packets_since_ack && played.state
                    == conn.state && played.stats.packets_received
                    == conn.stats.packets_received && played.stats.bytes_received
                    == conn.stats.bytes_received && played.stats.acks_sent
                    == conn.stats.acks_sent && played.stats.naks_sent == conn.stats.naks_sent
                    && played.last_nak == conn.last_nak) by {
                    reveal(ConnView::played);
                    reveal(ConnView::handed);
                }
                lemma_delivering_only_advances(played, now);
                let after = played.delivered(now);
                let rest = (after.recv_buffer.base - r.popped().base) % 0x8000_0000;
                assert(r.slots.skip(i + 1).skip(rest) =~= r.slots.skip(i + 1 + rest));
                lemma_two_moves(r.base, r.popped().base, after.recv_buffer.base, i + 1);
            },
            None => {},
        },
        None => {},
    }
}

/// The receiver once it has passed over everything up to `last`, before it delivers
/// what has come due: it expects the number behind, holds what it held behind it,
/// counts the numbers passed over, and takes the gaps that are left as reported.
pub open spec fn passed_over(conn: ConnView, last: u32, now: u64) -> ConnView {
    let reach = crate::seq::seq_offset(last, conn.recv_buffer.base);
    let held = conn.recv_buffer.slots;
    let buffer = RecvView {
        base: ((last + 1) % 0x8000_0000) as u32,
        slots: if held.len() > reach {
            held.skip(reach + 1)
        } else {
            Seq::empty()
        },
    };
    ConnView {
        recv_buffer: buffer,
        stats: Stats {
            packets_dropped: arith::clamp_u64(conn.stats.packets_dropped + reach + 1),
            ..conn.stats
        },
        reported_loss: buffer.missing(),
        last_recv_any: now,
        ..conn
    }
}

/// What the peer has given up is passed over: where the range reaches the front of
/// the buffer, the next number expected lies behind the range, what was held behind
/// it is kept, no number of the range is awaited or taken as missing, and the
/// numbers passed over are counted as dropped; then whatever is due is delivered.
/// The first number of the range counts only in that the range must reach the front.
pub proof fn law_given_up_ranges_are_passed_over(
    conn: ConnView,
    datagram: Seq<u8>,
    timestamp: u32,
    dest: SocketId,
    message_number: u32,
    first: u32,
    last: u32,
    now: u64,
)
    requires
        conn.state == State::Connected,
        conn.recv_buffer.wf(),
        first < 0x8000_0000,
        last < 0x8000_0000,
        crate::seq::seq_offset(first, conn.recv_buffer.base) <= 0,
        0 <= crate::seq::seq_offset(last, conn.recv_buffer.base) < 0x3FFF_FFFF,
        brings(datagram, timestamp, dest, ControlView::DropReq { message_number, first, last }),
    ensures
        ({
            let behind = passed_over(conn, last, now);
            let after = conn.fed(datagram, now);
            let reach = crate::seq::seq_offset(last, conn.recv_buffer.base);
            let moved = (after.recv_buffer.base - conn.recv_buffer.base) % 0x8000_0000;
            &&& after == behind.delivered(now)
            &&& behind.recv_buffer.wf()
            &&& reach < moved
            &&& forall|k: int|
                moved <= k < conn.recv_buffer.slots.len() ==> after.recv_buffer.slots[k - moved]
                    == #[trigger] conn.recv_buffer.slots[k]
            &&& after.recv_buffer.slots.len() == (if conn.recv_buffer.slots.len() > moved {
                conn.recv_buffer.slots.len() - moved
            } else {
                0
            })
            &&& after.reported_loss == behind.recv_buffer.missing()
            &&& forall|i: int|
                0 <= i < behind.recv_buffer.slots.len() ==> (#[trigger] recv_buffer::covered(
                    behind.recv_buffer.base,
                    after.reported_loss,
                    i,
                ) <==> behind.recv_buffer.slots[i] is None)
            &&& forall|j: int|
                0 <= j <= reach ==> !#[trigger] reported(
                    after.reported_loss,
                    ((conn.recv_buffer.base + j) % 0x8000_0000) as u32,
                )
            &&& after.stats.packets_dropped >= arith::clamp_u64(
                conn.stats.packets_dropped + reach + 1,
            )
        }),
{
    lemma_control_heard(
        conn,
        datagram,
        timestamp,
        dest,
        ControlView::DropReq { message_number, first, last },
        now,
    );
    reveal(ConnView::heard);
    reveal(ConnView::drop_heard);
    let r = conn.recv_buffer;
    recv_buffer::law_drop_range_advances(r, first, last);
    let behind = passed_over(conn, last, now);
    let b = behind.recv_buffer;
    let reach = crate::seq::seq_offset(last, r.base);
    lemma_behind(r.base, last);
    assert(r.dropped(first, last).slots =~= b.slots);
    assert(b == r.dropped(first, last));
    assert(conn.fed(datagram, now) == behind.delivered(now));
    lemma_delivering_only_advances(behind, now);
    let after = behind.delivered(now).recv_buffer;
    let rest = (after.base - b.base) % 0x8000_0000;
    lemma_two_moves(r.base, b.base, after.base, reach + 1);
    assert forall|k: int| reach + 1 + rest <= k < r.slots.len() implies after.slots[k - (reach + 1
        + rest)] == #[trigger] r.slots[k] by {
        assert(b.slots[k - (reach + 1)] == r.slots[k]);
    }
    assert forall|i: int| 0 <= i < behind.recv_buffer.slots.len() implies (
    #[trigger] recv_buffer::covered(
        behind.recv_buffer.base,
        behind.recv_buffer.missing(),
        i,
    ) <==> behind.recv_buffer.slots[i] is None) by {
        recv_buffer::law_missing_names_exactly_the_gaps(behind.recv_buffer, i);
    }
    assert forall|j: int| 0 <= j <= reach implies !#[trigger] reported(
        b.missing(),
        ((r.base + j) % 0x8000_0000) as u32,
    ) by {
        lemma_before(r.base, last, reach, j);
        law_reports_name_exactly_the_missing(b, 0, j - reach - 1);
    }
}

proof fn lemma_before(base: u32, last: u32, reach: int, j: int)
    requires
        base < 0x8000_0000,
        last < 0x8000_0000,
        reach == crate::seq::seq_offset(last, base),
        0 <= j <= reach,
    ensures
        (base + j) % 0x8000_0000 == (((last + 1) % 0x8000_0000) + (j - reach - 1)) % 0x8000_0000,
{
}

/// A range that lies behind the front of the buffer, or that starts ahead of it, is left
/// to the play time of the packets behind: nothing is passed over and nothing is counted;
/// the gaps there are count as reported, and whatever is due is delivered.
pub proof fn law_other_ranges_are_left_alone(
    conn: ConnView,
    datagram: Seq<u8>,
    timestamp: u32,
    dest: SocketId,
    message_number: u32,
    first: u32,
    last: u32,
    now: u64,
)
    requires
        conn.state == State::Connected,
        crate::seq::seq_offset(last, conn.recv_buffer.base) < 0 || crate::seq::seq_offset(
            first,
            conn.recv_buffer.base,
        ) > 0,
        brings(datagram, timestamp, dest, ControlView::DropReq { message_number, first, last }),
    ensures
        conn.fed(datagram, now) == (ConnView {
            reported_loss: conn.recv_buffer.missing(),
            last_recv_any: now,
            ..conn
        }).delivered(now),
{
    lemma_control_heard(
        conn,
        datagram,
        timestamp,
        dest,
        ControlView::DropReq { message_number, first, last },
        now,
    );
    reveal(ConnView::heard);
    reveal(ConnView::drop_heard);
}

// ---- the drift of the clocks ----

/// Whether a datagram is a data packet that a connection without parity takes into
/// its buffer.
#[verifier::opaque]
pub open spec fn takes_in(conn: ConnView, datagram: Seq<u8>, p: DataView) -> bool {
    &&& conn.state == State::Connected
    &&& conn.fec_recv is None
    &&& PacketView::of_bytes(datagram) == Ok::<PacketView, PacketError>(PacketView::Data(p))
    &&& conn.available() > 0
    &&& conn.clear_payload(p) matches Some(payload) && conn.recv_buffer.inserted(
        DataView { payload, ..p },
    ) is Some
}

/// The packet as it is kept, in the clear.
pub open spec fn in_the_clear(conn: ConnView, p: DataView) -> DataView {
    DataView { payload: conn.clear_payload(p)->0, ..p }
}

proof fn lemma_taken_in(conn: ConnView, datagram: Seq<u8>, p: DataView, now: u64)
    requires
        takes_in(conn, datagram, p),
    ensures
        ({
            let q = in_the_clear(conn, p);
            let alive = ConnView { last_recv_any: now, ..conn };
            &&& conn.recv_buffer.inserted(q) is Some
            &&& conn.fed(datagram, now) == alive.stored(
                q,
                conn.recv_buffer.inserted(q)->0,
                now,
            ).delivered(now).arrival_counted(now).loss_checked(now)
        }),
{
    reveal(takes_in);
    reveal(ConnView::fed);
    reveal(ConnView::heard);
    reveal(ConnView::data_heard);
    reveal(ConnView::inserted);
    reveal(ConnView::available);
    reveal(ConnView::clear_payload);
}

proof fn lemma_inserted_wf(r: RecvView, p: DataView)
    requires
        r.wf(),
        r.inserted(p) is Some,
        p.seq < 0x8000_0000,
    ensures
        r.inserted(p)->0.wf(),
{
    crate::seq::law_offset_reaches(p.seq, r.base);
    recv_buffer::law_insert_keeps_the_rest(r, p);
    let s = r.inserted(p)->0;
    let offset = crate::seq::seq_offset(p.seq, r.base);
    assert forall|i: int| 0 <= i < s.slots.len() implies ((#[trigger] s.slots[i]) matches Some(q)
        ==> q.seq == crate::seq::seq_add(s.base, i)) by {
        if i != offset && i < r.slots.len() {
            assert(s.slots[i] == r.slots[i]);
        }
    }
    if offset < r.slots.len() - 1 {
        assert(s.slots.last() == r.slots.last());
    }
}

proof fn lemma_anchoring_keeps_the_expectation(conn: ConnView, ts: u32, now: u64)
    requires
        conn.tsbpd_base is Some,
    ensures
        conn.anchored(ts, now).expected_arrival(ts) == conn.expected_arrival(ts),
        conn.anchored(ts, now).drift == conn.drift,
        conn.anchored(ts, now).rtt == conn.rtt,
{
    reveal(ConnView::anchored);
    reveal(ConnView::expected_arrival);
}

proof fn lemma_taken_in_drift(conn: ConnView, datagram: Seq<u8>, p: DataView, at: u64, now: u64)
    requires
        takes_in(conn, datagram, p),
        conn.recv_buffer.wf(),
        p.seq < 0x8000_0000,
        conn.tsbpd_base is Some,
        conn.expected_arrival(p.timestamp) == Some(at),
    ensures
        conn.fed(datagram, now).drift == (if p.retransmitted {
            conn.drift
        } else {
            conn.drift.sampled(model::signed_micros(at, now), model::micros_i64(conn.rtt.rtt))
        }),
{
    lemma_taken_in(conn, datagram, p, now);
    let q = in_the_clear(conn, p);
    let buffer = conn.recv_buffer.inserted(q)->0;
    lemma_inserted_wf(conn.recv_buffer, q);
    let alive = ConnView { last_recv_any: now, ..conn };
    let seen = alive.buffered(buffer, q.payload.len() as int).reorder_tracked(
        q.seq,
        q.retransmitted,
    ).rate_tracked(q.payload.len() as int, now);
    assert(seen.drift == conn.drift && seen.rtt == conn.rtt && seen.tsbpd_base == conn.tsbpd_base
        && seen.ts_wrap == conn.ts_wrap && seen.recv_buffer == buffer) by {
        reveal(ConnView::buffered);
        reveal(ConnView::reorder_tracked);
        reveal(ConnView::rate_tracked);
    }
    assert(seen.expected_arrival(p.timestamp) == Some(at)) by {
        reveal(ConnView::expected_arrival);
    }
    lemma_anchoring_keeps_the_expectation(seen, p.timestamp, now);
    let stored = alive.stored(q, buffer, now);
    assert(stored.drift == (if p.retransmitted {
        conn.drift
    } else {
        conn.drift.sampled(model::signed_micros(at, now), model::micros_i64(conn.rtt.rtt))
    }) && stored.recv_buffer == buffer) by {
        reveal(ConnView::stored);
        reveal(ConnView::drift_tracked);
        reveal(ConnView::anchored);
    }
    lemma_delivering_only_advances(stored, now);
    reveal(ConnView::arrival_counted);
    reveal(ConnView::light_acked);
    reveal(ConnView::loss_checked);
    reveal(ConnView::nak_sent);
}

/// Every first-hand arrival counts as drift by how much later than expected it is,
/// while the round trip stays what it was; the last one of a span of a thousand moves
/// the correction by the average and starts the next span. A retransmission does not
/// count.
pub proof fn law_lateness_counts_as_drift(
    conn: ConnView,
    datagram: Seq<u8>,
    p: DataView,
    at: u64,
    late_us: int,
    now: u64,
)
    requires
        takes_in(conn, datagram, p),
        conn.recv_buffer.wf(),
        p.seq < 0x8000_0000,
        conn.tsbpd_base is Some,
        conn.expected_arrival(p.timestamp) == Some(at),
        now == at + late_us * 1_000,
        0 <= conn.rtt.rtt <= u64::MAX,
        conn.drift.first_rtt_us matches Some(first) ==> first == conn.rtt.rtt / 1_000,
        0 <= conn.drift.count < 1_000,
        i64::MIN <= conn.drift.sum_us + late_us <= i64::MAX,
    ensures
        ({
            let after = conn.fed(datagram, now).drift;
            let sum = conn.drift.sum_us + late_us;
            let moved = after.correction_us - conn.drift.correction_us;
            &&& p.retransmitted ==> after == conn.drift
            &&& !p.retransmitted ==> (after.first_rtt_us matches Some(first) && first
                == conn.rtt.rtt / 1_000)
            &&& !p.retransmitted && conn.drift.count < 999 ==> {
                &&& after.sum_us == sum
                &&& after.count == conn.drift.count + 1
                &&& after.correction_us == conn.drift.correction_us
            }
            &&& !p.retransmitted && conn.drift.count == 999 ==> {
                &&& after.sum_us == 0
                &&& after.count == 0
                &&& i64::MIN <= conn.drift.correction_us + sum <= i64::MAX && i64::MIN
                    <= conn.drift.correction_us <= i64::MAX ==> {
                    &&& sum >= 0 ==> 1_000 * moved <= sum < 1_000 * moved + 1_000
                    &&& sum <= 0 ==> 1_000 * moved - 1_000 < sum <= 1_000 * moved
                }
            }
        }),
{
    lemma_taken_in_drift(conn, datagram, p, at, now);
    lemma_lateness(at, late_us, now);
    let rtt_us = model::micros_i64(conn.rtt.rtt);
    assert(rtt_us == conn.rtt.rtt / 1_000);
    lemma_sampled(conn.drift, late_us as i64, rtt_us);
}

proof fn lemma_lateness(at: u64, late_us: int, now: u64)
    requires
        now == at + late_us * 1_000,
    ensures
        model::signed_micros(at, now) == late_us,
        -18_446_744_073_709_552 <= late_us <= 18_446_744_073_709_552,
{
    if late_us >= 0 {
        assert((late_us * 1_000) / 1_000 == late_us);
    } else {
        assert((-late_us * 1_000) / 1_000 == -late_us);
    }
}

proof fn lemma_sampled(d: DriftView, late_us: i64, rtt_us: i64)
    requires
        d.first_rtt_us matches Some(first) ==> first == rtt_us,
        0 <= d.count < 1_000,
        i64::MIN <= d.sum_us + late_us <= i64::MAX,
    ensures
        ({
            let after = d.sampled(late_us, rtt_us);
            let sum = d.sum_us + late_us;
            let moved = after.correction_us - d.correction_us;
            &&& after.first_rtt_us == Some(rtt_us)
            &&& d.count < 999 ==> {
                &&& after.sum_us == sum
                &&& after.count == d.count + 1
                &&& after.correction_us == d.correction_us
            }
            &&& d.count == 999 ==> {
                &&& after.sum_us == 0
                &&& after.count == 0
                &&& i64::MIN <= d.correction_us + sum <= i64::MAX && i64::MIN <= d.correction_us
                    <= i64::MAX ==> {
                    &&& sum >= 0 ==> 1_000 * moved <= sum < 1_000 * moved + 1_000
                    &&& sum <= 0 ==> 1_000 * moved - 1_000 < sum <= 1_000 * moved
                }
            }
        }),
{
}

/// One first-hand arrival, as the receiver meets it.
pub struct Arrival {
    /// The receiver before it.
    pub conn: ConnView,
    /// The datagram.
    pub datagram: Seq<u8>,
    /// The packet in it.
    pub packet: DataView,
    /// When it was expected.
    pub expected: u64,
    /// When it arrives.
    pub now: u64,
}

impl Arrival {
    /// Whether it is taken in first-hand, `late_us` microseconds after it was
    /// expected, on a path with the given round trip.
    pub open spec fn comes(self, late_us: int, rtt: int) -> bool {
        &&& takes_in(self.conn, self.datagram, self.packet)
        &&& self.conn.recv_buffer.wf()
        &&& self.packet.seq < 0x8000_0000
        &&& !self.packet.retransmitted
        &&& self.conn.tsbpd_base is Some
        &&& self.conn.expected_arrival(self.packet.timestamp) == Some(self.expected)
        &&& self.now == self.expected + late_us * 1_000
        &&& self.conn.rtt.rtt == rtt
    }

    /// The drift after it.
    pub open spec fn drift_after(self) -> DriftView {
        self.conn.fed(self.datagram, self.now).drift
    }
}

proof fn lemma_span(arrivals: Seq<Arrival>, late_us: int, rtt: int, n: int)
    requires
        0 < n <= arrivals.len() == 1_000,
        0 <= rtt <= u64::MAX,
        -9_000_000_000_000_000 <= late_us <= 9_000_000_000_000_000,
        arrivals[0].conn.drift.count == 0,
        arrivals[0].conn.drift.sum_us == 0,
        arrivals[0].conn.drift.first_rtt_us matches Some(first) ==> first == rtt / 1_000,
        forall|k: int| 0 <= k < 1_000 ==> (#[trigger] arrivals[k]).comes(late_us, rtt),
        forall|k: int|
            0 <= k < 999 ==> (#[trigger] arrivals[k].drift_after()) == arrivals[k + 1].conn.drift,
        i64::MIN <= arrivals[0].conn.drift.correction_us + late_us * 1_000 <= i64::MAX,
        i64::MIN <= arrivals[0].conn.drift.correction_us <= i64::MAX,
    ensures
        ({
            let after = arrivals[n - 1].drift_after();
            let before = arrivals[0].conn.drift;
            &&& after.first_rtt_us matches Some(first) && first == rtt / 1_000
            &&& n < 1_000 ==> after.count == n && after.sum_us == n * late_us
                && after.correction_us == before.correction_us
            &&& n == 1_000 ==> after.count == 0 && after.sum_us == 0 && after.correction_us
                == before.correction_us + late_us
        }),
    decreases n,
{
    let a = arrivals[n - 1];
    assert(a.comes(late_us, rtt));
    if n > 1 {
        lemma_span(arrivals, late_us, rtt, n - 1);
        assert(arrivals[n - 2].drift_after() == arrivals[n - 2 + 1].conn.drift);
    }
    assert((n - 1) * late_us + late_us == n * late_us) by (nonlinear_arith);
    assert(-9_000_000_000_000_000_000 <= n * late_us <= 9_000_000_000_000_000_000)
        by (nonlinear_arith)
        requires
            0 < n <= 1_000,
            -9_000_000_000_000_000 <= late_us <= 9_000_000_000_000_000,
    ;
    law_lateness_counts_as_drift(a.conn, a.datagram, a.packet, a.expected, late_us, a.now);
}

proof fn lemma_shifted_more(at: u64, us: int, more: int)
    requires
        0 < model::shifted(at, us) < u64::MAX,
        0 <= model::shifted(at, us) + more * 1_000 <= u64::MAX,
    ensures
        model::shifted(at, us + more) == model::shifted(at, us) + more * 1_000,
{
}

/// A steady lateness becomes the new expectation: if all first-hand packets of a
/// complete span of a thousand arrive the same time after they are expected, with an
/// unchanged round trip, then from then on every timestamp is expected later by that
/// time, earlier if it is negative, so that a packet as late as they were is on time.
/// Between two of them anything may happen that leaves the drift alone.
pub proof fn law_steady_lateness_becomes_the_expectation(
    arrivals: Seq<Arrival>,
    late_us: int,
    rtt: int,
    then: ConnView,
    ts: u32,
    before: u64,
)
    requires
        arrivals.len() == 1_000,
        0 <= rtt <= u64::MAX,
        -9_000_000_000_000_000 <= late_us <= 9_000_000_000_000_000,
        arrivals[0].conn.drift.count == 0,
        arrivals[0].conn.drift.sum_us == 0,
        arrivals[0].conn.drift.first_rtt_us matches Some(first) ==> first == rtt / 1_000,
        forall|k: int| 0 <= k < 1_000 ==> (#[trigger] arrivals[k]).comes(late_us, rtt),
        forall|k: int|
            0 <= k < 999 ==> (#[trigger] arrivals[k].drift_after()) == arrivals[k + 1].conn.drift,
        i64::MIN <= arrivals[0].conn.drift.correction_us + late_us * 1_000 <= i64::MAX,
        i64::MIN <= arrivals[0].conn.drift.correction_us <= i64::MAX,
        then.drift == arrivals[999].drift_after(),
        then.ts_wrap matches Some(wrap) ==> wrap.offset >= 0,
        (ConnView { drift: arrivals[0].conn.drift, ..then }).expected_arrival(ts) == Some(before),
        0 < before < u64::MAX,
        0 <= before + late_us * 1_000 <= u64::MAX,
    ensures
        then.expected_arrival(ts) == Some((before + late_us * 1_000) as u64),
{
    lemma_span(arrivals, late_us, rtt, 1_000);
    reveal(ConnView::expected_arrival);
    let base = then.tsbpd_base->0;
    let wrap = then.ts_wrap->0;
    let old = arrivals[0].conn.drift.correction_us;
    let apart = arith::clamp_i64(wrap.place(ts) - base.0);
    assert(model::shifted(base.1, arith::clamp_i64(apart + old)) == before);
    assert(arith::clamp_i64(apart + old) == apart + old);
    lemma_shifted_more(base.1, apart + old, late_us);
    assert(arith::clamp_i64(apart + old + late_us) == apart + old + late_us);
}

// ---- reports ----

/// The room for more: the window less what waits for delivery and what the
/// application has not fetched.
pub open spec fn room(conn: ConnView) -> int {
    let taken = recv_buffer::present(conn.recv_buffer.slots) + conn.events.len();
    if taken >= conn.config.flow_window {
        0
    } else {
        conn.config.flow_window - taken
    }
}

/// Every 10 ms the receiver reports what has arrived, if the first missing number or
/// the room has changed since its last full report. The report bears the next number,
/// names the first missing number, the round trip and its variance in microseconds, the
/// room and the rates; it waits for its answer from now on, behind the ones before it,
/// of which the last fifteen go on waiting.
pub proof fn law_full_reports_say_what_arrived(conn: ConnView, now: u64)
    requires
        conn.wf(),
        conn.state == State::Connected,
        conn.recv_buffer.wf(),
        0 <= conn.rtt.rtt,
        0 <= conn.rtt.var,
    ensures
        ({
            let after = conn.fired(TimerId::Ack, now);
            let timer = OutputView::SetTimer { id: TimerId::Ack, after: 10_000_000 };
            let point = conn.recv_buffer.received_point();
            let (packets, bytes) = rate::rate_of(conn.rate.intervals, conn.rate.sizes);
            let report = ControlView::Ack {
                ack_number: conn.next_ack_number,
                last_ack_seq: point,
                cif: AckCif::Full {
                    rtt: arith::clamp_u32(conn.rtt.rtt / 1_000),
                    rtt_variance: arith::clamp_u32(conn.rtt.var / 1_000),
                    avail_buffer_size: room(conn) as u32,
                    packets_recv_rate: packets,
                    estimated_link_capacity: rate::peak_of(conn.rate.intervals),
                    receiving_rate: bytes,
                },
            };
            let news = conn.last_acked_point != Some(point) || conn.last_acked_avail != Some(
                room(conn) as u32,
            );
            &&& !news ==> after == (ConnView { outputs: conn.outputs.push(timer), ..conn })
            &&& news ==> after == (ConnView {
                outputs: conn.outputs.push(timer).push(
                    OutputView::SendDatagram(told(conn, report, now)),
                ),
                next_ack_number: ((conn.next_ack_number + 1) % 0x1_0000_0000) as u32,
                pending_acks: (if conn.pending_acks.len() == 16 {
                    conn.pending_acks.skip(1)
                } else {
                    conn.pending_acks
                }).push((conn.next_ack_number, now)),
                last_acked_point: Some(point),
                last_acked_avail: Some(room(conn) as u32),
                packets_since_ack: 0,
                stats: Stats {
                    acks_sent: arith::clamp_u64(conn.stats.acks_sent + 1),
                    ..conn.stats
                },
                last_sent: now,
                ..conn
            })
        }),
{
    reveal(ConnView::fired);
    reveal(ConnView::ack_fired);
    reveal(ConnView::available);
    reveal(ConnView::full_ack);
    reveal(ConnView::ack_noted);
    reveal(ConnView::awaiting);
    let s = conn.timer(TimerId::Ack, 10_000_000);
    lemma_told(conn, s.full_ack(), now);
    assert(s.control(s.full_ack(), now) == conn.control(s.full_ack(), now));
    let entry = (conn.next_ack_number, now);
    if conn.pending_acks.len() == 16 {
        assert(conn.pending_acks.push(entry).skip(1) =~= conn.pending_acks.skip(1).push(entry));
    }
}

/// The periodic loss report goes out unless one was sent within the last timeout: the
/// average round trip and four variances. It names the missing numbers that are old
/// enough, all in one report, and is left out where there are none. The timer is set
/// for half the timeout, and no less than 20 ms.
pub proof fn law_periodic_loss_reports(conn: ConnView, now: u64)
    requires
        conn.state == State::Connected,
        0 <= conn.rtt.rtt <= u64::MAX,
        0 <= conn.rtt.var <= u64::MAX,
    ensures
        ({
            let after = conn.fired(TimerId::Nak, now);
            let timeout = conn.rtt.rtt + 4 * conn.rtt.var;
            let timer = OutputView::SetTimer {
                id: TimerId::Nak,
                after: if timeout / 2 > 20_000_000 {
                    timeout / 2
                } else {
                    20_000_000
                },
            };
            let loss = conn.recv_buffer.missing_aged(conn.reorder_tolerance);
            let recent = conn.last_nak matches Some(at) && (if now >= at {
                now - at
            } else {
                0
            }) < timeout;
            &&& recent || loss.len() == 0 ==> after == (ConnView {
                outputs: conn.outputs.push(timer),
                ..conn
            })
            &&& !recent && loss.len() > 0 ==> after == (ConnView {
                outputs: conn.outputs.push(timer).push(
                    OutputView::SendDatagram(told(conn, ControlView::Nak { loss }, now)),
                ),
                last_nak: Some(now),
                last_sent: now,
                stats: Stats {
                    naks_sent: arith::clamp_u64(conn.stats.naks_sent + 1),
                    ..conn.stats
                },
                ..conn
            })
        }),
{
    reveal(ConnView::fired);
    reveal(ConnView::nak_fired);
    reveal(ConnView::nak_sent);
    let loss = conn.recv_buffer.missing_aged(conn.reorder_tolerance);
    lemma_told(conn, ControlView::Nak { loss }, now);
    let s = conn.timer(TimerId::Nak, conn.nak_interval());
    assert(s.control(ControlView::Nak { loss }, now) == conn.control(
        ControlView::Nak { loss },
        now,
    ));
}

/// What an arrival makes of the receiver, before it looks for losses: the packet is
/// in the buffer and whatever is due is delivered; every 64th packet since the last
/// report is acknowledged with a light one, which names the first missing number.
pub open spec fn acknowledged_lightly(before: ConnView, held: ConnView, now: u64) -> ConnView {
    if before.packets_since_ack + 1 < 64 {
        ConnView { packets_since_ack: (before.packets_since_ack + 1) as u32, ..held }
    } else {
        ConnView {
            packets_since_ack: 0,
            stats: Stats {
                acks_sent: arith::clamp_u64(held.stats.acks_sent + 1),
                ..held.stats
            },
            last_sent: now,
            outputs: held.outputs.push(
                OutputView::SendDatagram(
                    told(
                        before,
                        ControlView::Ack {
                            ack_number: 0,
                            last_ack_seq: held.recv_buffer.received_point(),
                            cif: AckCif::Light,
                        },
                        now,
                    ),
                ),
            ),
            ..held
        }
    }
}

/// A gap is reported as soon as it shows: where a packet before the newest one is
/// missing, and the missing numbers that are old enough are others than those reported
/// last, they are reported at once. Without a gap nothing counts as reported.
pub open spec fn reported_at_once(before: ConnView, held: ConnView, now: u64) -> ConnView {
    let r = held.recv_buffer;
    let loss = r.missing_aged(held.reorder_tolerance);
    if forall|i: int| 0 <= i < r.slots.len() ==> (#[trigger] r.slots[i]) is Some {
        ConnView { reported_loss: Seq::empty(), ..held }
    } else if loss.len() == 0 || loss == held.reported_loss {
        held
    } else {
        ConnView {
            reported_loss: loss,
            last_nak: Some(now),
            last_sent: now,
            stats: Stats {
                naks_sent: arith::clamp_u64(held.stats.naks_sent + 1),
                ..held.stats
            },
            outputs: held.outputs.push(
                OutputView::SendDatagram(told(before, ControlView::Nak { loss }, now)),
            ),
            ..held
        }
    }
}

/// Every packet taken in is counted with its payload, stands in the buffer under its
/// number beside what was there, and is followed by the delivery of whatever is due,
/// the light acknowledgement of every 64th packet, and the report of new gaps. The
/// first packet ties the sender's clock to the receiver's.
pub proof fn law_packets_taken_in(
    conn: ConnView,
    datagram: Seq<u8>,
    p: DataView,
    now: u64,
) -> (held: ConnView)
    requires
        conn.wf(),
        conn.recv_buffer.wf(),
        p.seq < 0x8000_0000,
        takes_in(conn, datagram, p),
    ensures
        ({
            let after = conn.fed(datagram, now);
            let q = in_the_clear(conn, p);
            &&& after == reported_at_once(
                conn,
                acknowledged_lightly(conn, held.delivered(now), now),
                now,
            )
            &&& held.recv_buffer == conn.recv_buffer.inserted(q)->0
            &&& held.stats == (Stats {
                packets_received: arith::clamp_u64(conn.stats.packets_received + 1),
                bytes_received: arith::clamp_u64(
                    (conn.stats.bytes_received + q.payload.len()) as int,
                ),
                ..conn.stats
            })
            &&& conn.tsbpd_base is None ==> held.tsbpd_base == Some((p.timestamp, now))
            &&& conn.tsbpd_base is None ==> held.ts_wrap == Some(
                WrapView { reference: p.timestamp, offset: p.timestamp as int },
            )
            &&& conn.tsbpd_base is Some ==> held.tsbpd_base == conn.tsbpd_base
            &&& conn.tsbpd_base is Some && conn.ts_wrap is Some ==> held.ts_wrap == Some(
                conn.ts_wrap->0.observed(p.timestamp),
            )
            &&& held.highest_recv_seq == conn.reorder_tracked(
                p.seq,
                p.retransmitted,
            ).highest_recv_seq
            &&& held.orderly_streak == conn.reorder_tracked(p.seq, p.retransmitted).orderly_streak
            &&& held.reorder_tolerance == conn.reorder_tracked(
                p.seq,
                p.retransmitted,
            ).reorder_tolerance
            &&& held.last_recv == Some(now)
            &&& conn.last_recv is None ==> held.rate == conn.rate
            &&& conn.last_recv matches Some(at) ==> at <= now && now - at <= u32::MAX
                && q.payload.len() <= u32::MAX ==> held.rate == conn.rate.recorded(
                ((now - at) / 1_000) as u32,
                q.payload.len() as u32,
            )
            &&& held == (ConnView {
                recv_buffer: held.recv_buffer,
                stats: held.stats,
                tsbpd_base: held.tsbpd_base,
                ts_wrap: held.ts_wrap,
                drift: held.drift,
                last_recv: held.last_recv,
                rate: held.rate,
                highest_recv_seq: held.highest_recv_seq,
                orderly_streak: held.orderly_streak,
                reorder_tolerance: held.reorder_tolerance,
                last_recv_any: now,
                ..conn
            })
        }),
{
    lemma_taken_in(conn, datagram, p, now);
    let q = in_the_clear(conn, p);
    let alive = ConnView { last_recv_any: now, ..conn };
    let buffer = conn.recv_buffer.inserted(q)->0;
    let held = alive.stored(q, buffer, now);
    lemma_stored(alive, q, buffer, now);
    assert(alive.reorder_tracked(q.seq, q.retransmitted).highest_recv_seq == conn.reorder_tracked(
        p.seq,
        p.retransmitted,
    ).highest_recv_seq && alive.reorder_tracked(q.seq, q.retransmitted).orderly_streak
        == conn.reorder_tracked(p.seq, p.retransmitted).orderly_streak && alive.reorder_tracked(
        q.seq,
        q.retransmitted,
    ).reorder_tolerance == conn.reorder_tracked(p.seq, p.retransmitted).reorder_tolerance) by {
        reveal(ConnView::reorder_tracked);
    }
    lemma_inserted_wf(conn.recv_buffer, q);
    lemma_delivering_only_advances(held, now);
    let d = held.delivered(now);
    assert(d.start == conn.start && d.peer_socket_id == conn.peer_socket_id) by {
        lemma_delivering_keeps_the_peer(held, now);
    }
    let light = acknowledged_lightly(conn, d, now);
    assert(d.arrival_counted(now) == light) by {
        reveal(ConnView::arrival_counted);
        reveal(ConnView::light_acked);
        let body = ControlView::Ack {
            ack_number: 0,
            last_ack_seq: d.recv_buffer.received_point(),
            cif: AckCif::Light,
        };
        lemma_told(d, body, now);
        assert(told(d, body, now) == told(conn, body, now));
        assert((ConnView { packets_since_ack: 64, ..d }).control(body, now) == d.control(body, now));
    }
    assert(light.loss_checked(now) == reported_at_once(conn, light, now)) by {
        reveal(ConnView::loss_checked);
        reveal(ConnView::nak_sent);
        reveal(recv_buffer::has_gap);
        let loss = light.recv_buffer.missing_aged(light.reorder_tolerance);
        lemma_told(light, ControlView::Nak { loss }, now);
        assert(told(light, ControlView::Nak { loss }, now) == told(
            conn,
            ControlView::Nak { loss },
            now,
        ));
    }
    held
}

proof fn lemma_stored(alive: ConnView, q: DataView, buffer: RecvView, now: u64)
    ensures
        ({
            let held = alive.stored(q, buffer, now);
            &&& held.recv_buffer == buffer
            &&& held.stats == (Stats {
                packets_received: arith::clamp_u64(alive.stats.packets_received + 1),
                bytes_received: arith::clamp_u64(
                    (alive.stats.bytes_received + q.payload.len()) as int,
                ),
                ..alive.stats
            })
            &&& alive.tsbpd_base is None ==> held.tsbpd_base == Some((q.timestamp, now))
            &&& alive.tsbpd_base is None ==> held.ts_wrap == Some(
                WrapView { reference: q.timestamp, offset: q.timestamp as int },
            )
            &&& alive.tsbpd_base is Some ==> held.tsbpd_base == alive.tsbpd_base
            &&& alive.tsbpd_base is Some && alive.ts_wrap is Some ==> held.ts_wrap == Some(
                alive.ts_wrap->0.observed(q.timestamp),
            )
            &&& held.highest_recv_seq == alive.reorder_tracked(
                q.seq,
                q.retransmitted,
            ).highest_recv_seq
            &&& held.orderly_streak == alive.reorder_tracked(q.seq, q.retransmitted).orderly_streak
            &&& held.reorder_tolerance == alive.reorder_tracked(
                q.seq,
                q.retransmitted,
            ).reorder_tolerance
            &&& held.last_recv == Some(now)
            &&& alive.last_recv is None ==> held.rate == alive.rate
            &&& alive.last_recv matches Some(at) ==> at <= now && now - at <= u32::MAX
                && q.payload.len() <= u32::MAX ==> held.rate == alive.rate.recorded(
                ((now - at) / 1_000) as u32,
                q.payload.len() as u32,
            )
            &&& held == (ConnView {
                recv_buffer: held.recv_buffer,
                stats: held.stats,
                tsbpd_base: held.tsbpd_base,
                ts_wrap: held.ts_wrap,
                drift: held.drift,
                last_recv: held.last_recv,
                rate: held.rate,
                highest_recv_seq: held.highest_recv_seq,
                orderly_streak: held.orderly_streak,
                reorder_tolerance: held.reorder_tolerance,
                ..alive
            })
        }),
{
    reveal(ConnView::stored);
    reveal(ConnView::buffered);
    reveal(ConnView::reorder_tracked);
    reveal(ConnView::rate_tracked);
    reveal(ConnView::anchored);
    reveal(ConnView::drift_tracked);
}

proof fn lemma_delivering_keeps_the_peer(conn: ConnView, now: u64)
    ensures
        conn.delivered(now).start == conn.start,
        conn.delivered(now).peer_socket_id == conn.peer_socket_id,
    decreases conn.recv_buffer.slots.len(),
{
    reveal(ConnView::delivered);
    match conn.recv_buffer.next() {
        Some(p) => match conn.play_time(p.timestamp) {
            Some(at) => if now >= at {
                reveal(ConnView::played);
                reveal(ConnView::handed);
                recv_buffer::lemma_first_present(conn.recv_buffer.slots);
                lemma_delivering_keeps_the_peer(conn.played(), now);
            },
            None => {},
        },
        None => {},
    }
}

/// How the tolerance for packets out of order follows what arrives first-hand. A
/// packet ahead of all before it lengthens the streak, and the 50th of a streak takes
/// one off the tolerance and starts the next; a packet from behind ends the streak and
/// raises the tolerance to how far behind it is, up to 32.
pub proof fn law_tolerance_follows_the_order(conn: ConnView, seq: u32, highest: u32)
    requires
        conn.highest_recv_seq == Some(highest),
        conn.orderly_streak < 50,
        conn.reorder_tolerance <= 32,
    ensures
        ({
            let after = conn.reorder_tracked(seq, false);
            let ahead = crate::seq::seq_offset(seq, highest);
            &&& ahead >= 0 ==> after.highest_recv_seq == Some(seq)
            &&& ahead >= 0 && conn.orderly_streak < 49 ==> after.orderly_streak
                == conn.orderly_streak + 1 && after.reorder_tolerance == conn.reorder_tolerance
            &&& ahead >= 0 && conn.orderly_streak == 49 ==> after.orderly_streak == 0
                && after.reorder_tolerance == (if conn.reorder_tolerance == 0 {
                0
            } else {
                conn.reorder_tolerance - 1
            })
            &&& ahead < 0 ==> after.highest_recv_seq == Some(highest) && after.orderly_streak == 0
                && after.reorder_tolerance >= conn.reorder_tolerance && after.reorder_tolerance
                == (if -ahead <= conn.reorder_tolerance {
                conn.reorder_tolerance as int
            } else if -ahead <= 32 {
                -ahead
            } else {
                32
            })
        }),
{
    reveal(ConnView::reorder_tracked);
}

/// The first packet that arrives first-hand starts the count, and a retransmission tells
/// nothing about the order.
pub proof fn law_order_counts_from_the_first_packet(conn: ConnView, seq: u32)
    ensures
        conn.highest_recv_seq is None ==> conn.reorder_tracked(seq, false) == (ConnView {
            highest_recv_seq: Some(seq),
            ..conn
        }),
        conn.reorder_tracked(seq, true) == conn,
{
    reveal(ConnView::reorder_tracked);
}

// ---- delivery ----

/// A packet is due the agreed latency after its expected arrival: the arrival of the
/// packet that tied the clocks, moved by how much later the packet was sent, by the
/// drift, and by the latency.
pub proof fn law_packets_are_due_the_latency_after_they_are_expected(
    conn: ConnView,
    ts: u32,
    first_ts: u32,
    first_at: u64,
    wrap: WrapView,
)
    requires
        conn.tsbpd_base == Some((first_ts, first_at)),
        conn.ts_wrap == Some(wrap),
        0 <= wrap.offset <= 0x7FFF_FFFF_0000_0000,
        i64::MIN <= conn.drift.correction_us <= i64::MAX,
        0 <= conn.latency,
        ({
            let at = first_at + (wrap.offset + timestamp::ts_diff(ts, wrap.reference) - first_ts
                + conn.drift.correction_us) * 1_000;
            0 <= at && at + conn.latency <= u64::MAX
        }),
    ensures
        ({
            let at = first_at + (wrap.offset + timestamp::ts_diff(ts, wrap.reference) - first_ts
                + conn.drift.correction_us) * 1_000;
            &&& conn.expected_arrival(ts) == Some(at as u64)
            &&& conn.play_time(ts) == Some((at + conn.latency) as u64)
        }),
{
    reveal(ConnView::expected_arrival);
    reveal(ConnView::play_time);
}

/// A packet that is due is delivered past the gap before it: the numbers of the gap
/// are counted as dropped, and the next number expected is the one behind the packet.
pub proof fn law_due_packets_are_delivered_past_a_gap(conn: ConnView, gap: int, at: u64, now: u64)
    requires
        conn.recv_buffer.wf(),
        0 <= gap < conn.recv_buffer.slots.len(),
        forall|i: int| 0 <= i < gap ==> (#[trigger] conn.recv_buffer.slots[i]) is None,
        conn.recv_buffer.slots[gap] is Some,
        conn.play_time(conn.recv_buffer.slots[gap]->0.timestamp) == Some(at),
        at <= now,
        gap < 0x3FFF_FFFF,
    ensures
        conn.delivered(now) == (ConnView {
            recv_buffer: RecvView {
                base: ((conn.recv_buffer.base + gap + 1) % 0x8000_0000) as u32,
                slots: conn.recv_buffer.slots.skip(gap + 1),
            },
            stats: Stats {
                packets_dropped: arith::clamp_u64(conn.stats.packets_dropped + gap),
                ..conn.stats
            },
            ..conn
        }).handed(conn.recv_buffer.slots[gap]->0).delivered(now),
{
    let r = conn.recv_buffer;
    lemma_first_is(r.slots, gap);
    reveal(ConnView::delivered);
    assert(r.next() == r.slots[gap]);
    reveal(ConnView::played);
    lemma_ahead(r.base, gap + 1);
}

proof fn lemma_ahead(base: u32, n: int)
    requires
        base < 0x8000_0000,
        0 <= n <= 0x3FFF_FFFF,
    ensures
        crate::seq::seq_offset(crate::seq::seq_add(base, n), base) == n,
{
}

proof fn lemma_first_is(slots: Seq<Option<DataView>>, gap: int)
    requires
        0 <= gap < slots.len(),
        forall|i: int| 0 <= i < gap ==> (#[trigger] slots[i]) is None,
        slots[gap] is Some,
    ensures
        recv_buffer::first_present(slots) == gap,
    decreases slots.len(),
{
    if gap > 0 {
        assert(slots[0] is None);
        let rest = slots.skip(1);
        assert forall|i: int| 0 <= i < gap - 1 implies (#[trigger] rest[i]) is None by {
            assert(rest[i] == slots[i + 1]);
        }
        lemma_first_is(rest, gap - 1);
    }
}

/// With nothing in the buffer the delivery timer is cleared.
pub proof fn law_empty_buffer_stops_the_delivery_timer(conn: ConnView, now: u64)
    requires
        conn.recv_buffer.slots.len() == 0,
    ensures
        conn.fired(TimerId::Tsbpd, now) == (ConnView {
            outputs: conn.outputs.push(OutputView::ClearTimer { id: TimerId::Tsbpd }),
            ..conn
        }),
{
    reveal(ConnView::fired);
    reveal(ConnView::delivered);
}

// ---- what is not taken in ----

/// A packet that was delivered, passed over or taken in before is only counted; so is
/// one that does not decrypt, and one that finds no room.
pub proof fn law_packets_not_taken_in_are_counted(
    conn: ConnView,
    datagram: Seq<u8>,
    p: DataView,
    now: u64,
)
    requires
        conn.state == State::Connected,
        conn.fec_recv is None,
        PacketView::of_bytes(datagram) == Ok::<PacketView, PacketError>(PacketView::Data(p)),
        !takes_in(conn, datagram, p),
    ensures
        ({
            let full = room(conn) == 0;
            let sealed = !full && conn.clear_payload(p) is None;
            conn.fed(datagram, now) == (ConnView {
                stats: Stats {
                    packets_dropped_full: if full {
                        arith::clamp_u64(conn.stats.packets_dropped_full + 1)
                    } else {
                        conn.stats.packets_dropped_full
                    },
                    packets_undecryptable: if sealed {
                        arith::clamp_u64(conn.stats.packets_undecryptable + 1)
                    } else {
                        conn.stats.packets_undecryptable
                    },
                    packets_duplicate: if !full && !sealed {
                        arith::clamp_u64(conn.stats.packets_duplicate + 1)
                    } else {
                        conn.stats.packets_duplicate
                    },
                    ..conn.stats
                },
                last_recv_any: now,
                ..conn
            })
        }),
{
    reveal(takes_in);
    reveal(ConnView::fed);
    reveal(ConnView::heard);
    reveal(ConnView::data_heard);
    reveal(ConnView::inserted);
    reveal(ConnView::available);
    reveal(ConnView::clear_payload);
    reveal(ConnView::full_counted);
    reveal(ConnView::undecryptable_counted);
    reveal(ConnView::duplicate_counted);
}

/// A packet is taken in exactly when there is room, it is in the clear or opens with a
/// key that is held, and its number is neither before the next one expected nor held
/// already.
pub proof fn law_new_packets_are_taken_in(conn: ConnView, datagram: Seq<u8>, p: DataView)
    requires
        conn.state == State::Connected,
        conn.fec_recv is None,
        PacketView::of_bytes(datagram) == Ok::<PacketView, PacketError>(PacketView::Data(p)),
    ensures
        ({
            let ahead = crate::seq::seq_offset(p.seq, conn.recv_buffer.base);
            let slots = conn.recv_buffer.slots;
            takes_in(conn, datagram, p) <==> room(conn) > 0 && (p.encryption
                == Encryption::Unencrypted || conn.clear_payload(p) is Some) && ahead >= 0 && (ahead
                >= slots.len() || slots[ahead] is None)
        }),
        p.encryption == Encryption::Unencrypted ==> in_the_clear(conn, p) == p,
{
    reveal(takes_in);
    reveal(ConnView::available);
    reveal(ConnView::clear_payload);
}

/// A packet that parity has brought back is counted as such and taken in like one that
/// was sent again: whole, in order, with the timestamp, key and payload that parity gives.
/// What bears no valid key flag is left alone.
pub proof fn law_rebuilt_packets_are_taken_in(conn: ConnView, r: RecoveredView, now: u64)
    ensures
        r.flags % 4 == 3 ==> conn.injected(r, now) == conn,
        r.flags % 4 != 3 ==> conn.injected(r, now) == (ConnView {
            stats: Stats {
                packets_recovered: arith::clamp_u64(conn.stats.packets_recovered + 1),
                ..conn.stats
            },
            ..conn
        }).inserted(
            DataView {
                seq: r.seq,
                position: PacketPosition::Single,
                in_order: true,
                encryption: if r.flags % 4 == 0 {
                    Encryption::Unencrypted
                } else if r.flags % 4 == 1 {
                    Encryption::Even
                } else {
                    Encryption::Odd
                },
                retransmitted: true,
                message_number: 1,
                timestamp: r.timestamp,
                dest_socket_id: conn.peer_socket_id,
                payload: r.payload,
            },
            now,
        ),
{
    reveal(ConnView::injected);
}

/// Packets that parity has brought back are taken in one behind the other, in the order in
/// which they were rebuilt.
pub proof fn law_rebuilt_packets_are_taken_in_turn(
    conn: ConnView,
    first: RecoveredView,
    rest: Seq<RecoveredView>,
    now: u64,
)
    ensures
        conn.injected_all(seq![first] + rest, now) == conn.injected(first, now).injected_all(
            rest,
            now,
        ),
        conn.injected_all(Seq::empty(), now) == conn,
    decreases rest.len(),
{
    reveal(ConnView::injected_all);
    let all = seq![first] + rest;
    assert(conn.injected_all(Seq::empty(), now) == conn);
    assert(conn.injected(first, now).injected_all(Seq::empty(), now) == conn.injected(first, now));
    if rest.len() == 0 {
        assert(all.drop_last() =~= Seq::empty());
        assert(all.last() == first);
        assert(rest =~= Seq::empty());
    } else {
        assert(all.drop_last() =~= seq![first] + rest.drop_last());
        assert(all.last() == rest.last());
        law_rebuilt_packets_are_taken_in_turn(conn, first, rest.drop_last(), now);
    }
}

/// Nothing that is due is left behind: after a delivery, whatever packet is next is due
/// only later, and the delivery timer is set for that time; with no packet left the timer
/// is cleared.
pub proof fn law_nothing_due_is_left(conn: ConnView, now: u64)
    requires
        conn.tsbpd_base is Some,
        conn.ts_wrap is Some,
    ensures
        ({
            let after = conn.delivered(now);
            &&& after.outputs.len() > 0
            &&& after.recv_buffer.next() is None ==> after.outputs.last() == (
            OutputView::ClearTimer { id: TimerId::Tsbpd })
            &&& after.recv_buffer.next() matches Some(p) ==> {
                &&& after.play_time(p.timestamp) matches Some(at) && now < at && after.outputs.last()
                    == (OutputView::SetTimer { id: TimerId::Tsbpd, after: at - now })
            }
        }),
    decreases conn.recv_buffer.slots.len(),
{
    reveal(ConnView::delivered);
    assert(forall|ts: u32| (#[trigger] conn.play_time(ts)) is Some) by {
        reveal(ConnView::play_time);
        reveal(ConnView::expected_arrival);
    }
    match conn.recv_buffer.next() {
        None => {},
        Some(p) => {
            let at = conn.play_time(p.timestamp)->0;
            if now < at {
                let after = conn.delivered(now);
                assert(after.play_time(p.timestamp) == conn.play_time(p.timestamp)) by {
                    reveal(ConnView::play_time);
                    reveal(ConnView::expected_arrival);
                }
            } else {
                reveal(ConnView::played);
                reveal(ConnView::handed);
                recv_buffer::lemma_first_present(conn.recv_buffer.slots);
                law_nothing_due_is_left(conn.played(), now);
            }
        },
    }
}

// ---- both ends ----

/// A lost packet is asked for and sent again: where a number is missing at the receiver, old
/// enough, and no report went out yet, the periodic report makes a sender that still holds
/// the packet send it once more, with its flag set. The result is the place of that datagram
/// among the sender's outputs.
pub proof fn law_lost_packets_are_asked_for_and_sent_again(
    receiver: ConnView,
    j: int,
    then: u64,
    sender: ConnView,
    i: int,
    now: u64,
) -> (place: int)
    requires
        receiver.state == State::Connected,
        receiver.recv_buffer.wf(),
        0 <= receiver.rtt.rtt <= u64::MAX,
        0 <= receiver.rtt.var <= u64::MAX,
        receiver.last_nak is None,
        0 <= j,
        j + receiver.reorder_tolerance < receiver.recv_buffer.slots.len(),
        receiver.recv_buffer.slots[j] is None,
        sender.wf(),
        sender.state == State::Connected,
        sender.send_buffer.len() <= 0x3FFF_FFFF,
        sender.rtt.rtt > 0,
        0 <= i < sender.late_dropped(now).send_buffer.len(),
        sender.late_dropped(now).send_buffer[i].packet.seq == (receiver.recv_buffer.base + j)
            % 0x8000_0000,
        sender.late_dropped(now).send_buffer[i].last_retransmit is None,
    ensures
        ({
            let report = receiver.fired(TimerId::Nak, then).outputs.last();
            let after = sender.fed(report->SendDatagram_0, now);
            &&& report is SendDatagram
            &&& sender.late_dropped(now).outputs.len() <= place < after.outputs.len()
            &&& after.outputs[place] == again(sender.late_dropped(now).send_buffer[i].packet)
        }),
{
    let r = receiver.recv_buffer;
    let loss = r.missing_aged(receiver.reorder_tolerance);
    let n = ((r.base + j) % 0x8000_0000) as u32;
    law_reports_name_exactly_the_missing(r, receiver.reorder_tolerance, j);
    assert(loss.len() > 0);
    law_periodic_loss_reports(receiver, then);
    let body = ControlView::Nak { loss };
    recv_buffer::lemma_report_in_range(r, receiver.reorder_tolerance);
    assert(body.canonical()) by {
        assert forall|k: int| 0 <= k < loss.len() implies loss_list::valid_range(
            #[trigger] loss[k],
        ) by {}
    }
    lemma_told_arrives(receiver, body, then);
    let held = sender.late_dropped(now);
    let chosen = law_reported_losses_are_all_made_good(
        sender,
        told(receiver, body, then),
        stamped(receiver, then),
        receiver.peer_socket_id,
        loss,
        now,
    );
    assert(chosen.contains(i));
    let k = choose|k: int| 0 <= k < chosen.len() && chosen[k] == i;
    held.outputs.len() + k
}

/// The round trip is measured from a report to its answer: the receiver's full report makes
/// the sender let go of what lies before the first missing number and answer, and the answer
/// gives the receiver the time since it sent the report.
pub proof fn law_reports_and_answers_measure_the_round_trip(
    receiver: ConnView,
    sent: u64,
    sender: ConnView,
    heard: u64,
    answered: u64,
) -> (n: int)
    requires
        receiver.wf(),
        receiver.state == State::Connected,
        receiver.recv_buffer.wf(),
        0 <= receiver.rtt.rtt <= u64::MAX,
        0 <= receiver.rtt.var <= u64::MAX,
        receiver.last_acked_point is None,
        sent <= answered,
        forall|k: int|
            0 <= k < receiver.pending_acks.len() ==> (#[trigger] receiver.pending_acks[k]).0
                != receiver.next_ack_number,
        sender.wf(),
        sender.state == State::Connected,
        !sender.closing,
        0 <= sender.latency <= u64::MAX,
        sender.send_buffer.len() <= 0x3FFF_FFFF,
        0 <= sender.rtt.rtt <= u64::MAX,
        0 <= sender.rtt.var <= u64::MAX,
    ensures
        ({
            let reporting = receiver.fired(TimerId::Ack, sent);
            let report = reporting.outputs.last();
            let after = sender.fed(report->SendDatagram_0, heard);
            let answer = after.outputs.last();
            let done = reporting.fed(answer->SendDatagram_0, answered);
            let trip = answered - sent;
            &&& report is SendDatagram
            &&& answer is SendDatagram
            &&& covers(sender.send_buffer, receiver.recv_buffer.received_point(), n)
            &&& after.send_buffer.len() <= sender.send_buffer.len() - n
            &&& after.peer_avail_window == room(receiver)
            &&& done.pending_acks.len() == 0
            &&& !receiver.rtt.sampled ==> done.rtt.rtt == trip
            &&& receiver.rtt.sampled ==> 8 * (done.rtt.rtt / 1_000) <= 7 * (receiver.rtt.rtt
                / 1_000) + trip / 1_000 < 8 * (done.rtt.rtt / 1_000) + 8
        }),
{
    let reporting = receiver.fired(TimerId::Ack, sent);
    let (cif, report) = lemma_report(receiver, sent);
    let (n, answer) = lemma_report_heard(
        sender,
        report,
        stamped(receiver, sent),
        receiver.peer_socket_id,
        receiver.next_ack_number,
        receiver.recv_buffer.received_point(),
        cif,
        heard,
    );
    law_answers_show_the_round_trip(
        reporting,
        answer,
        stamped(sender, heard),
        sender.peer_socket_id,
        reporting.pending_acks.len() - 1,
        answered,
    );
    n
}

proof fn lemma_report(receiver: ConnView, sent: u64) -> (r: (AckCif, Seq<u8>))
    requires
        receiver.wf(),
        receiver.state == State::Connected,
        receiver.recv_buffer.wf(),
        0 <= receiver.rtt.rtt <= u64::MAX,
        0 <= receiver.rtt.var <= u64::MAX,
        receiver.last_acked_point is None,
        forall|k: int|
            0 <= k < receiver.pending_acks.len() ==> (#[trigger] receiver.pending_acks[k]).0
                != receiver.next_ack_number,
    ensures
        ({
            let reporting = receiver.fired(TimerId::Ack, sent);
            let last = reporting.pending_acks.len() - 1;
            &&& reporting.outputs.last() == OutputView::SendDatagram(r.1)
            &&& r.0 matches AckCif::Full { avail_buffer_size, .. } && avail_buffer_size == room(
                receiver,
            )
            &&& brings(
                r.1,
                stamped(receiver, sent),
                receiver.peer_socket_id,
                ControlView::Ack {
                    ack_number: receiver.next_ack_number,
                    last_ack_seq: receiver.recv_buffer.received_point(),
                    cif: r.0,
                },
            )
            &&& receiver.recv_buffer.received_point() < 0x8000_0000
            &&& last >= 0
            &&& reporting.pending_acks[last] == (receiver.next_ack_number, sent)
            &&& forall|k: int|
                0 <= k < last ==> (#[trigger] reporting.pending_acks[k]).0
                    != reporting.pending_acks[last].0
            &&& reporting.state == State::Connected
            &&& reporting.rtt == receiver.rtt
        }),
{
    law_full_reports_say_what_arrived(receiver, sent);
    let reporting = receiver.fired(TimerId::Ack, sent);
    let (packets, bytes) = rate::rate_of(receiver.rate.intervals, receiver.rate.sizes);
    let cif = AckCif::Full {
        rtt: arith::clamp_u32(receiver.rtt.rtt / 1_000),
        rtt_variance: arith::clamp_u32(receiver.rtt.var / 1_000),
        avail_buffer_size: room(receiver) as u32,
        packets_recv_rate: packets,
        estimated_link_capacity: rate::peak_of(receiver.rate.intervals),
        receiving_rate: bytes,
    };
    let body = ControlView::Ack {
        ack_number: receiver.next_ack_number,
        last_ack_seq: receiver.recv_buffer.received_point(),
        cif,
    };
    lemma_told_arrives(receiver, body, sent);
    let last = reporting.pending_acks.len() - 1;
    assert forall|k: int| 0 <= k < last implies (#[trigger] reporting.pending_acks[k]).0
        != reporting.pending_acks[last].0 by {
        if receiver.pending_acks.len() == 16 {
            assert(reporting.pending_acks[k] == receiver.pending_acks[k + 1]);
        } else {
            assert(reporting.pending_acks[k] == receiver.pending_acks[k]);
        }
    }
    (cif, told(receiver, body, sent))
}

proof fn lemma_report_heard(
    sender: ConnView,
    report: Seq<u8>,
    timestamp: u32,
    dest: SocketId,
    ack_number: u32,
    point: u32,
    cif: AckCif,
    heard: u64,
) -> (r: (int, Seq<u8>))
    requires
        sender.wf(),
        sender.state == State::Connected,
        !sender.closing,
        0 <= sender.latency <= u64::MAX,
        sender.send_buffer.len() <= 0x3FFF_FFFF,
        0 <= sender.rtt.rtt <= u64::MAX,
        0 <= sender.rtt.var <= u64::MAX,
        point < 0x8000_0000,
        cif is Full,
        brings(report, timestamp, dest, ControlView::Ack { ack_number, last_ack_seq: point, cif }),
    ensures
        ({
            let after = sender.fed(report, heard);
            &&& covers(sender.send_buffer, point, r.0)
            &&& after.outputs.last() == OutputView::SendDatagram(r.1)
            &&& brings(
                r.1,
                stamped(sender, heard),
                sender.peer_socket_id,
                ControlView::AckAck { ack_number },
            )
            &&& after.send_buffer.len() <= sender.send_buffer.len() - r.0
            &&& after.peer_avail_window == cif->Full_avail_buffer_size
        }),
{
    let n = law_acknowledgements_let_go(
        sender,
        report,
        timestamp,
        dest,
        ack_number,
        point,
        cif,
        heard,
    );
    let back = ControlView::AckAck { ack_number };
    lemma_told_arrives(sender, back, heard);
    let freed = ConnView {
        send_buffer: sender.send_buffer.skip(n),
        peer_avail_window: cif->Full_avail_buffer_size,
        stats: Stats {
            acks_received: arith::clamp_u64(sender.stats.acks_received + 1),
            ..sender.stats
        },
        last_recv_any: heard,
        ..sender
    };
    assert(freed.late_dropped(heard).send_buffer.len() <= freed.send_buffer.len()
        && freed.late_dropped(heard).peer_avail_window == freed.peer_avail_window) by {
        law_too_old_packets_are_given_up(freed, heard);
    }
    (n, told(sender, back, heard))
}

/// What the sender gives up the receiver passes over: the announcement that goes out with
/// the packets given up makes a receiver that waits for one of them expect the number behind
/// the last.
pub proof fn law_what_is_given_up_is_passed_over(
    sender: ConnView,
    then: u64,
    receiver: ConnView,
    now: u64,
) -> (n: int)
    requires
        sender.wf(),
        0 <= sender.latency <= u64::MAX,
        receiver.state == State::Connected,
        receiver.recv_buffer.wf(),
        sender.late_dropped(then).send_buffer.len() < sender.send_buffer.len(),
        ({
            let base = receiver.recv_buffer.base;
            let gone = sender.send_buffer.len() - sender.late_dropped(then).send_buffer.len();
            &&& crate::seq::seq_offset(sender.send_buffer[0].packet.seq, base) <= 0
            &&& 0 <= crate::seq::seq_offset(sender.send_buffer[gone - 1].packet.seq, base)
                < 0x3FFF_FFFF
        }),
    ensures
        ({
            let given_up = sender.late_dropped(then);
            let base = receiver.recv_buffer.base;
            let last = sender.send_buffer[n - 1].packet.seq;
            let notice = given_up.outputs[sender.outputs.len() as int];
            let after = receiver.fed(notice->SendDatagram_0, now);
            &&& n == sender.send_buffer.len() - given_up.send_buffer.len()
            &&& notice is SendDatagram
            &&& (after.recv_buffer.base - base) % 0x8000_0000 > crate::seq::seq_offset(last, base)
        }),
{
    let n = law_too_old_packets_are_given_up(sender, then);
    let s = sender.send_buffer;
    let given_up = sender.late_dropped(then);
    assert(n == s.len() - given_up.send_buffer.len());
    assert(send_buffer::contiguous(s)) by {
        reveal(model::buffer_ok);
    }
    assert(s[0].packet.in_range() && s[n - 1].packet.in_range());
    let message_number = s[n - 1].packet.message_number;
    let first = s[0].packet.seq;
    let last = s[n - 1].packet.seq;
    let body = ControlView::DropReq { message_number, first, last };
    lemma_told_arrives(sender, body, then);
    assert(given_up.outputs[sender.outputs.len() as int] == OutputView::SendDatagram(
        told(sender, body, then),
    ));
    law_given_up_ranges_are_passed_over(
        receiver,
        told(sender, body, then),
        stamped(sender, then),
        sender.peer_socket_id,
        message_number,
        first,
        last,
        now,
    );
    n
}

/// The microseconds since the start, as a packet is stamped.
spec fn stamped(conn: ConnView, now: u64) -> u32 {
    (if now >= conn.start {
        (now - conn.start) / 1_000 % 0x1_0000_0000
    } else {
        0
    }) as u32
}

proof fn lemma_told_arrives(conn: ConnView, body: ControlView, now: u64)
    requires
        body.encodable(),
        body.canonical(),
    ensures
        brings(told(conn, body, now), stamped(conn, now), conn.peer_socket_id, body),
{
    let p = PacketView::Control {
        timestamp: stamped(conn, now),
        dest_socket_id: conn.peer_socket_id,
        body,
    };
    packet::law_packet_round_trips(p);
    reveal(brings);
}

} // verus!
