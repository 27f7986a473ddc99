//! What the sender does about losses: which packets go out again after a loss
//! report or a timeout, what an acknowledgement lets go, and what is given up.

use crate::arith;
use crate::connection::event::{OutputView, TimerId};
use crate::connection::model;
use crate::connection::model::ConnView;
use crate::connection::State;
use crate::control::{AckCif, ControlView};
use crate::error::PacketError;
use crate::packet::{DataView, PacketView, SocketId};
use crate::send_buffer;
use crate::send_buffer::SentView;
use crate::stats::Stats;
use crate::timestamp;
use vstd::prelude::*;

verus! {

/// Whether `n` lies between the first and the last number of a range, both
/// included.
pub open spec fn between(n: u32, first: u32, last: u32) -> bool {
    crate::seq::seq_offset(n, first) >= 0 && crate::seq::seq_offset(last, n) >= 0
}

/// Whether `n` lies in one of the reported ranges.
pub open spec fn reported(loss: Seq<(u32, u32)>, n: u32) -> bool {
    exists|r: int| 0 <= r < loss.len() && between(n, (#[trigger] loss[r]).0, loss[r].1)
}

/// Whether no number lies in two of the ranges.
pub open spec fn disjoint(loss: Seq<(u32, u32)>) -> bool {
    forall|a: int, b: int, n: u32|
        0 <= a < b < loss.len() && #[trigger] between(n, loss[a].0, loss[a].1)
            ==> !#[trigger] between(n, loss[b].0, loss[b].1)
}

/// Whether a datagram is a control packet with the given contents.
#[verifier::opaque]
pub open spec fn brings(
    datagram: Seq<u8>,
    timestamp: u32,
    dest: SocketId,
    body: ControlView,
) -> bool {
    PacketView::of_bytes(datagram) == Ok::<PacketView, PacketError>(
        PacketView::Control { timestamp, dest_socket_id: dest, body },
    )
}

/// A control packet is heard as what it is, and as a sign of life.
pub proof fn lemma_control_heard(
    conn: ConnView,
    datagram: Seq<u8>,
    timestamp: u32,
    dest: SocketId,
    body: ControlView,
    now: u64,
)
    requires
        conn.state == State::Connected,
        brings(datagram, timestamp, dest, body),
    ensures
        conn.fed(datagram, now) == (ConnView { last_recv_any: now, ..conn }).heard(
            PacketView::Control { timestamp, dest_socket_id: dest, body },
            now,
        ),
{
    reveal(brings);
    reveal(ConnView::fed);
}

/// Whether a packet was not sent again within the last `rtt` nanoseconds.
pub open spec fn rested(p: SentView, rtt: int, now: u64) -> bool {
    p.last_retransmit matches Some(at) ==> now >= at && now - at >= rtt || now < at && rtt <= 0
}

/// The datagram of a retransmission.
pub open spec fn again(p: DataView) -> OutputView {
    OutputView::SendDatagram(PacketView::Data(DataView { retransmitted: true, ..p }).bytes())
}

/// The bytes of payload in the packets at `chosen`.
pub open spec fn payload_total(s: Seq<SentView>, chosen: Seq<int>) -> int
    decreases chosen.len(),
{
    if chosen.len() == 0 {
        0
    } else {
        payload_total(s, chosen.drop_last()) + s[chosen.last()].packet.payload.len()
    }
}

/// Whether, from `before` to `after`, exactly the held packets at `chosen` were sent
/// again, once each and in that order, and nothing else was sent or let go.
pub open spec fn sent_again(
    before: ConnView,
    after: ConnView,
    chosen: Seq<int>,
    now: u64,
) -> bool {
    &&& chosen.no_duplicates()
    &&& forall|k: int|
        0 <= k < chosen.len() ==> 0 <= #[trigger] chosen[k] < before.send_buffer.len()
    &&& after.outputs == before.outputs + Seq::new(
        chosen.len(),
        |k: int| again(before.send_buffer[chosen[k]].packet),
    )
    &&& after.send_buffer.len() == before.send_buffer.len()
    &&& forall|i: int|
        0 <= i < before.send_buffer.len() ==> (#[trigger] after.send_buffer[i]) == SentView {
            packet: before.send_buffer[i].packet,
            last_retransmit: if chosen.contains(i) {
                Some(now)
            } else {
                before.send_buffer[i].last_retransmit
            },
        }
    &&& after.stats.packets_retransmitted == model::bump(
        before.stats.packets_retransmitted,
        chosen.len() as int,
    )
    &&& after.stats.bytes_retransmitted == arith::clamp_u64(
        before.stats.bytes_retransmitted + payload_total(before.send_buffer, chosen),
    )
    &&& after.last_sent == (if chosen.len() == 0 {
        before.last_sent
    } else {
        now
    })
    &&& after == (ConnView {
        outputs: after.outputs,
        send_buffer: after.send_buffer,
        stats: after.stats,
        last_sent: after.last_sent,
        last_recv_any: after.last_recv_any,
        ..before
    })
}

proof fn lemma_none_sent_again(s: ConnView, now: u64)
    ensures
        sent_again(s, s, Seq::empty(), now),
{
    let none = Seq::<int>::empty();
    assert(s.outputs =~= s.outputs + Seq::new(
        none.len(),
        |k: int| again(s.send_buffer[none[k]].packet),
    ));
}

proof fn lemma_one_more(s: ConnView, t: ConnView, chosen: Seq<int>, i: int, now: u64)
    requires
        sent_again(s, t, chosen, now),
        0 <= i < s.send_buffer.len(),
        !chosen.contains(i),
    ensures
        sent_again(s, t.resent_at(i, now), chosen.push(i), now),
{
    reveal(ConnView::resent_at);
    let u = t.resent_at(i, now);
    let more = chosen.push(i);
    assert forall|k: int| more.contains(k) <==> chosen.contains(k) || k == i by {
        if chosen.contains(k) {
            let j = choose|j: int| 0 <= j < chosen.len() && chosen[j] == k;
            assert(more[j] == k);
        }
        if k == i {
            assert(more[chosen.len() as int] == i);
        }
    }
    assert(u.outputs =~= s.outputs + Seq::new(
        more.len(),
        |k: int| again(s.send_buffer[more[k]].packet),
    ));
    assert(t.send_buffer[i].packet == s.send_buffer[i].packet);
    assert(more.drop_last() =~= chosen);
    assert(0 <= payload_total(s.send_buffer, chosen)) by {
        lemma_payload_total(s.send_buffer, chosen);
    }
}

proof fn lemma_payload_total(s: Seq<SentView>, chosen: Seq<int>)
    ensures
        0 <= payload_total(s, chosen),
    decreases chosen.len(),
{
    if chosen.len() > 0 {
        lemma_payload_total(s, chosen.drop_last());
    }
}

proof fn lemma_resent_from(
    s: ConnView,
    t: ConnView,
    chosen: Seq<int>,
    k: nat,
    start: u32,
    end: u32,
    now: u64,
) -> (more: Seq<int>)
    requires
        send_buffer::contiguous(s.send_buffer),
        0 < s.send_buffer.len() <= 0x3FFF_FFFF,
        k <= s.send_buffer.len(),
        s.rtt.rtt > 0 || forall|i: int|
            #[trigger] chosen.contains(i) ==> !between(s.send_buffer[i].packet.seq, start, end),
        sent_again(s, t, chosen, now),
        forall|i: int| #[trigger] chosen.contains(i) ==> rested(s.send_buffer[i], s.rtt.rtt, now),
    ensures
        sent_again(
            s,
            t.resent_from(s.send_buffer[0].packet.seq, k, start, end, now),
            more,
            now,
        ),
        forall|i: int|
            0 <= i < s.send_buffer.len() ==> (#[trigger] more.contains(i) <==> chosen.contains(i) || (i
                < k && between(s.send_buffer[i].packet.seq, start, end) && rested(
                s.send_buffer[i],
                s.rtt.rtt,
                now,
            ))),
    decreases k,
{
    reveal(ConnView::resent_from);
    if k == 0 {
        chosen
    } else {
        let first = s.send_buffer[0].packet.seq;
        let j = k - 1;
        let before = lemma_resent_from(s, t, chosen, j as nat, start, end, now);
        let u = t.resent_from(first, j as nat, start, end, now);
        let n = crate::seq::seq_add(first, j);
        assert(s.send_buffer[0].packet.in_range());
        assert(s.send_buffer[j].packet.seq == n);
        assert(u.send_buffer[0].packet == s.send_buffer[0].packet);
        crate::seq::lemma_offset_of_step(first, j);
        assert(send_buffer::position(u.send_buffer, n) == Some(j));
        reveal(ConnView::resent_if_due);
        reveal(ConnView::resend_due);
        assert(u.send_buffer[j] == SentView {
            packet: s.send_buffer[j].packet,
            last_retransmit: if before.contains(j) {
                Some(now)
            } else {
                s.send_buffer[j].last_retransmit
            },
        });
        let goes = between(n, start, end) && rested(s.send_buffer[j], s.rtt.rtt, now);
        if goes && !before.contains(j) {
            lemma_one_more(s, u, before, j, now);
            let more = before.push(j);
            assert forall|i: int| more.contains(i) <==> before.contains(i) || i == j by {
                if before.contains(i) {
                    let x = choose|x: int| 0 <= x < before.len() && before[x] == i;
                    assert(more[x] == i);
                }
                if i == j {
                    assert(more[before.len() as int] == i);
                }
            }
            more
        } else {
            before
        }
    }
}

/// The held packets of a range that are due are sent again, all of them and no
/// others.
proof fn lemma_retransmitted(
    s: ConnView,
    t: ConnView,
    chosen: Seq<int>,
    start: u32,
    end: u32,
    now: u64,
) -> (more: Seq<int>)
    requires
        send_buffer::contiguous(s.send_buffer),
        s.send_buffer.len() <= 0x3FFF_FFFF,
        s.rtt.rtt > 0 || forall|i: int|
            #[trigger] chosen.contains(i) ==> !between(s.send_buffer[i].packet.seq, start, end),
        sent_again(s, t, chosen, now),
        forall|i: int| #[trigger] chosen.contains(i) ==> rested(s.send_buffer[i], s.rtt.rtt, now),
    ensures
        sent_again(s, t.retransmitted(start, end, now), more, now),
        forall|i: int|
            0 <= i < s.send_buffer.len() ==> (#[trigger] more.contains(i) <==> chosen.contains(i) || (
            between(s.send_buffer[i].packet.seq, start, end) && rested(
                s.send_buffer[i],
                s.rtt.rtt,
                now,
            ))),
{
    reveal(ConnView::retransmitted);
    let len = s.send_buffer.len();
    if len == 0 {
        chosen
    } else {
        assert(t.send_buffer[0].packet == s.send_buffer[0].packet);
        assert(t.send_buffer[len - 1].packet == s.send_buffer[len - 1].packet);
        assert(s.send_buffer[0].packet.in_range());
        assert(s.send_buffer[len - 1].packet.in_range());
        lemma_resent_from(s, t, chosen, len, start, end, now)
    }
}

proof fn lemma_retransmitted_all(s: ConnView, loss: Seq<(u32, u32)>, now: u64) -> (chosen: Seq<
    int,
>)
    requires
        send_buffer::contiguous(s.send_buffer),
        s.send_buffer.len() <= 0x3FFF_FFFF,
        s.rtt.rtt > 0 || disjoint(loss),
    ensures
        sent_again(s, s.retransmitted_all(loss, now), chosen, now),
        forall|i: int|
            0 <= i < s.send_buffer.len() ==> (#[trigger] chosen.contains(i) <==> reported(
                loss,
                s.send_buffer[i].packet.seq,
            ) && rested(s.send_buffer[i], s.rtt.rtt, now)),
    decreases loss.len(),
{
    reveal(ConnView::retransmitted_all);
    if loss.len() == 0 {
        lemma_none_sent_again(s, now);
        Seq::empty()
    } else {
        let rest = loss.drop_last();
        let end = loss.len() - 1;
        assert(loss[end] == loss.last());
        assert(disjoint(loss) ==> disjoint(rest)) by {
            if disjoint(loss) {
                assert forall|a: int, b: int, n: u32|
                    0 <= a < b < rest.len() && #[trigger] between(n, rest[a].0, rest[a].1)
                        implies !#[trigger] between(n, rest[b].0, rest[b].1) by {
                    assert(rest[a] == loss[a] && rest[b] == loss[b]);
                    assert(between(n, loss[a].0, loss[a].1));
                }
            }
        }
        let before = lemma_retransmitted_all(s, rest, now);
        assert forall|i: int| #[trigger] before.contains(i) implies rested(
            s.send_buffer[i],
            s.rtt.rtt,
            now,
        ) && (s.rtt.rtt > 0 || !between(
            s.send_buffer[i].packet.seq,
            loss.last().0,
            loss.last().1,
        )) by {
            let x = choose|x: int| 0 <= x < before.len() && before[x] == i;
            assert(0 <= before[x] < s.send_buffer.len());
            let n = s.send_buffer[i].packet.seq;
            assert(reported(rest, n));
            let r = choose|r: int|
                0 <= r < rest.len() && between(n, (#[trigger] rest[r]).0, rest[r].1);
            assert(loss[r] == rest[r]);
            assert(between(n, loss[r].0, loss[r].1));
            if disjoint(loss) {
                assert(!between(n, loss[end].0, loss[end].1));
            }
        }
        let more = lemma_retransmitted(
            s,
            s.retransmitted_all(rest, now),
            before,
            loss.last().0,
            loss.last().1,
            now,
        );
        assert forall|i: int| 0 <= i < s.send_buffer.len() implies (#[trigger] more.contains(i)
            <==> reported(loss, s.send_buffer[i].packet.seq) && rested(
            s.send_buffer[i],
            s.rtt.rtt,
            now,
        )) by {
            let n = s.send_buffer[i].packet.seq;
            assert(before.contains(i) <==> reported(rest, n) && rested(
                s.send_buffer[i],
                s.rtt.rtt,
                now,
            ));
            if reported(rest, n) {
                let r = choose|r: int|
                    0 <= r < rest.len() && between(n, (#[trigger] rest[r]).0, rest[r].1);
                assert(loss[r] == rest[r]);
            }
            if reported(loss, n) {
                let r = choose|r: int|
                    0 <= r < loss.len() && between(n, (#[trigger] loss[r]).0, loss[r].1);
                if r < rest.len() {
                    assert(rest[r] == loss[r]);
                } else {
                    assert(loss[r] == loss.last());
                }
            }
            if between(n, loss.last().0, loss.last().1) {
                assert(loss[loss.len() - 1] == loss.last());
            }
        }
        more
    }
}

/// A loss report is made good in full: of the packets still held once the too old
/// ones are given up, every one whose number lies in a reported range, and that was
/// not sent again within the last round trip, is sent again exactly once with its
/// flag set, however long the ranges and however many; no other packet is sent, and
/// none is let go. With a round trip of zero this holds of ranges that do not overlap.
pub proof fn law_reported_losses_are_all_made_good(
    conn: ConnView,
    datagram: Seq<u8>,
    timestamp: u32,
    dest: SocketId,
    loss: Seq<(u32, u32)>,
    now: u64,
) -> (chosen: Seq<int>)
    requires
        conn.wf(),
        conn.state == State::Connected,
        conn.send_buffer.len() <= 0x3FFF_FFFF,
        conn.rtt.rtt > 0 || disjoint(loss),
        brings(datagram, timestamp, dest, ControlView::Nak { loss }),
    ensures
        ({
            let held = conn.late_dropped(now);
            let after = conn.fed(datagram, now);
            &&& sent_again(held, after, chosen, now)
            &&& forall|i: int|
                0 <= i < held.send_buffer.len() ==> (#[trigger] chosen.contains(i) <==> reported(
                    loss,
                    held.send_buffer[i].packet.seq,
                ) && rested(held.send_buffer[i], conn.rtt.rtt, now))
            &&& after.stats.naks_received == model::bump(conn.stats.naks_received, 1)
        }),
{
    lemma_control_heard(conn, datagram, timestamp, dest, ControlView::Nak { loss }, now);
    reveal(ConnView::heard);
    reveal(ConnView::nak_heard);
    reveal(model::buffer_ok);
    let counted = ConnView {
        stats: Stats { naks_received: model::bump(conn.stats.naks_received, 1), ..conn.stats },
        last_recv_any: now,
        ..conn
    };
    lemma_late(conn.send_buffer, conn.ts(now), conn.drop_budget());
    let n = model::late_count(conn.send_buffer, conn.ts(now), conn.drop_budget()) as int;
    send_buffer::lemma_skip_contiguous(conn.send_buffer, n);
    let held = counted.late_dropped(now);
    let plain = conn.late_dropped(now);
    assert(held == (ConnView {
        stats: Stats { naks_received: model::bump(conn.stats.naks_received, 1), ..plain.stats },
        last_recv_any: now,
        ..plain
    }) && held.send_buffer == conn.send_buffer.skip(n) && held.rtt == conn.rtt) by {
        reveal(ConnView::late_dropped);
        reveal(ConnView::shed);
        reveal(ConnView::drop_budget);
        assert(conn.send_buffer.skip(0) =~= conn.send_buffer);
    }
    let chosen = lemma_retransmitted_all(held, loss, now);
    lemma_retransmitting_keeps_reports(held, loss, now);
    chosen
}

proof fn lemma_late(s: Seq<SentView>, ts: u32, budget: int)
    ensures
        model::late_count(s, ts, budget) <= s.len(),
        forall|i: int|
            0 <= i < model::late_count(s, ts, budget) ==> timestamp::ts_diff(
                ts,
                (#[trigger] s[i]).packet.timestamp,
            ) > budget,
        model::late_count(s, ts, budget) < s.len() ==> timestamp::ts_diff(
            ts,
            s[model::late_count(s, ts, budget) as int].packet.timestamp,
        ) <= budget,
    decreases s.len(),
{
    if s.len() > 0 && timestamp::ts_diff(ts, s[0].packet.timestamp) > budget {
        let rest = s.skip(1);
        lemma_late(rest, ts, budget);
        assert forall|i: int| 0 <= i < model::late_count(s, ts, budget) implies timestamp::ts_diff(
            ts,
            (#[trigger] s[i]).packet.timestamp,
        ) > budget by {
            if i > 0 {
                assert(rest[i - 1] == s[i]);
            }
        }
    }
}

proof fn lemma_resending_keeps_reports(
    s: ConnView,
    first: u32,
    k: nat,
    start: u32,
    end: u32,
    now: u64,
)
    ensures
        s.resent_from(first, k, start, end, now).stats.naks_received == s.stats.naks_received,
    decreases k,
{
    reveal(ConnView::resent_from);
    reveal(ConnView::resent_if_due);
    reveal(ConnView::resent_at);
    if k > 0 {
        lemma_resending_keeps_reports(s, first, (k - 1) as nat, start, end, now);
    }
}

proof fn lemma_retransmitting_keeps_reports(s: ConnView, loss: Seq<(u32, u32)>, now: u64)
    ensures
        s.retransmitted_all(loss, now).stats.naks_received == s.stats.naks_received,
    decreases loss.len(),
{
    reveal(ConnView::retransmitted_all);
    reveal(ConnView::retransmitted);
    if loss.len() > 0 {
        lemma_retransmitting_keeps_reports(s, loss.drop_last(), now);
        let t = s.retransmitted_all(loss.drop_last(), now);
        if t.send_buffer.len() > 0 {
            let first = t.send_buffer[0].packet.seq;
            let last = t.send_buffer.last().packet.seq;
            lemma_resending_keeps_reports(
                t,
                first,
                ((last - first) % 0x8000_0000 + 1) as nat,
                loss.last().0,
                loss.last().1,
                now,
            );
        }
    }
}

// ---- what the sender gives up ----

/// A control datagram to the peer, stamped with the microseconds since the start.
pub open spec fn told(conn: ConnView, body: ControlView, now: u64) -> Seq<u8> {
    (PacketView::Control {
        timestamp: (if now >= conn.start {
            (now - conn.start) / 1_000 % 0x1_0000_0000
        } else {
            0
        }) as u32,
        dest_socket_id: conn.peer_socket_id,
        body,
    }).bytes()
}

/// What is told is what is sent.
pub proof fn lemma_told(conn: ConnView, body: ControlView, now: u64)
    ensures
        conn.control(body, now) == told(conn, body, now),
{
    reveal(model::control_bytes);
}

/// The sender gives up exactly the oldest packets that are older than the latency
/// allows: more than the latency, or a second if that is longer, and 20 ms. They are
/// counted and the peer is told which they are; with nothing left to wait for, the
/// retransmission timer is cleared. Where none is that old nothing changes.
pub proof fn law_too_old_packets_are_given_up(conn: ConnView, now: u64) -> (n: int)
    requires
        0 <= conn.latency <= u64::MAX,
    ensures
        ({
            let after = conn.late_dropped(now);
            let s = conn.send_buffer;
            let stamp = (if now >= conn.start {
                (now - conn.start) / 1_000 % 0x1_0000_0000
            } else {
                0
            }) as u32;
            let allowed = (if conn.latency / 1_000 > 1_000_000 {
                conn.latency / 1_000
            } else {
                1_000_000
            }) + 20_000;
            &&& 0 <= n <= s.len()
            &&& forall|i: int|
                0 <= i < n ==> timestamp::ts_diff(stamp, (#[trigger] s[i]).packet.timestamp)
                    > allowed
            &&& n < s.len() ==> timestamp::ts_diff(stamp, s[n].packet.timestamp) <= allowed
            &&& n == 0 ==> after == conn
            &&& n > 0 ==> after == (ConnView {
                send_buffer: s.skip(n),
                stats: Stats {
                    packets_dropped_sent: arith::clamp_u64(conn.stats.packets_dropped_sent + n),
                    ..conn.stats
                },
                last_sent: now,
                outputs: conn.outputs.push(
                    OutputView::SendDatagram(
                        told(
                            conn,
                            ControlView::DropReq {
                                message_number: s[n - 1].packet.message_number,
                                first: s[0].packet.seq,
                                last: s[n - 1].packet.seq,
                            },
                            now,
                        ),
                    ),
                ) + (if n == s.len() {
                    seq![OutputView::ClearTimer { id: TimerId::Exp }]
                } else {
                    Seq::empty()
                }),
                ..conn
            })
        }),
{
    reveal(ConnView::late_dropped);
    reveal(ConnView::shed);
    reveal(ConnView::drop_budget);
    let s = conn.send_buffer;
    let n = model::late_count(s, conn.ts(now), conn.drop_budget()) as int;
    lemma_late(s, conn.ts(now), conn.drop_budget());
    if n > 0 {
        let body = ControlView::DropReq {
            message_number: s[n - 1].packet.message_number,
            first: s[0].packet.seq,
            last: s[n - 1].packet.seq,
        };
        lemma_told(conn, body, now);
        assert(conn.shed(n).control(body, now) == conn.control(body, now));
        let out = conn.outputs.push(OutputView::SendDatagram(told(conn, body, now)));
        assert(out + Seq::empty() =~= out);
        assert(out + seq![OutputView::ClearTimer { id: TimerId::Exp }] =~= out.push(
            OutputView::ClearTimer { id: TimerId::Exp },
        ));
        assert(conn.late_dropped(now).outputs =~= out + (if n == s.len() {
            seq![OutputView::ClearTimer { id: TimerId::Exp }]
        } else {
            Seq::empty()
        }));
    }
    n
}

// ---- timeouts ----

/// The retransmission timeout to come: the average round trip and four variances,
/// times the count, and no less than 300 ms.
pub open spec fn timeout(conn: ConnView, count: int) -> int {
    let whole = (conn.rtt.rtt + 4 * conn.rtt.var) * count;
    if whole > 300_000_000 {
        whole
    } else {
        300_000_000
    }
}

/// The timer is set for the timeout.
pub proof fn lemma_timeout(conn: ConnView)
    requires
        0 <= conn.rtt.rtt <= u64::MAX,
        0 <= conn.rtt.var <= u64::MAX,
        1 <= conn.exp_count <= 8,
    ensures
        conn.exp_interval() == timeout(conn, conn.exp_count as int),
{
    let rto = conn.rtt.rtt + 4 * conn.rtt.var;
    assert(0 <= rto * conn.exp_count <= 8 * rto) by (nonlinear_arith)
        requires
            0 <= rto,
            1 <= conn.exp_count <= 8,
    ;
}

/// A timeout sends everything again: of the packets still held once the too old ones
/// are given up, all that were not sent again within the last round trip go out once
/// more, each once; the factor on the timeout grows by one, up to eight, and the timer
/// is set for the timeout with it.
pub proof fn law_timeout_sends_everything_again(conn: ConnView, now: u64) -> (chosen: Seq<int>)
    requires
        conn.wf(),
        conn.state == State::Connected,
        conn.send_buffer.len() <= 0x3FFF_FFFF,
        0 <= conn.rtt.rtt <= u64::MAX,
        0 <= conn.rtt.var <= u64::MAX,
        conn.late_dropped(now).send_buffer.len() > 0,
    ensures
        ({
            let held = conn.late_dropped(now);
            let after = conn.fired(TimerId::Exp, now);
            let count = if conn.exp_count < 8 {
                conn.exp_count + 1
            } else {
                8
            };
            &&& after.outputs.len() > 0
            &&& sent_again(
                held,
                ConnView {
                    outputs: after.outputs.drop_last(),
                    exp_count: conn.exp_count,
                    ..after
                },
                chosen,
                now,
            )
            &&& forall|i: int|
                0 <= i < held.send_buffer.len() ==> (#[trigger] chosen.contains(i) <==> rested(
                    held.send_buffer[i],
                    conn.rtt.rtt,
                    now,
                ))
            &&& after.exp_count == count
            &&& after.outputs.last() == (OutputView::SetTimer {
                id: TimerId::Exp,
                after: timeout(conn, count),
            })
        }),
{
    reveal(ConnView::fired);
    reveal(ConnView::exp_fired);
    reveal(ConnView::exp_armed);
    reveal(model::buffer_ok);
    let held = conn.late_dropped(now);
    lemma_late(conn.send_buffer, conn.ts(now), conn.drop_budget());
    let n = model::late_count(conn.send_buffer, conn.ts(now), conn.drop_budget()) as int;
    send_buffer::lemma_skip_contiguous(conn.send_buffer, n);
    assert(held.send_buffer == conn.send_buffer.skip(n) && held.rtt == conn.rtt && held.exp_count
        == conn.exp_count) by {
        reveal(ConnView::late_dropped);
        reveal(ConnView::shed);
        assert(conn.send_buffer.skip(0) =~= conn.send_buffer);
    }
    let s = held.send_buffer;
    let first = s[0].packet.seq;
    let last = s.last().packet.seq;
    lemma_none_sent_again(held, now);
    assert forall|i: int| #[trigger] Seq::<int>::empty().contains(i) implies rested(
        s[i],
        held.rtt.rtt,
        now,
    ) by {}
    let chosen = lemma_retransmitted(held, held, Seq::empty(), first, last, now);
    let t = held.retransmitted(first, last, now);
    let after = conn.fired(TimerId::Exp, now);
    assert forall|i: int| 0 <= i < s.len() implies between(
        #[trigger] s[i].packet.seq,
        first,
        last,
    ) by {
        assert(s[0].packet.in_range());
        assert(s[i].packet.in_range());
        assert(s[s.len() - 1].packet.in_range());
        lemma_between_ends(first, i, s.len() - 1);
    }
    assert(t.exp_count == conn.exp_count && t.rtt == conn.rtt);
    let count = if conn.exp_count < 8 {
        (conn.exp_count + 1) as u32
    } else {
        8
    };
    let u = ConnView { exp_count: count, ..t };
    lemma_timeout(u);
    assert(after.outputs.drop_last() =~= t.outputs);
    assert forall|i: int| 0 <= i < s.len() implies (#[trigger] chosen.contains(i) <==> rested(
        s[i],
        conn.rtt.rtt,
        now,
    )) by {
        assert(between(s[i].packet.seq, first, last));
        assert(!Seq::<int>::empty().contains(i));
    }
    chosen
}

proof fn lemma_between_ends(first: u32, i: int, end: int)
    requires
        first < 0x8000_0000,
        0 <= i <= end < 0x3FFF_FFFF,
    ensures
        between(
            crate::seq::seq_add(first, i),
            crate::seq::seq_add(first, 0),
            crate::seq::seq_add(first, end),
        ),
        crate::seq::seq_add(first, 0) == first,
{
}

/// With nothing left to send again, a timeout only gives up what is too old, and
/// with nothing held it does nothing.
pub proof fn law_timeout_with_nothing_held_ends(conn: ConnView, now: u64)
    requires
        conn.state == State::Connected,
        conn.late_dropped(now).send_buffer.len() == 0,
    ensures
        conn.fired(TimerId::Exp, now) == conn.late_dropped(now),
{
    reveal(ConnView::fired);
    reveal(ConnView::exp_fired);
    if conn.send_buffer.len() == 0 {
        reveal(ConnView::late_dropped);
    }
}

// ---- acknowledgements ----

/// How many of the packets held an acknowledgement covers, if `n`: those before the
/// number it expects next, which are the oldest; an acknowledgement from behind the
/// oldest packet covers none.
pub open spec fn covers(s: Seq<SentView>, next: u32, n: int) -> bool {
    &&& 0 <= n <= s.len()
    &&& s.len() > 0 && crate::seq::seq_offset(s[0].packet.seq, next) > 0 ==> n == 0
    &&& s.len() > 0 && crate::seq::seq_offset(s[0].packet.seq, next) <= 0 ==> forall|i: int|
        0 <= i < s.len() ==> (i < n <==> crate::seq::seq_offset(
            (#[trigger] s[i]).packet.seq,
            next,
        ) < 0)
}

/// An acknowledgement lets go of exactly the packets before the number it expects
/// next, and of those too old to be of use; a full one also brings the room that the
/// peer has. The factor on the timeout is back at one; the timer is set anew for what
/// is still held, or cleared. All but a light one are answered under their number.
pub proof fn law_acknowledgements_let_go(
    conn: ConnView,
    datagram: Seq<u8>,
    timestamp: u32,
    dest: SocketId,
    ack_number: u32,
    last_ack_seq: u32,
    cif: AckCif,
    now: u64,
) -> (n: int)
    requires
        conn.wf(),
        conn.state == State::Connected,
        !conn.closing,
        last_ack_seq < 0x8000_0000,
        conn.send_buffer.len() <= 0x3FFF_FFFF,
        0 <= conn.rtt.rtt <= u64::MAX,
        0 <= conn.rtt.var <= u64::MAX,
        brings(datagram, timestamp, dest, ControlView::Ack { ack_number, last_ack_seq, cif }),
    ensures
        ({
            let after = conn.fed(datagram, now);
            let kept = (ConnView {
                send_buffer: conn.send_buffer.skip(n),
                peer_avail_window: match cif {
                    AckCif::Full { avail_buffer_size, .. } => avail_buffer_size,
                    _ => conn.peer_avail_window,
                },
                stats: Stats {
                    acks_received: arith::clamp_u64(conn.stats.acks_received + 1),
                    ..conn.stats
                },
                last_recv_any: now,
                ..conn
            }).late_dropped(now);
            let timer = if kept.send_buffer.len() > 0 {
                OutputView::SetTimer { id: TimerId::Exp, after: timeout(conn, 1) }
            } else {
                OutputView::ClearTimer { id: TimerId::Exp }
            };
            &&& covers(conn.send_buffer, last_ack_seq, n)
            &&& after == (ConnView {
                exp_count: 1,
                live_cc: match conn.live_cc {
                    Some(cc) => Some(cc.acked()),
                    None => None,
                },
                last_sent: if cif is Light {
                    kept.last_sent
                } else {
                    now
                },
                outputs: if cif is Light {
                    kept.outputs.push(timer)
                } else {
                    kept.outputs.push(timer).push(
                        OutputView::SendDatagram(
                            told(conn, ControlView::AckAck { ack_number }, now),
                        ),
                    )
                },
                ..kept
            })
        }),
{
    lemma_control_heard(
        conn,
        datagram,
        timestamp,
        dest,
        ControlView::Ack { ack_number, last_ack_seq, cif },
        now,
    );
    reveal(ConnView::heard);
    reveal(ConnView::ack_heard);
    reveal(ConnView::released);
    reveal(ConnView::exp_restarted);
    reveal(ConnView::exp_armed);
    reveal(ConnView::closed_if_drained);
    let s = conn.send_buffer;
    let n = send_buffer::acked_count(s, last_ack_seq);
    assert(send_buffer::contiguous(s)) by {
        reveal(model::buffer_ok);
    }
    send_buffer::law_ack_releases_all_before(s, last_ack_seq);
    let alive = ConnView { last_recv_any: now, ..conn };
    let kept = alive.released(last_ack_seq, cif).late_dropped(now);
    assert(kept.rtt == conn.rtt && kept.closing == conn.closing && kept.peer_socket_id
        == conn.peer_socket_id && kept.start == conn.start && kept.live_cc == conn.live_cc) by {
        reveal(ConnView::late_dropped);
        reveal(ConnView::shed);
    }
    lemma_timeout(ConnView { exp_count: 1, ..kept });
    lemma_timeout(kept.exp_restarted());
    lemma_told(conn, ControlView::AckAck { ack_number }, now);
    n
}

} // verus!
