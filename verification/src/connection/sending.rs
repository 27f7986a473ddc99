//! What goes out for a message: how it is cut, what its packets say, and how long
//! they are.

use crate::arith;
use crate::connection::config::KeySize;
use crate::connection::event::{EventView, OutputView, TimerId};
use crate::connection::message;
use crate::connection::message::FragmentView;
use crate::connection::model;
use crate::connection::model::ConnView;
use crate::connection::recovery::{lemma_timeout, timeout};
use crate::crypto::key_material::CipherMode;
use crate::crypto::CryptoView;
use crate::fec;
use crate::fec::FecFields;
use crate::packet::{DataView, Encryption, PacketPosition, PacketView};
use crate::send_buffer::SentView;
use crate::stats::Stats;
use vstd::prelude::*;

verus! {

/// The datagrams among some outputs, in order.
pub open spec fn datagrams(outputs: Seq<OutputView>) -> Seq<Seq<u8>>
    decreases outputs.len(),
{
    if outputs.len() == 0 {
        Seq::empty()
    } else {
        match outputs.last() {
            OutputView::SendDatagram(bytes) => datagrams(outputs.drop_last()).push(bytes),
            _ => datagrams(outputs.drop_last()),
        }
    }
}

/// One more output.
pub proof fn lemma_datagrams_push(outputs: Seq<OutputView>, o: OutputView)
    ensures
        datagrams(outputs.push(o)) == (match o {
            OutputView::SendDatagram(bytes) => datagrams(outputs).push(bytes),
            _ => datagrams(outputs),
        }),
{
    assert(outputs.push(o).drop_last() =~= outputs);
}

/// Whether `fs` is the message cut into parts that fill `room` bytes, all but the
/// last, in order and without overlap; each part says where it stands, and bears the
/// message's number.
pub open spec fn cut(payload: Seq<u8>, room: int, number: u32, fs: Seq<FragmentView>) -> bool {
    let n = fs.len() as int;
    &&& n >= 1
    &&& payload.len() <= n * room
    &&& n > 1 ==> (n - 1) * room < payload.len()
    &&& forall|i: int|
        0 <= i < n ==> {
            &&& (#[trigger] fs[i]).message == number
            &&& fs[i].payload == payload.subrange(
                i * room,
                if i == n - 1 {
                    payload.len() as int
                } else {
                    i * room + room
                },
            )
            &&& fs[i].position == (if n == 1 {
                PacketPosition::Single
            } else if i == 0 {
                PacketPosition::First
            } else if i == n - 1 {
                PacketPosition::Last
            } else {
                PacketPosition::Middle
            })
        }
}

proof fn lemma_parts(len: int, room: int, i: int)
    by (nonlinear_arith)
    requires
        0 < room,
        0 <= i,
        room < len,
    ensures
        (len + room - 1) / room > 1,
        ((len + room - 1) / room - 1) * room < len,
        len <= ((len + room - 1) / room) * room,
        (i + 1) * room == i * room + room,
        i < (len + room - 1) / room - 1 ==> (i + 1) * room < len,
        i == (len + room - 1) / room - 1 ==> (i + 1) * room >= len,
{
}

proof fn lemma_message_is_cut(payload: Seq<u8>, room: int, number: u32)
    requires
        room > 0,
    ensures
        cut(payload, room, number, message::fragments_of(payload, room, number)),
{
    let fs = message::fragments_of(payload, room, number);
    let len = payload.len() as int;
    let n = fs.len() as int;
    if len > room {
        lemma_parts(len, room, 0);
        assert forall|i: int| 0 <= i < n implies (#[trigger] fs[i]).message == number
            && fs[i].payload == payload.subrange(
            i * room,
            if i == n - 1 {
                len
            } else {
                i * room + room
            },
        ) && fs[i].position == (if n == 1 {
            PacketPosition::Single
        } else if i == 0 {
            PacketPosition::First
        } else if i == n - 1 {
            PacketPosition::Last
        } else {
            PacketPosition::Middle
        }) by {
            lemma_parts(len, room, i);
        }
    } else {
        assert(1 * room == room && 0 * room == 0 && (0 + 1) * room == room);
        assert(n == 1);
        assert(n * room == room) by (nonlinear_arith)
            requires
                n == 1,
        ;
        assert(fs[0] == message::fragment_at(payload, room, number, 0));
    }
}

/// The bytes that encryption adds to a payload: sixteen for a cipher that
/// authenticates, otherwise none.
pub open spec fn tag(crypto: Option<CryptoView>) -> int {
    match crypto {
        Some(c) => if c.slot(c.active) matches Some(k) && k.mode == CipherMode::Gcm {
            16
        } else {
            0
        },
        None => 0,
    }
}

/// Whether the key that is about to be switched to, if any, is for the cipher in use.
pub open spec fn keeps_the_cipher(conn: ConnView) -> bool {
    conn.crypto matches Some(c) ==> conn.next_key_ready ==> {
        let other = if c.active == Encryption::Odd {
            c.even
        } else {
            c.odd
        };
        other matches Some(k) ==> c.slot(c.active) matches Some(used) ==> k.mode == used.mode
    }
}

/// Whether `p` is a first transmission of `f` under the given number, at the given
/// time, to the peer; what is not encrypted carries the payload as it is, and
/// encryption adds the tag.
pub open spec fn carries(conn: ConnView, p: DataView, f: FragmentView, seq: u32, now: u64) -> bool {
    &&& p.seq == seq
    &&& p.position == f.position
    &&& p.in_order
    &&& !p.retransmitted
    &&& p.message_number == f.message % 0x400_0000
    &&& p.timestamp == (if now >= conn.start {
        (now - conn.start) / 1_000 % 0x1_0000_0000
    } else {
        0
    })
    &&& p.dest_socket_id == conn.peer_socket_id
    &&& conn.crypto is None ==> p.encryption == Encryption::Unencrypted && p.payload == f.payload
    &&& conn.crypto is Some ==> p.encryption != Encryption::Unencrypted
    &&& p.payload.len() == f.payload.len() + tag(conn.crypto)
}

/// Whether, from `before` to `after`, the fragments were sent in order under the next
/// numbers, once each, and are kept until they are acknowledged.
pub open spec fn sent_out(
    before: ConnView,
    after: ConnView,
    fs: Seq<FragmentView>,
    now: u64,
) -> bool {
    let held = before.send_buffer.len();
    let packets = after.send_buffer.skip(held as int);
    &&& after.send_buffer.len() == held + fs.len()
    &&& after.send_buffer.take(held as int) == before.send_buffer
    &&& forall|i: int|
        0 <= i < fs.len() ==> (#[trigger] packets[i]).last_retransmit is None && carries(
            before,
            packets[i].packet,
            fs[i],
            ((before.next_send_seq + i) % 0x8000_0000) as u32,
            now,
        )
    &&& before.fec_send is None ==> datagrams(after.outputs) == datagrams(before.outputs)
        + packets.map_values(|p: SentView| PacketView::Data(p.packet).bytes())
    &&& after.next_send_seq == (before.next_send_seq + fs.len()) % 0x8000_0000
    &&& after.stats.packets_sent == arith::clamp_u64(
        (before.stats.packets_sent + fs.len()) as int,
    )
}

/// What the run of fragments changes of the rest.
spec fn steady(before: ConnView, after: ConnView) -> bool {
    &&& after.start == before.start
    &&& after.peer_socket_id == before.peer_socket_id
    &&& after.config == before.config
    &&& after.crypto is Some == before.crypto is Some
    &&& tag(after.crypto) == tag(before.crypto)
    &&& keeps_the_cipher(after)
    &&& model::keys_ok(after.crypto, after.next_key_ready, after.pending_km)
    &&& (after.fec_send is None) == (before.fec_send is None)
    &&& after.next_send_seq < 0x8000_0000
}

proof fn lemma_accounted(s: ConnView)
    requires
        keeps_the_cipher(s),
        model::keys_ok(s.crypto, s.next_key_ready, s.pending_km),
        s.next_send_seq < 0x8000_0000,
    ensures
        steady(s, s.accounted()),
        s.accounted().send_buffer == s.send_buffer,
        s.accounted().outputs == s.outputs,
        s.accounted().next_send_seq == s.next_send_seq,
        s.accounted().stats == s.stats,
{
    reveal(ConnView::accounted);
    reveal(ConnView::rotated);
    reveal(model::keys_ok);
}

proof fn lemma_wire_packet(s: ConnView, f: FragmentView, now: u64)
    requires
        s.readable(f, now),
        model::keys_ok(s.crypto, s.next_key_ready, s.pending_km),
    ensures
        carries(s, s.wire_packet(f, now), f, s.next_send_seq, now),
{
    reveal(ConnView::readable);
    reveal(ConnView::wire_packet);
    reveal(ConnView::plain_packet);
    reveal(model::keys_ok);
}

proof fn lemma_sent_now(s: ConnView, f: FragmentView, now: u64)
    requires
        s.next_send_seq < 0x8000_0000,
        s.readable(f, now),
        keeps_the_cipher(s),
        model::keys_ok(s.crypto, s.next_key_ready, s.pending_km),
    ensures
        ({
            let after = s.sent_now(f, now);
            let p = s.wire_packet(f, now);
            &&& steady(s, after)
            &&& after.send_buffer == s.send_buffer.push(
                SentView { packet: p, last_retransmit: None },
            )
            &&& s.fec_send is None ==> datagrams(after.outputs) == datagrams(s.outputs).push(
                PacketView::Data(p).bytes(),
            )
            &&& after.next_send_seq == (s.next_send_seq + 1) % 0x8000_0000
            &&& after.stats.packets_sent == arith::clamp_u64(s.stats.packets_sent + 1)
        }),
{
    reveal(ConnView::sent_now);
    reveal(ConnView::kept);
    reveal(ConnView::parity_due);
    reveal(ConnView::parity_sent);
    reveal(ConnView::exp_armed);
    let p = s.wire_packet(f, now);
    lemma_wire_packet(s, f, now);
    lemma_datagrams_push(s.outputs, OutputView::SendDatagram(PacketView::Data(p).bytes()));
    let out = s.outputs.push(OutputView::SendDatagram(PacketView::Data(p).bytes()));
    let t = s.kept(p, f.payload.len() as int).emitted(PacketView::Data(p).bytes(), now);
    lemma_datagrams_push(out, OutputView::SetTimer { id: TimerId::Exp, after: t.exp_interval() });
}

proof fn lemma_sent_all(s: ConnView, fs: Seq<FragmentView>, now: u64)
    requires
        s.next_send_seq < 0x8000_0000,
        s.all_readable(fs, now),
        keeps_the_cipher(s),
        model::keys_ok(s.crypto, s.next_key_ready, s.pending_km),
    ensures
        sent_out(s, s.sent_all(fs, now), fs, now),
        steady(s, s.sent_all(fs, now)),
    decreases fs.len(),
{
    reveal(ConnView::sent_all);
    reveal(ConnView::all_readable);
    reveal(ConnView::sent);
    let held = s.send_buffer.len() as int;
    let after = s.sent_all(fs, now);
    let bytes = |p: SentView| PacketView::Data(p.packet).bytes();
    if fs.len() == 0 {
        assert(s.send_buffer.take(held) =~= s.send_buffer);
        assert(s.send_buffer.skip(held).map_values(bytes) =~= Seq::empty());
        assert(datagrams(s.outputs) =~= datagrams(s.outputs) + Seq::empty());
    } else {
        let rest = fs.drop_last();
        lemma_sent_all(s, rest, now);
        let t = s.sent_all(rest, now);
        lemma_accounted(t);
        let u = t.accounted();
        lemma_wire_packet(u, fs.last(), now);
        lemma_sent_now(u, fs.last(), now);
        let p = u.wire_packet(fs.last(), now);
        let earlier = t.send_buffer.skip(held);
        let packets = after.send_buffer.skip(held);
        assert(packets =~= earlier.push(SentView { packet: p, last_retransmit: None }));
        assert(after.send_buffer.take(held) =~= t.send_buffer.take(held));
        assert(packets.map_values(bytes) =~= earlier.map_values(bytes).push(
            PacketView::Data(p).bytes(),
        ));
        assert(datagrams(s.outputs) + packets.map_values(bytes) =~= (datagrams(s.outputs)
            + earlier.map_values(bytes)).push(PacketView::Data(p).bytes()));
        lemma_next(s.next_send_seq, rest.len() as int);
        assert forall|i: int| 0 <= i < fs.len() implies (
        #[trigger] packets[i]).last_retransmit is None && carries(
            s,
            packets[i].packet,
            fs[i],
            ((s.next_send_seq + i) % 0x8000_0000) as u32,
            now,
        ) by {
            if i < rest.len() {
                assert(packets[i] == earlier[i]);
                assert(rest[i] == fs[i]);
            }
        }
    }
}

proof fn lemma_next(seq: u32, n: int)
    requires
        0 <= n,
    ensures
        ((seq + n) % 0x8000_0000 + 1) % 0x8000_0000 == (seq + (n + 1)) % 0x8000_0000,
{
}

/// A message goes out whole: it is cut into parts that fill a packet of the
/// configured size, all but the last, where a packet takes 44 bytes of headers and the
/// tag of an authenticating cipher besides its part. Without a bandwidth limit the
/// parts are sent at once, in order, under consecutive numbers; with one they join the
/// queue, in order, and whatever is due goes out.
pub proof fn law_message_goes_out_in_packets_that_fit(
    conn: ConnView,
    payload: Seq<u8>,
    now: u64,
) -> (fs: Seq<FragmentView>)
    requires
        conn.wf(),
        conn.config.check() is Ok,
        conn.next_send_seq < 0x8000_0000,
        keeps_the_cipher(conn),
        conn.submitted_readable(payload, now),
    ensures
        ({
            let after = conn.submitted(payload, now);
            let held = conn.send_buffer.len() as int;
            &&& cut(
                payload,
                conn.config.mtu - 44 - tag(conn.crypto),
                conn.next_message,
                fs,
            )
            &&& conn.live_cc is None ==> {
                &&& sent_out(conn, after, fs, now)
                &&& forall|i: int|
                    held <= i < after.send_buffer.len() ==> PacketView::Data(
                        (#[trigger] after.send_buffer[i]).packet,
                    ).bytes().len() + 28 <= conn.config.mtu
                &&& forall|i: int|
                    held <= i < after.send_buffer.len() - 1 ==> PacketView::Data(
                        (#[trigger] after.send_buffer[i]).packet,
                    ).bytes().len() + 28 == conn.config.mtu
            }
            &&& conn.live_cc is Some ==> after == (ConnView {
                next_message: if (conn.next_message + 1) % 0x400_0000 == 0 {
                    1
                } else {
                    (conn.next_message + 1) as u32
                },
                send_queue: conn.send_queue + fs,
                ..conn
            }).fired(TimerId::SndPacing, now)
        }),
{
    reveal(ConnView::submitted);
    reveal(ConnView::submitted_readable);
    let room = conn.config.mtu - 44 - tag(conn.crypto);
    assert(conn.max_payload() == room && room > 0);
    let fs = message::fragments_of(payload, room, conn.next_message);
    lemma_message_is_cut(payload, room, conn.next_message);
    let s = ConnView { next_message: model::following_message(conn.next_message), ..conn };
    if conn.live_cc is Some {
        reveal(ConnView::fired);
    } else {
        lemma_sent_all(s, fs, now);
        let after = conn.submitted(payload, now);
        let held = conn.send_buffer.len() as int;
        let packets = after.send_buffer.skip(held);
        assert forall|i: int| held <= i < after.send_buffer.len() implies PacketView::Data(
            (#[trigger] after.send_buffer[i]).packet,
        ).bytes().len() + 28 <= conn.config.mtu && (i < after.send_buffer.len() - 1
            ==> PacketView::Data(after.send_buffer[i].packet).bytes().len() + 28
            == conn.config.mtu) by {
            let p = packets[i - held];
            assert(p == after.send_buffer[i]);
            let f = fs[i - held];
            let n = fs.len() as int;
            lemma_part_len(payload.len() as int, room, n, i - held);
            assert(PacketView::Data(p.packet).bytes().len() == 16 + p.packet.payload.len());
        }
    }
    fs
}

/// A part that fits makes a packet that fits, also when it waited for its turn: with 28
/// bytes of IP and UDP headers the datagram is as long as the part with its tag and 44 bytes.
pub proof fn law_fitting_parts_make_fitting_packets(
    conn: ConnView,
    p: DataView,
    f: FragmentView,
    now: u64,
)
    requires
        carries(conn, p, f, p.seq, now),
    ensures
        PacketView::Data(p).bytes().len() + 28 == f.payload.len() + tag(conn.crypto) + 44,
{
}

proof fn lemma_part_len(len: int, room: int, n: int, i: int)
    by (nonlinear_arith)
    requires
        0 < room,
        0 <= i < n,
        0 <= len <= n * room,
        n > 1 ==> (n - 1) * room < len,
    ensures
        i == n - 1 ==> 0 <= len - i * room <= room,
        i < n - 1 ==> 0 <= i * room && i * room + room <= len,
{
}

// ---- one packet ----

/// The outputs for one packet: its datagram, the parity of the group that it
/// completes, and the retransmission timer if it is the only one outstanding.
pub open spec fn outputs_for(
    conn: ConnView,
    p: DataView,
    parity: Option<DataView>,
) -> Seq<OutputView> {
    seq![OutputView::SendDatagram(PacketView::Data(p).bytes())] + (match parity {
        Some(q) => seq![OutputView::SendDatagram(PacketView::Data(q).bytes())],
        None => Seq::empty(),
    }) + (if conn.send_buffer.len() == 0 {
        seq![
            OutputView::SetTimer { id: TimerId::Exp, after: timeout(conn, conn.exp_count as int) },
        ]
    } else {
        Seq::empty()
    })
}

/// One fragment goes out as one packet under the next number, which is kept and
/// counted with the bytes of its payload. The last packet of each group is followed by
/// the group's parity, under the same number and with the message number 0.
pub proof fn law_each_fragment_goes_out_once(
    conn: ConnView,
    f: FragmentView,
    now: u64,
) -> (p: DataView)
    requires
        conn.next_send_seq < 0x8000_0000,
        1 <= conn.exp_count <= 8,
        0 <= conn.rtt.rtt <= u64::MAX,
        0 <= conn.rtt.var <= u64::MAX,
        keeps_the_cipher(conn),
        model::keys_ok(conn.crypto, conn.next_key_ready, conn.pending_km),
        conn.accounted().readable(f, now),
    ensures
        ({
            let keyed = conn.accounted();
            let after = conn.sent(f, now);
            let covered = FecFields {
                length: arith::clamp_u16(p.payload.len() as int),
                flags: match p.encryption {
                    Encryption::Unencrypted => 0,
                    Encryption::Even => 1,
                    Encryption::Odd => 2,
                },
                timestamp: p.timestamp,
                payload: p.payload,
            };
            let parity = match conn.fec_send {
                Some(fec) => if fec.collected + 1 == fec.group_size {
                    let sum = fec.clip.added(covered);
                    Some(
                        DataView {
                            seq: p.seq,
                            position: PacketPosition::Single,
                            in_order: true,
                            encryption: Encryption::Unencrypted,
                            retransmitted: false,
                            message_number: 0,
                            timestamp: sum.timestamp,
                            dest_socket_id: conn.peer_socket_id,
                            payload: seq![
                                255u8,
                                sum.flags,
                                (sum.length / 256) as u8,
                                (sum.length % 256) as u8,
                            ] + sum.payload,
                        },
                    )
                } else {
                    None
                },
                None => None,
            };
            &&& carries(keyed, p, f, conn.next_send_seq, now)
            &&& after == (ConnView {
                send_buffer: conn.send_buffer.push(
                    SentView { packet: p, last_retransmit: None },
                ),
                next_send_seq: ((conn.next_send_seq + 1) % 0x8000_0000) as u32,
                stats: Stats {
                    packets_sent: arith::clamp_u64(conn.stats.packets_sent + 1),
                    bytes_sent: arith::clamp_u64(
                        (conn.stats.bytes_sent + f.payload.len()) as int,
                    ),
                    ..conn.stats
                },
                fec_send: match conn.fec_send {
                    Some(fec) => Some(fec.fed(covered)),
                    None => None,
                },
                live_cc: match conn.live_cc {
                    Some(cc) => Some(cc.sent(p.payload.len() as int)),
                    None => None,
                },
                last_sent: now,
                outputs: conn.outputs + outputs_for(conn, p, parity),
                ..keyed
            })
        }),
{
    reveal(ConnView::sent);
    lemma_accounted(conn);
    let keyed = conn.accounted();
    lemma_accounted_keeps(conn);
    let p = keyed.wire_packet(f, now);
    lemma_wire_packet(keyed, f, now);
    reveal(ConnView::sent_now);
    reveal(ConnView::kept);
    reveal(ConnView::parity_due);
    reveal(ConnView::parity_sent);
    reveal(ConnView::exp_armed);
    let s = keyed.kept(p, f.payload.len() as int).emitted(PacketView::Data(p).bytes(), now);
    assert(s.rtt == conn.rtt && s.exp_count == conn.exp_count);
    lemma_timeout(s);
    let parity = match keyed.parity_due(p) {
        Some(sum) => {
            assert(fec::parity_bytes(sum, fec::ROW_INDEX) =~= seq![
                255u8,
                sum.flags,
                (sum.length / 256) as u8,
                (sum.length % 256) as u8,
            ] + sum.payload);
            Some(s.parity_packet(p.seq, sum))
        },
        None => None,
    };
    assert(conn.sent(f, now).outputs =~= conn.outputs + outputs_for(conn, p, parity));
    p
}

proof fn lemma_accounted_keeps(s: ConnView)
    ensures
        ({
            let t = s.accounted();
            t == (ConnView {
                crypto: t.crypto,
                packets_on_key: t.packets_on_key,
                next_key_ready: t.next_key_ready,
                rekey_pending: t.rekey_pending,
                events: t.events,
                ..s
            })
        }),
{
    reveal(ConnView::accounted);
    reveal(ConnView::rotated);
}

/// Each key serves a fixed number of packets: as many as configured, or 2^24. Every
/// encrypted packet is counted on its key. Once the key has served and the peer has
/// confirmed the next one, the next packet switches to the other slot and counts from
/// one. A quarter ahead of that, but at least one packet, a fresh key is asked for, once,
/// if none is on its way.
pub proof fn law_keys_serve_a_fixed_number_of_packets(conn: ConnView)
    requires
        conn.crypto is Some,
        conn.config.encryption is Some,
    ensures
        ({
            let after = conn.accounted();
            let c = conn.crypto->0;
            let term: int = if conn.config.km_refresh_rate == 0 {
                16_777_216
            } else {
                conn.config.km_refresh_rate as int
            };
            let ahead: int = if term / 4 > 1 {
                term / 4
            } else {
                1
            };
            let switches = conn.next_key_ready && conn.packets_on_key >= term;
            let count = if switches {
                1
            } else if conn.packets_on_key == u32::MAX {
                conn.packets_on_key as int
            } else {
                conn.packets_on_key + 1
            };
            let asks = !conn.rekey_pending && (switches || !conn.next_key_ready)
                && conn.pending_km is None && count >= term - ahead;
            after == (ConnView {
                crypto: Some(
                    CryptoView {
                        active: if !switches {
                            c.active
                        } else if c.active == Encryption::Odd {
                            Encryption::Even
                        } else {
                            Encryption::Odd
                        },
                        ..c
                    },
                ),
                packets_on_key: count as u32,
                next_key_ready: conn.next_key_ready && !switches,
                rekey_pending: conn.rekey_pending || asks,
                events: if asks {
                    conn.events.push(
                        EventView::KeyRefreshNeeded {
                            key_size: match conn.config.encryption->0.key_size {
                                KeySize::Aes128 => 16,
                                KeySize::Aes192 => 24,
                                KeySize::Aes256 => 32,
                            },
                        },
                    )
                } else {
                    conn.events
                },
                ..conn
            })
        }),
{
    reveal(ConnView::accounted);
    reveal(ConnView::rotated);
}

// ---- the pacer ----

/// When the next packet's turn is: as scheduled, or now.
pub open spec fn turn(conn: ConnView, now: u64) -> u64 {
    match conn.next_send {
        Some(at) => at,
        None => now,
    }
}

/// Whether `k` more packets are due, of a queue whose first turn is at `start`, with at
/// most `limit` at once: those whose turn has come.
pub open spec fn due(start: u64, period: int, queued: int, limit: int, now: u64, k: int) -> bool {
    &&& 0 <= k <= queued
    &&& k <= limit
    &&& forall|j: int| 0 <= j < k ==> start + #[trigger] (j * period) <= now
    &&& k == queued || k == limit || start + k * period > now
}

proof fn lemma_sent_out_joins(
    a: ConnView,
    b: ConnView,
    c: ConnView,
    f: FragmentView,
    rest: Seq<FragmentView>,
    now: u64,
)
    requires
        a.next_send_seq < 0x8000_0000,
        sent_out(a, b, seq![f], now),
        steady(a, b),
        sent_out(b, c, rest, now),
    ensures
        sent_out(a, c, seq![f] + rest, now),
{
    let fs = seq![f] + rest;
    let held = a.send_buffer.len() as int;
    let bytes = |p: SentView| PacketView::Data(p.packet).bytes();
    let first = b.send_buffer.skip(held);
    let later = c.send_buffer.skip(held + 1);
    let packets = c.send_buffer.skip(held);
    assert(c.send_buffer.take(held + 1) == b.send_buffer);
    assert(c.send_buffer.take(held) =~= b.send_buffer.take(held));
    assert(packets =~= first + later);
    assert(packets.map_values(bytes) =~= first.map_values(bytes) + later.map_values(bytes));
    assert(datagrams(a.outputs) + packets.map_values(bytes) =~= datagrams(a.outputs)
        + first.map_values(bytes) + later.map_values(bytes));
    assert forall|i: int| 0 <= i < fs.len() implies (
    #[trigger] packets[i]).last_retransmit is None && carries(
        a,
        packets[i].packet,
        fs[i],
        ((a.next_send_seq + i) % 0x8000_0000) as u32,
        now,
    ) by {
        if i == 0 {
            assert(packets[0] == first[0]);
            assert(seq![f][0] == f);
        } else {
            assert(packets[i] == later[i - 1]);
            assert(fs[i] == rest[i - 1]);
            lemma_place(a.next_send_seq, i);
        }
    }
    lemma_place(a.next_send_seq, rest.len() as int + 1);
}

proof fn lemma_place(seq: u32, i: int)
    requires
        1 <= i,
    ensures
        ((seq + 1) % 0x8000_0000 + (i - 1)) % 0x8000_0000 == (seq + i) % 0x8000_0000,
{
}

proof fn lemma_first_sent(s: ConnView, f: FragmentView, now: u64)
    requires
        s.next_send_seq < 0x8000_0000,
        keeps_the_cipher(s),
        model::keys_ok(s.crypto, s.next_key_ready, s.pending_km),
        s.accounted().readable(f, now),
    ensures
        sent_out(s, s.sent(f, now), seq![f], now),
        steady(s, s.sent(f, now)),
        s.sent(f, now).send_queue == s.send_queue,
        s.sent(f, now).next_send == s.next_send,
        s.sent(f, now).closing == s.closing,
{
    reveal(ConnView::all_readable);
    reveal(ConnView::sent_all);
    let fs = seq![f];
    assert(fs.drop_last() =~= Seq::empty());
    assert(s.sent_all(Seq::empty(), now) == s);
    assert(s.all_readable(Seq::empty(), now));
    assert(s.all_readable(fs, now));
    assert(s.sent_all(fs, now) == s.sent(f, now));
    lemma_sent_all(s, fs, now);
    reveal(ConnView::sent);
    lemma_accounted_keeps(s);
    reveal(ConnView::sent_now);
    reveal(ConnView::kept);
    reveal(ConnView::parity_sent);
    reveal(ConnView::exp_armed);
}

proof fn lemma_released_due(s: ConnView, released: nat, period: int, now: u64) -> (k: int)
    requires
        released <= 256,
        0 <= period,
        turn(s, now) + (256 - released) * period <= u64::MAX,
        s.next_send_seq < 0x8000_0000,
        keeps_the_cipher(s),
        model::keys_ok(s.crypto, s.next_key_ready, s.pending_km),
        s.due_readable(released, period, now),
    ensures
        ({
            let (t, total) = s.released_due(released, period, now);
            let start = turn(s, now);
            let q = s.send_queue;
            &&& due(start, period, q.len() as int, 256 - released, now, k)
            &&& total == released + k
            &&& sent_out(s, t, q.take(k), now)
            &&& t.send_queue == q.skip(k)
            &&& t.closing == s.closing
            &&& t.next_send == (if k == q.len() && released + k < 256 && start + k * period <= now {
                None
            } else if k == 0 {
                s.next_send
            } else {
                Some((start + k * period) as u64)
            })
        }),
    decreases 256 - released,
{
    reveal(ConnView::releases);
    reveal(ConnView::released_due);
    reveal(ConnView::due_readable);
    let q = s.send_queue;
    let start = turn(s, now);
    assert(0 * period == 0);
    if s.releases(released, now) {
        reveal(ConnView::released_one);
        reveal(ConnView::slot_used);
        let rest = ConnView { send_queue: q.skip(1), ..s };
        let sent = rest.sent(q[0], now);
        assert(keeps_the_cipher(rest));
        lemma_first_sent(rest, q[0], now);
        let u = s.released_one(period, now);
        assert((256 - released) * period == (256 - (released + 1)) * period + period)
            by (nonlinear_arith);
        assert(0 <= (256 - (released + 1)) * period) by (nonlinear_arith)
            requires
                released < 256,
                0 <= period,
        ;
        assert(turn(u, now) == start + period);
        assert(sent_out(s, u, seq![q[0]], now) && steady(s, u));
        let k = lemma_released_due(u, released + 1, period, now);
        let (t, total) = u.released_due(released + 1, period, now);
        lemma_sent_out_joins(s, u, t, q[0], q.skip(1).take(k), now);
        assert(seq![q[0]] + q.skip(1).take(k) =~= q.take(k + 1));
        assert(q.skip(1).skip(k) =~= q.skip(k + 1));
        assert((k + 1) * period == k * period + period) by (nonlinear_arith);
        assert forall|j: int| 0 <= j < k + 1 implies start + #[trigger] (j * period) <= now by {
            if j > 0 {
                assert(j * period == (j - 1) * period + period) by (nonlinear_arith);
                assert(start + period + (j - 1) * period <= now);
            }
        }
        k + 1
    } else {
        assert(q.take(0) =~= Seq::empty());
        assert(q.skip(0) =~= q);
        lemma_nothing_sent(s, now);
        lemma_nothing_sent(ConnView { next_send: None, ..s }, now);
        let (t, total) = s.released_due(released, period, now);
        assert(sent_out(s, t, Seq::empty(), now));
        0
    }
}

proof fn lemma_nothing_sent(s: ConnView, now: u64)
    requires
        s.next_send_seq < 0x8000_0000,
    ensures
        sent_out(s, s, Seq::empty(), now),
{
    let held = s.send_buffer.len() as int;
    assert(s.send_buffer.take(held) =~= s.send_buffer);
    assert(datagrams(s.outputs) + s.send_buffer.skip(held).map_values(
        |p: SentView| PacketView::Data(p.packet).bytes(),
    ) =~= datagrams(s.outputs));
}

/// The pacer keeps to the rate: of the queue it sends those packets whose turn has come,
/// in order, at most 256 at once, where one turn follows another by the send period;
/// then it sets its timer for the turn of the next packet, or clears it. Where the
/// limit left the schedule behind, it starts anew from now.
pub proof fn law_pacer_keeps_to_the_rate(conn: ConnView, now: u64) -> (k: int)
    requires
        conn.wf(),
        conn.live_cc is Some,
        conn.send_queue.len() > 0,
        0 <= conn.live_cc->0.snd_period,
        turn(conn, now) + 256 * conn.live_cc->0.snd_period <= u64::MAX,
        now + conn.live_cc->0.snd_period <= u64::MAX,
        conn.next_send_seq < 0x8000_0000,
        keeps_the_cipher(conn),
        conn.paced_readable(now),
    ensures
        ({
            let after = conn.fired(TimerId::SndPacing, now);
            let period = conn.live_cc->0.snd_period;
            let start = turn(conn, now);
            let q = conn.send_queue;
            let next = if k == 256 && start + k * period < now {
                now + period
            } else {
                start + k * period
            };
            &&& due(start, period, q.len() as int, 256, now, k)
            &&& sent_out(conn, after, q.take(k), now)
            &&& after.send_queue == q.skip(k)
            &&& after.outputs.len() > 0
            &&& k == q.len() ==> after.outputs.last() == (OutputView::ClearTimer {
                id: TimerId::SndPacing,
            })
            &&& k < q.len() ==> after.outputs.last() == (OutputView::SetTimer {
                id: TimerId::SndPacing,
                after: if next > now {
                    next - now
                } else {
                    0
                },
            })
            &&& k < q.len() || start + k * period > now ==> after.next_send == Some(next as u64)
            &&& k == q.len() && k < 256 && start + k * period <= now ==> after.next_send is None
        }),
{
    reveal(ConnView::fired);
    reveal(ConnView::paced);
    reveal(ConnView::paced_readable);
    reveal(ConnView::rescheduled);
    reveal(ConnView::closed_if_drained);
    let period = conn.live_cc->0.snd_period;
    assert((256 - 0) * period == 256 * period);
    let k = lemma_released_due(conn, 0, period, now);
    let (t, total) = conn.released_due(0, period, now);
    assert(0 * period == 0);
    assert(0 <= k * period <= 256 * period) by (nonlinear_arith)
        requires
            0 <= k <= 256,
            0 <= period,
    ;
    assert(t.send_buffer.len() == conn.send_buffer.len() + k);
    let after = conn.fired(TimerId::SndPacing, now);
    lemma_datagrams_push(t.outputs, after.outputs.last());
    assert(after.outputs =~= t.outputs.push(after.outputs.last()));
    k
}

/// With nothing queued the pacer clears its timer, forgets a turn that has passed, and
/// ends a connection whose close waits for nothing else; without a bandwidth limit it does
/// nothing.
pub proof fn law_idle_pacer_waits(conn: ConnView, now: u64)
    requires
        conn.send_queue.len() == 0,
    ensures
        conn.live_cc is None ==> conn.fired(TimerId::SndPacing, now) == conn,
        conn.live_cc is Some ==> conn.fired(TimerId::SndPacing, now) == (ConnView {
            next_send: if conn.next_send is Some && now < conn.next_send->0 {
                conn.next_send
            } else {
                None
            },
            outputs: conn.outputs.push(OutputView::ClearTimer { id: TimerId::SndPacing }),
            ..conn
        }).closed_if_drained(now),
{
    reveal(ConnView::fired);
    reveal(ConnView::paced);
    reveal(ConnView::released_due);
    reveal(ConnView::releases);
    reveal(ConnView::rescheduled);
}

// ---- the window ----

/// Data is taken exactly while both windows have room: fewer packets are queued or
/// unacknowledged than the own window is wide, and than the peer has last had room for.
pub proof fn law_window_is_open_while_there_is_room(conn: ConnView)
    ensures
        conn.window_open() <==> conn.send_buffer.len() + conn.send_queue.len()
            < conn.config.flow_window && conn.send_buffer.len() + conn.send_queue.len()
            < conn.peer_avail_window,
{
}

/// Messages are numbered from one on: each bears the next number, which has 26 bits on
/// the wire, and 0 is left out.
pub proof fn law_messages_are_numbered_in_turn(conn: ConnView, payload: Seq<u8>, now: u64)
    requires
        conn.live_cc is None,
    ensures
        conn.next_message < u32::MAX && (conn.next_message + 1) % 0x400_0000 != 0
            ==> conn.submitted(payload, now).next_message == conn.next_message + 1,
        (conn.next_message + 1) % 0x400_0000 == 0 ==> conn.submitted(payload, now).next_message
            == 1,
{
    reveal(ConnView::submitted);
    let s = ConnView { next_message: model::following_message(conn.next_message), ..conn };
    lemma_numbers_stay(
        s,
        message::fragments_of(payload, conn.max_payload(), conn.next_message),
        now,
    );
}

proof fn lemma_numbers_stay(s: ConnView, fs: Seq<FragmentView>, now: u64)
    ensures
        s.sent_all(fs, now).next_message == s.next_message,
    decreases fs.len(),
{
    reveal(ConnView::sent_all);
    if fs.len() > 0 {
        let t = s.sent_all(fs.drop_last(), now);
        lemma_numbers_stay(s, fs.drop_last(), now);
        reveal(ConnView::sent);
        lemma_accounted_keeps(t);
        reveal(ConnView::sent_now);
        reveal(ConnView::kept);
        reveal(ConnView::parity_sent);
        reveal(ConnView::exp_armed);
    }
}

} // verus!
