//! The data path of a connection that is up: sending, receiving,
//! acknowledgements, loss reports, retransmission, timed delivery and pacing.

use crate::arith;
use crate::buffer;
use crate::connection::event::{Event, TimerId};
use crate::connection::message::Fragment;
use crate::connection::model;
use crate::connection::model::{
    ConnView, ACK_INTERVAL, KEEPALIVE_PERIOD, LIGHT_ACK_EVERY, MAX_EXP_COUNT, MAX_PACE_BURST,
    MAX_PENDING_ACKS, MAX_REORDER_TOLERANCE, MIN_EXP_INTERVAL, REORDER_DECAY_AFTER,
    SND_DROP_MARGIN_US, SND_DROP_MIN_US,
};
use crate::connection::{Connection, State};
use crate::control::{Ack, AckCif, ControlBody};
use crate::error::ConnectionError;
use crate::fec;
use crate::fec::{FecData, FecParity, RecoveredPacket};
use crate::loss_list;
use crate::loss_list::LossRange;
use crate::packet::{DataPacket, DataView, Encryption, MsgNumber, Packet, PacketPosition, PacketView};
use crate::recv_buffer;
use crate::send_buffer;
use crate::send_buffer::SentView;
use crate::seq::SeqNumber;
use crate::time::{Duration, Instant};
use crate::timestamp::{Timestamp, TsbpdWrap};
use bytes::Bytes;
use std::collections::VecDeque;
use vstd::prelude::*;

verus! {

impl Connection {
    // ---- sender ----

    /// Sends one fragment: encrypts it if the connection is encrypted, keeps it
    /// until it is acknowledged, and adds a parity packet where it completes a
    /// group. What is kept is what was sent, so that it can be sent again as it
    /// is.
    pub(crate) fn send_data(&mut self, fragment: Fragment, now: Instant)
        requires
            old(self).wf(),
            fragment@.payload.len() <= u32::MAX,
        ensures
            final(self).wf(),
            final(self)@ == old(self)@.sent(fragment@, now@),
            old(self)@.accounted().readable(fragment@, now@),
    {
        proof {
            reveal(ConnView::sent);
            reveal(ConnView::sent_now);
        }
        self.account_key_and_maybe_rotate();
        let (packet, plain_len) = self.seal(fragment, now);
        let seq = packet.seq;
        let datagram = encode_data(&packet);
        let was_empty = self.nothing_outstanding();
        let parity = self.keep(packet, plain_len);
        self.emit(datagram, now);
        if let Some(parity) = &parity {
            self.emit_fec_parity(seq, parity, now);
        }
        if was_empty {
            self.arm_exp();
        }
    }

    /// Whether every packet sent is acknowledged.
    fn nothing_outstanding(&self) -> (r: bool)
        ensures
            r == (self@.send_buffer.len() == 0),
    {
        proof {
            reveal(Connection::state_view);
        }
        self.send_buffer.is_empty()
    }

    /// Makes the packet for a fragment, encrypted if the connection is; and tells
    /// the length of the fragment. Its key gives the payload back.
    fn seal(&self, fragment: Fragment, now: Instant) -> (r: (DataPacket, usize))
        requires
            self.wf(),
            fragment@.payload.len() <= u32::MAX,
        ensures
            r.0@ == self@.wire_packet(fragment@, now@),
            self@.readable(fragment@, now@),
            r.1 == fragment@.payload.len(),
            r.0@.seq == self@.next_send_seq,
    {
        proof {
            reveal(Connection::state_view);
            reveal(ConnView::plain_packet);
            reveal(ConnView::wire_packet);
            reveal(ConnView::readable);
            reveal(model::keys_ok);
        }
        let ghost view = fragment@;
        let (payload, position, message) = fragment.into_parts();
        let seq = self.next_send_seq;
        let plain_len: usize = buffer::as_slice(&payload).len();
        let encryption = match &self.crypto {
            Some(crypto) => crypto.active_encryption(),
            None => Encryption::Unencrypted,
        };
        let mut packet = DataPacket {
            seq,
            position,
            in_order: true,
            encryption,
            retransmitted: false,
            message_number: MsgNumber::new(message),
            timestamp: self.wire_ts(now),
            dest_socket_id: self.peer_socket_id,
            payload,
        };
        assert(packet@ =~= self@.plain_packet(view, now@));
        if let Some(crypto) = &self.crypto {
            let aad = packet.header_aad();
            let (sealed, _) = crypto.encrypt(
                seq.value(),
                aad.as_slice(),
                buffer::as_slice(&packet.payload),
            );
            packet.payload = sealed;
        }
        assert(packet@ =~= self@.wire_packet(view, now@));
        (packet, plain_len)
    }

    /// Keeps a packet until it is acknowledged, counts it, and returns the parity
    /// of the group that it completes.
    fn keep(&mut self, packet: DataPacket, plain_len: usize) -> (r: Option<FecParity>)
        requires
            old(self).wf(),
            packet@.seq == old(self)@.next_send_seq,
        ensures
            final(self).wf(),
            final(self)@ == old(self)@.kept(packet@, plain_len as int),
            match r {
                Some(parity) => old(self)@.parity_due(packet@) == Some(parity@),
                None => old(self)@.parity_due(packet@) is None,
            },
    {
        proof {
            reveal(Connection::state_view);
            reveal(ConnView::kept);
            reveal(ConnView::parity_due);
            reveal(model::buffer_ok);
            reveal(model::parity_ok);
        }
        let payload_size: usize = buffer::as_slice(&packet.payload).len();
        let mut parity: Option<FecParity> = None;
        if let Some(fec) = &mut self.fec_send {
            let data = FecData {
                length: arith::len_u16(payload_size),
                flags: packet.encryption.to_bits(),
                timestamp: packet.timestamp.as_micros(),
                payload: buffer::as_slice(&packet.payload),
            };
            assert(data@ =~= model::parity_fields(packet@));
            parity = fec.feed(data);
        }
        self.stats.packets_sent = self.stats.packets_sent.saturating_add(1);
        self.stats.bytes_sent = self.stats.bytes_sent.saturating_add(plain_len as u64);
        self.next_send_seq = packet.seq.next();
        self.send_buffer.push(packet);
        if let Some(cc) = &mut self.live_cc {
            cc.on_packet_sent(payload_size);
        }
        parity
    }

    /// Sends a parity packet: redundancy that is neither kept nor acknowledged.
    fn emit_fec_parity(&mut self, group_last_seq: SeqNumber, parity: &FecParity, now: Instant)
        requires
            old(self).wf(),
        ensures
            final(self).wf(),
            final(self)@ == old(self)@.parity_sent(group_last_seq@, parity@, now@),
    {
        proof {
            reveal(ConnView::parity_sent);
            reveal(Connection::state_view);
        }
        let packet = DataPacket {
            seq: group_last_seq,
            position: PacketPosition::Single,
            in_order: true,
            encryption: Encryption::Unencrypted,
            retransmitted: false,
            message_number: MsgNumber::new(0),
            timestamp: Timestamp::from_micros(parity.timestamp_clip),
            dest_socket_id: self.peer_socket_id,
            payload: buffer::from_vec(parity.encode(fec::ROW_INDEX)),
        };
        self.emit(encode_data(&packet), now);
    }

    /// Releases every queued packet whose turn has come, and sets the timer for
    /// the next. Turns follow one another by exactly one period, whenever this is
    /// called: a late call catches up, up to a limit. An empty queue starts anew.
    pub(crate) fn pace(&mut self, now: Instant)
        requires
            old(self).wf(),
        ensures
            final(self).wf(),
            final(self)@ == old(self)@.paced(now@),
            old(self)@.paced_readable(now@),
    {
        proof {
            reveal(ConnView::paced);
            reveal(ConnView::paced_readable);
        }
        let ghost before = self@;
        let period = match self.pacing_period() {
            Some(period) => period,
            None => {
                return;
            },
        };
        let mut released: usize = 0;
        loop
            invariant_except_break
                before.released_due(0, period@, now@) == self@.released_due(
                    released as nat,
                    period@,
                    now@,
                ),
                self@.due_readable(released as nat, period@, now@) ==> before.due_readable(
                    0,
                    period@,
                    now@,
                ),
            invariant
                self.wf(),
                released <= MAX_PACE_BURST,
            ensures
                before.released_due(0, period@, now@) == (self@, released as nat),
                before.due_readable(0, period@, now@),
            decreases MAX_PACE_BURST - released,
        {
            proof {
                reveal(ConnView::released_due);
                reveal(ConnView::due_readable);
            }
            if !self.release_next(released, period, now) {
                break ;
            }
            released += 1;
        }
        self.reschedule(released, period, now);
    }

    /// The pacer's period, if there is a pacer.
    fn pacing_period(&self) -> (r: Option<Duration>)
        ensures
            match r {
                Some(period) => self@.live_cc is Some && period@ == self@.live_cc->0.snd_period,
                None => self@.live_cc is None,
            },
    {
        proof {
            reveal(Connection::state_view);
        }
        match &self.live_cc {
            Some(cc) => Some(cc.snd_period()),
            None => None,
        }
    }

    /// Releases the next queued packet if its turn has come.
    fn release_next(&mut self, released: usize, period: Duration, now: Instant) -> (r: bool)
        requires
            old(self).wf(),
        ensures
            final(self).wf(),
            r == old(self)@.releases(released as nat, now@),
            r ==> released < MAX_PACE_BURST,
            r ==> final(self)@ == old(self)@.released_one(period@, now@),
            r ==> (ConnView {
                send_queue: old(self)@.send_queue.skip(1),
                ..old(self)@
            }).accounted().readable(old(self)@.send_queue[0], now@),
            !r ==> old(self)@.released_due(released as nat, period@, now@) == (
                final(self)@,
                released as nat,
            ),
    {
        proof {
            reveal(ConnView::releases);
            reveal(ConnView::released_one);
            reveal(ConnView::released_due);
        }
        if released >= MAX_PACE_BURST || self.before_turn(now) {
            return false;
        }
        match self.dequeue() {
            Some(fragment) => {
                self.send_data(fragment, now);
                self.use_slot(period, now);
                true
            },
            None => false,
        }
    }

    /// Whether the turn of the next packet is still to come.
    fn before_turn(&self, now: Instant) -> (r: bool)
        ensures
            r == (self@.next_send is Some && now@ < self@.next_send->0),
    {
        proof {
            reveal(Connection::state_view);
        }
        match self.next_send {
            Some(at) => now.as_nanos() < at.as_nanos(),
            None => false,
        }
    }

    /// Takes the next fragment off the queue. An empty queue forgets the schedule.
    fn dequeue(&mut self) -> (r: Option<Fragment>)
        requires
            old(self).wf(),
        ensures
            final(self).wf(),
            match r {
                Some(fragment) => {
                    &&& old(self)@.send_queue.len() > 0
                    &&& fragment@ == old(self)@.send_queue[0]
                    &&& fragment@.payload.len() <= u32::MAX
                    &&& final(self)@ == (ConnView {
                        send_queue: old(self)@.send_queue.skip(1),
                        ..old(self)@
                    })
                },
                None => {
                    &&& old(self)@.send_queue.len() == 0
                    &&& final(self)@ == (ConnView { next_send: None, ..old(self)@ })
                },
            },
    {
        proof {
            reveal(Connection::state_view);
            reveal(model::queue_ok);
        }
        let ghost queue = self@.send_queue;
        match self.send_queue.pop_front() {
            Some(fragment) => {
                assert(queue[0] == fragment@);
                assert(self@.send_queue =~= queue.skip(1));
                Some(fragment)
            },
            None => {
                self.next_send = None;
                None
            },
        }
    }

    /// Advances the schedule by one period, from the last turn and not from now.
    fn use_slot(&mut self, period: Duration, now: Instant)
        requires
            old(self).wf(),
        ensures
            final(self).wf(),
            final(self)@ == old(self)@.slot_used(period@, now@),
    {
        proof {
            reveal(Connection::state_view);
            reveal(ConnView::slot_used);
        }
        let last_slot = match self.next_send {
            Some(at) => at,
            None => now,
        };
        self.next_send = Some(last_slot.saturating_add(period));
    }

    /// Sets the timer for the next queued packet. Where the limit on one call left
    /// the schedule behind, it starts anew from now.
    fn reschedule(&mut self, released: usize, period: Duration, now: Instant)
        requires
            old(self).wf(),
        ensures
            final(self).wf(),
            final(self)@ == old(self)@.rescheduled(released as nat, period@, now@),
    {
        proof {
            reveal(Connection::state_view);
            reveal(ConnView::rescheduled);
        }
        if released == MAX_PACE_BURST {
            if let Some(at) = self.next_send {
                if at.as_nanos() < now.as_nanos() {
                    self.next_send = Some(now.saturating_add(period));
                }
            }
        }
        if self.send_queue.len() == 0 {
            self.clear_timer(TimerId::SndPacing);
            self.finish_close_if_drained(now);
        } else {
            let at = match self.next_send {
                Some(at) => at,
                None => now,
            };
            self.set_timer(TimerId::SndPacing, at.saturating_duration_since(now));
        }
    }

    /// Takes an acknowledgement: lets go of what it covers, restarts the
    /// retransmission timeout, and answers it unless it is a light one.
    pub(crate) fn on_ack(&mut self, ack: Ack, now: Instant)
        requires
            old(self).wf(),
        ensures
            final(self).wf(),
            final(self)@ == old(self)@.ack_heard(
                ack.ack_number,
                ack.last_ack_seq@,
                ack.cif,
                now@,
            ),
    {
        proof {
            reveal(ConnView::ack_heard);
        }
        self.release_acked(&ack);
        self.drop_too_late(now);
        self.restart_exp();
        self.finish_close_if_drained(now);
        let light = match ack.cif {
            AckCif::Light => true,
            _ => false,
        };
        if !light {
            let bytes = self.control(ControlBody::AckAck { ack_number: ack.ack_number }, now);
            self.emit(bytes, now);
        }
    }

    /// Lets go of the packets that an acknowledgement covers, and notes the room
    /// that it reports.
    fn release_acked(&mut self, ack: &Ack)
        requires
            old(self).wf(),
        ensures
            final(self).wf(),
            final(self)@ == old(self)@.released(ack.last_ack_seq@, ack.cif),
    {
        proof {
            reveal(Connection::state_view);
            reveal(ConnView::released);
            reveal(model::buffer_ok);
        }
        let ghost before = self@;
        self.stats.acks_received = self.stats.acks_received.saturating_add(1);
        let released: usize = self.send_buffer.ack(ack.last_ack_seq);
        if let AckCif::Full { avail_buffer_size, .. } = ack.cif {
            self.peer_avail_window = avail_buffer_size;
        }
        assert(before.send_buffer.len() > released ==> before.send_buffer.skip(
            released as int,
        ).last() == before.send_buffer.last());
    }

    /// Puts the retransmission timeout back to its start, and brings the pacer up
    /// to date.
    fn restart_exp(&mut self)
        requires
            old(self).wf(),
        ensures
            final(self).wf(),
            final(self)@ == old(self)@.exp_restarted(),
    {
        proof {
            reveal(Connection::state_view);
            reveal(ConnView::exp_restarted);
        }
        if let Some(cc) = &mut self.live_cc {
            cc.on_ack();
        }
        self.exp_count = 1;
        if self.send_buffer.is_empty() {
            self.clear_timer(TimerId::Exp);
        } else {
            self.arm_exp();
        }
    }

    /// Takes a loss report: sends again what it names and is still held, after
    /// giving up what is too old.
    pub(crate) fn on_nak(&mut self, loss: &[LossRange], now: Instant)
        requires
            old(self).wf(),
        ensures
            final(self).wf(),
            final(self)@ == old(self)@.nak_heard(loss_list::views(loss@), now@),
    {
        proof {
            reveal(ConnView::nak_heard);
            reveal(Connection::state_view);
        }
        self.stats.naks_received = self.stats.naks_received.saturating_add(1);
        self.drop_too_late(now);
        let ghost start = self@;
        let ghost ranges = loss_list::views(loss@);
        proof {
            reveal(ConnView::retransmitted_all);
        }
        let mut i: usize = 0;
        while i < loss.len()
            invariant
                self.wf(),
                i <= loss@.len(),
                ranges == loss_list::views(loss@),
                self@ == start.retransmitted_all(ranges.take(i as int), now@),
            decreases loss@.len() - i,
        {
            let ghost more = ranges.take(i + 1);
            assert(more.drop_last() =~= ranges.take(i as int));
            assert(more.last() == loss@[i as int]@);
            self.retransmit_range(loss[i].start(), loss[i].end(), now);
            proof {
                reveal(ConnView::retransmitted_all);
            }
            i += 1;
        }
        assert(ranges.take(i as int) =~= ranges);
    }

    /// Gives up the packets that are too old to be of use to the peer, and tells
    /// the peer so.
    pub(crate) fn drop_too_late(&mut self, now: Instant)
        requires
            old(self).wf(),
        ensures
            final(self).wf(),
            final(self)@ == old(self)@.late_dropped(now@),
    {
        proof {
            reveal(ConnView::late_dropped);
            reveal(ConnView::shed);
        }
        let budget: i64 = self.drop_budget();
        let now_ts = self.wire_ts(now);
        if let Some((first, last, message)) = self.shed_late(now_ts, budget) {
            let bytes = self.control(
                ControlBody::DropReq { message_number: message, first, last },
                now,
            );
            let all = self.nothing_outstanding();
            self.emit(bytes, now);
            if all {
                self.clear_timer(TimerId::Exp);
            }
        }
    }

    /// The age, in microseconds, at which a packet is given up.
    fn drop_budget(&self) -> (r: i64)
        ensures
            r == self@.drop_budget(),
    {
        proof {
            reveal(Connection::state_view);
            reveal(ConnView::drop_budget);
        }
        let latency_us: i64 = micros_i64(self.latency);
        let floor_us: i64 = if latency_us > SND_DROP_MIN_US {
            latency_us
        } else {
            SND_DROP_MIN_US
        };
        arith::saturating_add(floor_us, SND_DROP_MARGIN_US)
    }

    /// Lets go of the packets older than `budget`, and returns the first and the
    /// last of them and the message number of the last.
    fn shed_late(&mut self, now_ts: Timestamp, budget: i64) -> (r: Option<
        (SeqNumber, SeqNumber, u32),
    >)
        requires
            old(self).wf(),
        ensures
            final(self).wf(),
            ({
                let n = model::late_count(
                    old(self)@.send_buffer,
                    now_ts@,
                    budget as int,
                ) as int;
                &&& n <= old(self)@.send_buffer.len()
                &&& match r {
                    None => n == 0 && final(self)@ == old(self)@,
                    Some((first, last, message)) => {
                        &&& n > 0
                        &&& final(self)@ == old(self)@.shed(n)
                        &&& final(self)@.send_buffer.len() == old(self)@.send_buffer.len() - n
                        &&& first@ == old(self)@.send_buffer[0].packet.seq
                        &&& last@ == old(self)@.send_buffer[n - 1].packet.seq
                        &&& message == old(self)@.send_buffer[n - 1].packet.message_number
                    },
                }
            }),
    {
        let ghost before = self@;
        let mut range: Option<(SeqNumber, SeqNumber, u32)> = None;
        let ghost mut n: int = 0;
        proof {
            reveal(ConnView::shed);
            assert(before.send_buffer.skip(0) =~= before.send_buffer);
            assert(before.shed(0) =~= before);
        }
        loop
            invariant_except_break
                model::late_count(before.send_buffer, now_ts@, budget as int) == n
                    + model::late_count(self@.send_buffer, now_ts@, budget as int),
            invariant
                self.wf(),
                0 <= n <= before.send_buffer.len(),
                self@ == before.shed(n),
                self@.send_buffer == before.send_buffer.skip(n),
                match range {
                    None => n == 0,
                    Some((first, last, message)) => {
                        &&& n > 0
                        &&& first@ == before.send_buffer[0].packet.seq
                        &&& last@ == before.send_buffer[n - 1].packet.seq
                        &&& message == before.send_buffer[n - 1].packet.message_number
                    },
                },
            ensures
                n == model::late_count(before.send_buffer, now_ts@, budget as int),
            decreases self@.send_buffer.len(),
        {
            match self.shed_one(now_ts, budget) {
                Some((seq, message)) => {
                    range = match range {
                        Some((first, _, _)) => Some((first, seq, message)),
                        None => Some((seq, seq, message)),
                    };
                    proof {
                        reveal(ConnView::shed);
                        n = n + 1;
                        assert(before.send_buffer.skip(n - 1).skip(1)
                            =~= before.send_buffer.skip(n));
                        assert(self@ =~= before.shed(n));
                    }
                },
                None => {
                    break ;
                },
            }
        }
        range
    }

    /// Lets go of the oldest packet if it is older than `budget`.
    fn shed_one(&mut self, now_ts: Timestamp, budget: i64) -> (r: Option<(SeqNumber, u32)>)
        requires
            old(self).wf(),
        ensures
            final(self).wf(),
            match r {
                None => final(self)@ == old(self)@ && model::late_count(
                    old(self)@.send_buffer,
                    now_ts@,
                    budget as int,
                ) == 0,
                Some((seq, message)) => {
                    let s = old(self)@.send_buffer;
                    &&& s.len() > 0
                    &&& seq@ == s[0].packet.seq
                    &&& message == s[0].packet.message_number
                    &&& final(self)@ == old(self)@.shed(1)
                    &&& final(self)@.send_buffer == s.skip(1)
                    &&& model::late_count(s, now_ts@, budget as int) == 1 + model::late_count(
                        s.skip(1),
                        now_ts@,
                        budget as int,
                    )
                },
            },
    {
        proof {
            reveal(Connection::state_view);
            reveal(ConnView::shed);
            reveal(model::buffer_ok);
        }
        let (seq, message) = match self.send_buffer.front() {
            Some(front) => {
                let age: i64 = now_ts.wrapping_diff(front.timestamp) as i64;
                if age <= budget {
                    return None;
                }
                (front.seq, front.message_number.value())
            },
            None => {
                return None;
            },
        };
        let ghost s = self@.send_buffer;
        let gone = self.send_buffer.drop_front();
        self.stats.packets_dropped_sent = self.stats.packets_dropped_sent.saturating_add(1);
        assert(s.len() > 1 ==> s.skip(1).last() == s.last());
        Some((seq, message))
    }

    /// The retransmission timeout: nothing was acknowledged, so everything held
    /// is sent again, and the next timeout is longer.
    pub(crate) fn on_exp_timer(&mut self, now: Instant)
        requires
            old(self).wf(),
        ensures
            final(self).wf(),
            final(self)@ == old(self)@.exp_fired(now@),
    {
        proof {
            reveal(ConnView::exp_fired);
            reveal(Connection::state_view);
        }
        if self.state != State::Connected || self.send_buffer.is_empty() {
            return;
        }
        self.drop_too_late(now);
        match (self.send_buffer.first_seq(), self.send_buffer.last_seq()) {
            (Some(first), Some(last)) => {
                self.retransmit_range(first, last, now);
                if self.exp_count < MAX_EXP_COUNT {
                    self.exp_count = self.exp_count + 1;
                }
                self.arm_exp();
            },
            _ => {},
        }
    }

    /// Sends the held packets between `start` and `end` again. It walks what is
    /// held, not the range, which a peer may have made as long as it likes. A
    /// packet that was sent again less than a round trip ago is left out.
    fn retransmit_range(&mut self, start: SeqNumber, end: SeqNumber, now: Instant)
        requires
            old(self).wf(),
        ensures
            final(self).wf(),
            final(self)@ == old(self)@.retransmitted(start@, end@, now@),
    {
        proof {
            reveal(model::buffer_ok);
            reveal(ConnView::retransmitted);
            reveal(Connection::state_view);
        }
        let ghost before = self@;
        let (first, last) = match (self.send_buffer.first_seq(), self.send_buffer.last_seq()) {
            (Some(first), Some(last)) => (first, last),
            _ => {
                return;
            },
        };
        let mut seq = first;
        let ghost mut k: nat = 0;
        let ghost steps = ((last@ - first@) % 0x8000_0000) as nat;
        proof {
            assert(before.send_buffer[0].packet.in_range());
            assert(before.send_buffer.last().packet.in_range());
            crate::seq::lemma_steps(first@, 0, 0);
            reveal(ConnView::resent_from);
        }
        loop
            invariant_except_break
                self@ == before.resent_from(first@, k, start@, end@, now@),
                seq@ == crate::seq::seq_add(first@, k as int),
                k <= steps,
            invariant
                self.wf(),
                first@ < 0x8000_0000,
                last@ < 0x8000_0000,
                steps == (last@ - first@) % 0x8000_0000,
            ensures
                self@ == before.resent_from(first@, steps + 1, start@, end@, now@),
            decreases steps - k,
        {
            self.resend_if_due(seq, start, end, now);
            proof {
                reveal(ConnView::resent_from);
                k = k + 1;
                crate::seq::lemma_steps(first@, k - 1, 1);
            }
            if seq.value() == last.value() {
                break ;
            }
            seq = seq.next();
        }
    }

    /// Sends packet `seq` again if it is held, in the range and due. The first
    /// time is always due.
    fn resend_if_due(&mut self, seq: SeqNumber, start: SeqNumber, end: SeqNumber, now: Instant)
        requires
            old(self).wf(),
        ensures
            final(self).wf(),
            final(self)@ == old(self)@.resent_if_due(seq@, start@, end@, now@),
    {
        proof {
            reveal(ConnView::resend_due);
            reveal(ConnView::resent_at);
            reveal(model::buffer_ok);
            reveal(ConnView::resent_if_due);
            reveal(Connection::state_view);
        }
        let ghost before = self@;
        if !in_range(seq, start, end) {
            return;
        }
        let gate = self.rtt.rtt();
        if let Some(at) = self.send_buffer.last_retransmitted(seq) {
            if now.saturating_duration_since(at).shorter_than(gate) {
                return;
            }
        }
        let (datagram, len) = match self.send_buffer.get(seq) {
            Some(packet) => (
                encode_retransmit(packet),
                buffer::as_slice(&packet.payload).len(),
            ),
            None => {
                return;
            },
        };
        self.stats.packets_retransmitted = self.stats.packets_retransmitted.saturating_add(1);
        self.stats.bytes_retransmitted = self.stats.bytes_retransmitted.saturating_add(
            len as u64,
        );
        self.send_buffer.mark_retransmitted(seq, now);
        proof {
            let i = send_buffer::position(before.send_buffer, seq@)->0;
            let after = before.send_buffer.update(
                i,
                SentView { last_retransmit: Some(now@), ..before.send_buffer[i] },
            );
            assert(after.last().packet == before.send_buffer.last().packet);
        }
        self.emit(datagram, now);
    }

    // ---- receiver ----

    /// Takes a data packet. A parity packet goes to the parity decoder; every
    /// other one is shown to it as it came, and then buffered. What the decoder
    /// brings back is buffered behind it.
    pub(crate) fn on_data(&mut self, data: DataPacket, now: Instant)
        requires
            old(self).wf(),
        ensures
            final(self).wf(),
            final(self)@ == old(self)@.data_heard(data@, now@),
    {
        proof {
            reveal(model::parity_ok);
            reveal(ConnView::injected_all);
            reveal(ConnView::data_heard);
            reveal(Connection::state_view);
        }
        let ghost before = self@;
        let is_parity = data.message_number.value() == 0;
        let mut recovered: Vec<RecoveredPacket> = Vec::new();
        let mut decoded = false;
        if let Some(fec) = &mut self.fec_recv {
            if is_parity {
                recovered = fec.observe_parity(
                    data.seq,
                    buffer::as_slice(&data.payload),
                    data.timestamp.as_micros(),
                );
                decoded = true;
            } else {
                let len: usize = buffer::as_slice(&data.payload).len();
                recovered = fec.observe_data(
                    data.seq,
                    arith::len_u16(len),
                    data.encryption.to_bits(),
                    data.timestamp.as_micros(),
                    data.payload.clone(),
                );
            }
        }
        let ghost rs = fec::recovered_views(recovered@);
        assert(before.fec_recv is None ==> rs =~= Seq::empty());
        if !decoded {
            self.insert_data(data, now);
        }
        let ghost start = self@;
        let mut i: usize = 0;
        while i < recovered.len()
            invariant
                self.wf(),
                i <= recovered@.len(),
                rs == fec::recovered_views(recovered@),
                self@ == start.injected_all(rs.take(i as int), now@),
            decreases recovered@.len() - i,
        {
            let ghost more = rs.take(i + 1);
            assert(more.drop_last() =~= rs.take(i as int));
            assert(more.last() == recovered@[i as int]@);
            self.inject_recovered(&recovered[i], now);
            proof {
                reveal(ConnView::injected_all);
            }
            i += 1;
        }
        assert(rs.take(i as int) =~= rs);
    }

    /// Takes a packet that parity has brought back, as if it had arrived. Its
    /// position in a message is not covered by parity, so it counts as a message
    /// of its own. Key flags that cannot be are a sign of a group across a key
    /// rotation: such a packet is dropped.
    fn inject_recovered(&mut self, rp: &RecoveredPacket, now: Instant)
        requires
            old(self).wf(),
        ensures
            final(self).wf(),
            final(self)@ == old(self)@.injected(rp@, now@),
    {
        proof {
            reveal(ConnView::injected);
            reveal(Connection::state_view);
        }
        let encryption = match Encryption::from_bits(rp.flags) {
            Ok(encryption) => encryption,
            Err(_) => {
                return;
            },
        };
        self.stats.packets_recovered = self.stats.packets_recovered.saturating_add(1);
        let packet = DataPacket {
            seq: rp.seq,
            position: PacketPosition::Single,
            in_order: true,
            encryption,
            retransmitted: true,
            message_number: MsgNumber::new(1),
            timestamp: Timestamp::from_micros(rp.timestamp),
            dest_socket_id: self.peer_socket_id,
            payload: rp.payload.clone(),
        };
        self.insert_data(packet, now);
    }

    /// Buffers a packet that was received or rebuilt, delivers what is due, sends
    /// a light acknowledgement now and then, and reports new losses. A packet
    /// against a full window is dropped before it costs a decryption; one that
    /// does not decrypt, and one that is there already, are dropped too.
    pub(crate) fn insert_data(&mut self, data: DataPacket, now: Instant)
        requires
            old(self).wf(),
        ensures
            final(self).wf(),
            final(self)@ == old(self)@.inserted(data@, now@),
    {
        proof {
            reveal(ConnView::inserted);
            reveal(ConnView::stored);
        }
        if self.available_recv_buffer() == 0 {
            self.count_full();
            return;
        }
        let packet = match self.open(data) {
            Some(packet) => packet,
            None => {
                self.count_undecryptable();
                return;
            },
        };
        let timestamp = packet.timestamp;
        let retransmitted = packet.retransmitted;
        let seq = packet.seq;
        let len: usize = buffer::as_slice(&packet.payload).len();
        if !self.buffer_packet(packet) {
            return;
        }
        self.track_reorder(seq, retransmitted);
        self.track_rate(len, now);
        self.anchor_tsbpd(timestamp, now);
        self.track_drift(timestamp, retransmitted, now);
        self.deliver_tsbpd(now);
        self.count_arrival(now);
        self.check_loss(now);
    }

    /// Counts a packet that found no room.
    fn count_full(&mut self)
        requires
            old(self).wf(),
        ensures
            final(self).wf(),
            final(self)@ == old(self)@.full_counted(),
    {
        proof {
            reveal(Connection::state_view);
            reveal(ConnView::full_counted);
        }
        self.stats.packets_dropped_full = self.stats.packets_dropped_full.saturating_add(1);
    }

    /// Counts a packet that did not decrypt.
    fn count_undecryptable(&mut self)
        requires
            old(self).wf(),
        ensures
            final(self).wf(),
            final(self)@ == old(self)@.undecryptable_counted(),
    {
        proof {
            reveal(Connection::state_view);
            reveal(ConnView::undecryptable_counted);
        }
        self.stats.packets_undecryptable = self.stats.packets_undecryptable.saturating_add(1);
    }

    /// The packet with its payload in the clear. The key is the one that the
    /// packet's flag selects; without that key, or if the payload does not
    /// authenticate, there is none.
    fn open(&self, data: DataPacket) -> (r: Option<DataPacket>)
        ensures
            match r {
                Some(packet) => self@.clear_payload(data@) == Some(packet@.payload) && packet@ == (
                DataView { payload: packet@.payload, ..data@ }),
                None => self@.clear_payload(data@) is None,
            },
    {
        proof {
            reveal(Connection::state_view);
            reveal(ConnView::clear_payload);
        }
        if data.encryption == Encryption::Unencrypted {
            return Some(data);
        }
        let mut data = data;
        match &self.crypto {
            Some(crypto) => {
                let aad = data.header_aad();
                match crypto.decrypt(
                    data.seq.value(),
                    data.encryption,
                    aad.as_slice(),
                    buffer::as_slice(&data.payload),
                ) {
                    Some(payload) => {
                        data.payload = payload;
                        Some(data)
                    },
                    None => None,
                }
            },
            None => None,
        }
    }

    /// Puts a packet into the buffer, unless it is there already, and counts it.
    fn buffer_packet(&mut self, packet: DataPacket) -> (r: bool)
        requires
            old(self).wf(),
        ensures
            final(self).wf(),
            r == (old(self)@.recv_buffer.inserted(packet@) is Some),
            r ==> final(self)@ == old(self)@.buffered(
                old(self)@.recv_buffer.inserted(packet@)->0,
                packet@.payload.len() as int,
            ),
            !r ==> final(self)@ == old(self)@.duplicate_counted(),
    {
        proof {
            reveal(Connection::state_view);
            reveal(ConnView::buffered);
            reveal(ConnView::duplicate_counted);
        }
        let len: usize = buffer::as_slice(&packet.payload).len();
        if !self.recv_buffer.insert(packet) {
            self.stats.packets_duplicate = self.stats.packets_duplicate.saturating_add(1);
            return false;
        }
        self.stats.packets_received = self.stats.packets_received.saturating_add(1);
        self.stats.bytes_received = self.stats.bytes_received.saturating_add(len as u64);
        true
    }

    /// Adapts the reorder tolerance to the link. A first-hand packet behind the
    /// highest one shows that the link reorders, and how far; a run in order takes
    /// the tolerance back. Retransmissions come late by nature and do not count.
    fn track_reorder(&mut self, seq: SeqNumber, retransmitted: bool)
        requires
            old(self).wf(),
        ensures
            final(self).wf(),
            final(self)@ == old(self)@.reorder_tracked(seq@, retransmitted),
    {
        proof {
            reveal(ConnView::reorder_tracked);
            reveal(Connection::state_view);
        }
        if retransmitted {
            return;
        }
        let highest = match self.highest_recv_seq {
            Some(highest) => highest,
            None => {
                self.highest_recv_seq = Some(seq);
                return;
            },
        };
        let offset: i32 = seq.offset_from(highest);
        if offset >= 0 {
            self.highest_recv_seq = Some(seq);
            let streak: u32 = self.orderly_streak + 1;
            if streak >= REORDER_DECAY_AFTER {
                self.orderly_streak = 0;
                self.reorder_tolerance = self.reorder_tolerance.saturating_sub(1);
            } else {
                self.orderly_streak = streak;
            }
        } else {
            let behind: u32 = (-offset) as u32;
            let displaced: u32 = if behind < MAX_REORDER_TOLERANCE {
                behind
            } else {
                MAX_REORDER_TOLERANCE
            };
            if displaced > self.reorder_tolerance {
                self.reorder_tolerance = displaced;
            }
            self.orderly_streak = 0;
        }
    }

    /// Feeds the rate estimator with the time since the last arrival.
    fn track_rate(&mut self, len: usize, now: Instant)
        requires
            old(self).wf(),
        ensures
            final(self).wf(),
            final(self)@ == old(self)@.rate_tracked(len as int, now@),
    {
        proof {
            reveal(ConnView::rate_tracked);
            reveal(Connection::state_view);
        }
        if let Some(at) = self.last_recv {
            let interval_us: u32 = micros_u32(now.saturating_duration_since(at));
            self.rate.record(interval_us, arith::len_u32(len));
        }
        self.last_recv = Some(now);
    }

    /// Anchors the time base on the first arrival, and follows the timestamps
    /// from then on.
    fn anchor_tsbpd(&mut self, timestamp: Timestamp, now: Instant)
        requires
            old(self).wf(),
        ensures
            final(self).wf(),
            final(self)@ == old(self)@.anchored(timestamp@, now@),
    {
        proof {
            reveal(ConnView::anchored);
            reveal(Connection::state_view);
        }
        if self.tsbpd_base.is_none() {
            self.tsbpd_base = Some((timestamp, now));
            self.ts_wrap = Some(TsbpdWrap::new(timestamp));
        } else if let Some(wrap) = &mut self.ts_wrap {
            wrap.observe(timestamp);
        }
    }

    /// Samples the drift from a first-hand arrival.
    fn track_drift(&mut self, timestamp: Timestamp, retransmitted: bool, now: Instant)
        requires
            old(self).wf(),
        ensures
            final(self).wf(),
            final(self)@ == old(self)@.drift_tracked(timestamp@, retransmitted, now@),
    {
        proof {
            reveal(ConnView::drift_tracked);
            reveal(Connection::state_view);
        }
        if retransmitted {
            return;
        }
        if let Some(expected) = self.tsbpd_expected_arrival(timestamp) {
            let observed: i64 = signed_micros(expected, now);
            let rtt_us: i64 = micros_i64(self.rtt.rtt());
            self.drift.sample(observed, rtt_us);
        }
    }

    /// Counts a packet towards the next light acknowledgement.
    fn count_arrival(&mut self, now: Instant)
        requires
            old(self).wf(),
        ensures
            final(self).wf(),
            final(self)@ == old(self)@.arrival_counted(now@),
    {
        proof {
            reveal(ConnView::light_acked);
            reveal(ConnView::arrival_counted);
            reveal(Connection::state_view);
        }
        if self.packets_since_ack + 1 >= LIGHT_ACK_EVERY {
            self.send_light_ack(now);
        } else {
            self.packets_since_ack = self.packets_since_ack + 1;
        }
    }

    /// Reports the losses that are new and old enough.
    fn check_loss(&mut self, now: Instant)
        requires
            old(self).wf(),
        ensures
            final(self).wf(),
            final(self)@ == old(self)@.loss_checked(now@),
    {
        proof {
            reveal(ConnView::nak_sent);
            reveal(ConnView::loss_checked);
            reveal(Connection::state_view);
        }
        if self.recv_buffer.has_gaps() {
            let missing = self.recv_buffer.missing_aged(self.reorder_tolerance);
            if missing.len() > 0 && !same_ranges(&missing, &self.reported_loss) {
                self.send_nak(&missing, now);
                self.reported_loss = missing;
            }
        } else {
            self.reported_loss = Vec::new();
            assert(self@.reported_loss =~= Seq::empty());
        }
    }

    /// Delivers every packet that is due, skipping the gaps before it, and sets
    /// the timer for the next.
    pub(crate) fn deliver_tsbpd(&mut self, now: Instant)
        requires
            old(self).wf(),
        ensures
            final(self).wf(),
            final(self)@ == old(self)@.delivered(now@),
    {
        let ghost before = self@;
        loop
            invariant
                self.wf(),
                before == old(self)@,
                before.delivered(now@) == self@.delivered(now@),
            decreases self@.recv_buffer.slots.len(),
        {
            proof {
                reveal(ConnView::delivered);
            }
            let timestamp = match self.next_timestamp() {
                Some(timestamp) => timestamp,
                None => {
                    self.clear_timer(TimerId::Tsbpd);
                    return;
                },
            };
            let play_time = match self.tsbpd_play_time(timestamp) {
                Some(at) => at,
                None => {
                    return;
                },
            };
            if now.as_nanos() < play_time.as_nanos() {
                self.set_timer(TimerId::Tsbpd, play_time.saturating_duration_since(now));
                return;
            }
            self.play_next();
        }
    }

    /// The timestamp of the next packet to be delivered.
    fn next_timestamp(&self) -> (r: Option<Timestamp>)
        ensures
            match r {
                Some(ts) => self@.recv_buffer.next() is Some && ts@
                    == self@.recv_buffer.next()->0.timestamp,
                None => self@.recv_buffer.next() is None,
            },
    {
        proof {
            reveal(Connection::state_view);
        }
        match self.recv_buffer.peek() {
            Some((_, timestamp)) => Some(timestamp),
            None => None,
        }
    }

    /// Delivers the next packet, past any gap before it.
    fn play_next(&mut self)
        requires
            old(self).wf(),
            old(self)@.recv_buffer.next() is Some,
        ensures
            final(self).wf(),
            final(self)@ == old(self)@.played(),
            final(self)@.recv_buffer.slots.len() < old(self)@.recv_buffer.slots.len(),
    {
        proof {
            reveal(ConnView::handed);
            reveal(ConnView::played);
            reveal(Connection::state_view);
            recv_buffer::lemma_first_present(self@.recv_buffer.slots);
        }
        let before = self.recv_buffer.ack_point();
        if let Some(packet) = self.recv_buffer.pop() {
            let advanced: i32 = self.recv_buffer.ack_point().offset_from(before);
            let skipped: u64 = if advanced > 1 {
                (advanced - 1) as u64
            } else {
                0
            };
            self.stats.packets_dropped = self.stats.packets_dropped.saturating_add(skipped);
            self.hand_over(packet);
        }
    }

    /// Hands a packet to the reassembler, and the message that it completes to
    /// the application.
    pub(crate) fn hand_over(&mut self, packet: DataPacket)
        requires
            old(self).wf(),
        ensures
            final(self).wf(),
            final(self)@ == old(self)@.handed(packet@),
    {
        proof {
            reveal(ConnView::handed);
            reveal(Connection::state_view);
        }
        if let Some(message) = self.reassembler.push(packet) {
            self.push_event(Event::DataReceived(message));
        }
    }

    /// When a packet is expected to arrive: by its timestamp on the time base,
    /// with the drift corrected.
    fn tsbpd_expected_arrival(&self, timestamp: Timestamp) -> (r: Option<Instant>)
        ensures
            crate::connection::instant_view(r) == self@.expected_arrival(timestamp@),
    {
        proof {
            reveal(ConnView::expected_arrival);
            reveal(Connection::state_view);
        }
        match (&self.tsbpd_base, &self.ts_wrap) {
            (Some((ref_ts, ref_at)), Some(wrap)) => {
                let placed: i64 = arith::saturating_sub(
                    wrap.offset_of(timestamp),
                    ref_ts.as_micros() as i64,
                );
                let offset: i64 = arith::saturating_add(placed, self.drift.correction_us());
                Some(apply_signed(*ref_at, offset))
            },
            _ => None,
        }
    }

    /// When a packet is due: the latency after its expected arrival.
    fn tsbpd_play_time(&self, timestamp: Timestamp) -> (r: Option<Instant>)
        ensures
            crate::connection::instant_view(r) == self@.play_time(timestamp@),
    {
        proof {
            reveal(ConnView::play_time);
            reveal(Connection::state_view);
        }
        match self.tsbpd_expected_arrival(timestamp) {
            Some(at) => Some(at.saturating_add(self.latency)),
            None => None,
        }
    }

    /// The peer has given packets up: they are no longer waited for, nor reported
    /// as lost, and what is due is delivered.
    pub(crate) fn on_dropreq(&mut self, first: SeqNumber, last: SeqNumber, now: Instant)
        requires
            old(self).wf(),
        ensures
            final(self).wf(),
            final(self)@ == old(self)@.drop_heard(first@, last@, now@),
    {
        proof {
            reveal(ConnView::drop_heard);
            reveal(Connection::state_view);
        }
        let before = self.recv_buffer.ack_point();
        self.recv_buffer.drop_range(first, last);
        let advanced: i32 = self.recv_buffer.ack_point().offset_from(before);
        let skipped: u64 = if advanced > 0 {
            advanced as u64
        } else {
            0
        };
        self.stats.packets_dropped = self.stats.packets_dropped.saturating_add(skipped);
        self.reported_loss = self.recv_buffer.missing();
        self.deliver_tsbpd(now);
    }

    /// Takes the answer to a full acknowledgement: the time it took is a sample of
    /// the round trip.
    pub(crate) fn on_ackack(&mut self, ack_number: u32, now: Instant)
        requires
            old(self).wf(),
        ensures
            final(self).wf(),
            final(self)@ == old(self)@.ackack_heard(ack_number, now@),
    {
        proof {
            reveal(Connection::state_view);
            reveal(ConnView::ackack_heard);
        }
        let ghost acks = self@.pending_acks;
        let i: usize = ack_position(&self.pending_acks, ack_number);
        if i < self.pending_acks.len() {
            let sent_at = self.pending_acks[i].1;
            self.rtt.sample(now.saturating_duration_since(sent_at));
            drop_acks(&mut self.pending_acks, i + 1);
            assert(self@.pending_acks =~= acks.skip(i + 1));
        }
    }

    /// The acknowledgement timer: a full acknowledgement of what has been received
    /// without a gap, if that or the room for more has changed. It runs ahead of
    /// delivery, so that the sender can let go early.
    pub(crate) fn on_ack_timer(&mut self, now: Instant)
        requires
            old(self).wf(),
        ensures
            final(self).wf(),
            final(self)@ == old(self)@.ack_fired(now@),
    {
        proof {
            reveal(ConnView::ack_fired);
            reveal(Connection::state_view);
        }
        if self.state != State::Connected {
            return;
        }
        self.set_timer(TimerId::Ack, Duration::from_nanos(ACK_INTERVAL));
        let ack_point = self.recv_buffer.received_ack_point();
        let avail: u32 = self.available_recv_buffer();
        let same_point = match self.last_acked_point {
            Some(last) => last.value() == ack_point.value(),
            None => false,
        };
        let same_avail = match self.last_acked_avail {
            Some(last) => last == avail,
            None => false,
        };
        if same_point && same_avail {
            return;
        }
        let ack = self.make_full_ack(ack_point, avail);
        let bytes = self.control(ControlBody::Ack(ack), now);
        self.note_ack(ack_point, avail, now);
        self.emit(bytes, now);
    }

    /// The full acknowledgement that is due.
    fn make_full_ack(&self, ack_point: SeqNumber, avail: u32) -> (r: Ack)
        requires
            ack_point@ == self@.recv_buffer.received_point(),
            avail == self@.available(),
        ensures
            ControlBody::Ack(r)@ == self@.full_ack(),
    {
        proof {
            reveal(Connection::state_view);
            reveal(ConnView::full_ack);
        }
        let (packets_recv_rate, receiving_rate) = self.rate.delivery_rate();
        Ack {
            ack_number: self.next_ack_number,
            last_ack_seq: ack_point,
            cif: AckCif::Full {
                rtt: micros_u32(self.rtt.rtt()),
                rtt_variance: micros_u32(self.rtt.var()),
                avail_buffer_size: avail,
                packets_recv_rate,
                estimated_link_capacity: self.rate.peak_rate(),
                receiving_rate,
            },
        }
    }

    /// Notes a full acknowledgement.
    fn note_ack(&mut self, ack_point: SeqNumber, avail: u32, now: Instant)
        requires
            old(self).wf(),
        ensures
            final(self).wf(),
            final(self)@ == old(self)@.ack_noted(ack_point@, avail, now@),
    {
        proof {
            reveal(Connection::state_view);
            reveal(ConnView::ack_noted);
            reveal(ConnView::awaiting);
        }
        let ack_number: u32 = self.next_ack_number;
        self.await_answer(ack_number, now);
        self.next_ack_number = ack_number.wrapping_add(1);
        self.last_acked_point = Some(ack_point);
        self.last_acked_avail = Some(avail);
        self.packets_since_ack = 0;
        self.stats.acks_sent = self.stats.acks_sent.saturating_add(1);
    }

    /// Notes an acknowledgement whose answer is awaited, up to a limit.
    fn await_answer(&mut self, ack_number: u32, now: Instant)
        requires
            old(self).wf(),
        ensures
            final(self).wf(),
            final(self)@ == (ConnView {
                pending_acks: ({
                    let all = old(self)@.pending_acks.push((ack_number, now@));
                    if all.len() > MAX_PENDING_ACKS {
                        all.skip(1)
                    } else {
                        all
                    }
                }),
                ..old(self)@
            }),
    {
        proof {
            reveal(Connection::state_view);
        }
        let ghost all = self@.pending_acks.push((ack_number, now@));
        self.pending_acks.push_back((ack_number, now));
        assert(crate::connection::ack_views(self.pending_acks@) =~= all);
        if self.pending_acks.len() > MAX_PENDING_ACKS {
            let oldest = self.pending_acks.pop_front();
            assert(crate::connection::ack_views(self.pending_acks@) =~= all.skip(1));
        }
    }

    /// The loss report timer: reports again what is missing, unless a report went
    /// out so recently that the retransmission may still be under way.
    pub(crate) fn on_nak_timer(&mut self, now: Instant)
        requires
            old(self).wf(),
        ensures
            final(self).wf(),
            final(self)@ == old(self)@.nak_fired(now@),
    {
        proof {
            reveal(ConnView::nak_fired);
            reveal(Connection::state_view);
        }
        if self.state != State::Connected {
            return;
        }
        let interval = self.nak_interval();
        self.set_timer(TimerId::Nak, interval);
        if let Some(at) = self.last_nak {
            if now.saturating_duration_since(at).shorter_than(self.rtt.rto()) {
                return;
            }
        }
        let missing = self.recv_buffer.missing_aged(self.reorder_tolerance);
        if missing.len() > 0 {
            self.send_nak(&missing, now);
        }
    }

    /// The room for received packets. Packets that wait for delivery and events
    /// that the application has not fetched both count: an application that stalls
    /// closes the peer's window.
    fn available_recv_buffer(&self) -> (r: u32)
        requires
            self.wf(),
        ensures
            r == self@.available(),
    {
        proof {
            reveal(ConnView::available);
            reveal(ConnView::available);
            reveal(Connection::state_view);
        }
        let held: usize = self.recv_buffer.occupancy().saturating_add(self.events.len());
        self.config.flow_window.saturating_sub(arith::len_u32(held))
    }

    /// Sends a light acknowledgement: the sequence number alone.
    fn send_light_ack(&mut self, now: Instant)
        requires
            old(self).wf(),
        ensures
            final(self).wf(),
            final(self)@ == old(self)@.light_acked(now@),
    {
        proof {
            reveal(ConnView::light_acked);
            reveal(Connection::state_view);
        }
        let ack = Ack {
            ack_number: 0,
            last_ack_seq: self.recv_buffer.received_ack_point(),
            cif: AckCif::Light,
        };
        let bytes = self.control(ControlBody::Ack(ack), now);
        self.packets_since_ack = 0;
        self.stats.acks_sent = self.stats.acks_sent.saturating_add(1);
        self.emit(bytes, now);
    }

    /// Sends a loss report.
    fn send_nak(&mut self, missing: &Vec<(SeqNumber, SeqNumber)>, now: Instant)
        requires
            old(self).wf(),
        ensures
            final(self).wf(),
            final(self)@ == old(self)@.nak_sent(recv_buffer::range_views(missing@), now@),
    {
        proof {
            reveal(ConnView::nak_sent);
            reveal(Connection::state_view);
        }
        let mut loss: Vec<LossRange> = Vec::new();
        let mut i: usize = 0;
        while i < missing.len()
            invariant
                i <= missing@.len(),
                loss@.len() == i,
                forall|k: int|
                    0 <= k < i ==> (#[trigger] loss@[k])@ == (missing@[k].0@, missing@[k].1@),
            decreases missing@.len() - i,
        {
            let (start, end) = missing[i];
            loss.push(LossRange::new(start, end));
            i += 1;
        }
        assert(loss_list::views(loss@) =~= recv_buffer::range_views(missing@));
        let bytes = self.control(ControlBody::Nak { loss }, now);
        self.stats.naks_sent = self.stats.naks_sent.saturating_add(1);
        self.last_nak = Some(now);
        self.emit(bytes, now);
    }

    // ---- timers ----

    /// The keepalive timer: sends a keepalive if nothing was sent for a period,
    /// and announces an unconfirmed key again.
    pub(crate) fn on_keepalive_timer(&mut self, now: Instant)
        requires
            old(self).wf(),
        ensures
            final(self).wf(),
            final(self)@ == old(self)@.keepalive_fired(now@),
    {
        proof {
            reveal(ConnView::keepalive_fired);
            reveal(Connection::state_view);
        }
        if self.state != State::Connected {
            return;
        }
        let period = Duration::from_nanos(KEEPALIVE_PERIOD);
        self.resend_pending_km(now);
        if !now.saturating_duration_since(self.last_sent).shorter_than(period) {
            let bytes = self.control(ControlBody::Keepalive, now);
            self.emit(bytes, now);
        }
        self.set_timer(TimerId::Keepalive, period);
    }

    /// The idle timer: gives up a peer that was silent too long; otherwise it is
    /// set for the rest of the time.
    pub(crate) fn on_peer_idle_timer(&mut self, now: Instant)
        requires
            old(self).wf(),
        ensures
            final(self).wf(),
            final(self)@ == old(self)@.peer_idle_fired(now@),
    {
        proof {
            reveal(ConnView::peer_idle_fired);
            reveal(Connection::state_view);
        }
        if self.state != State::Connected {
            return;
        }
        let idle = now.saturating_duration_since(self.last_recv_any);
        let limit = self.config.peer_idle_timeout;
        if !idle.shorter_than(limit) {
            self.state = State::Failed;
            self.clear_arq_timers();
            self.push_event(Event::Failed(ConnectionError::Timeout));
            return;
        }
        self.set_timer(TimerId::PeerIdle, limit.saturating_sub(idle));
    }

    /// Sets the retransmission timeout.
    fn arm_exp(&mut self)
        requires
            old(self).wf(),
        ensures
            final(self).wf(),
            final(self)@ == old(self)@.exp_armed(),
    {
        proof {
            reveal(ConnView::exp_armed);
            reveal(Connection::state_view);
        }
        let floor = Duration::from_nanos(MIN_EXP_INTERVAL);
        let after = floor.longer(self.rtt.rto().saturating_mul(self.exp_count));
        self.set_timer(TimerId::Exp, after);
    }

    /// Clears the periodic timers.
    pub(crate) fn clear_arq_timers(&mut self)
        requires
            old(self).wf(),
        ensures
            final(self).wf(),
            final(self)@ == old(self)@.timers_cleared(),
    {
        proof {
            reveal(ConnView::timers_cleared);
        }
        self.clear_timer(TimerId::Ack);
        self.clear_timer(TimerId::Nak);
        self.clear_timer(TimerId::Exp);
        self.clear_timer(TimerId::Tsbpd);
        self.clear_timer(TimerId::SndPacing);
        self.clear_timer(TimerId::Keepalive);
        self.clear_timer(TimerId::PeerIdle);
    }
}

/// The position of the acknowledgement with the given number.
fn ack_position(acks: &VecDeque<(u32, Instant)>, ack_number: u32) -> (r: usize)
    ensures
        r <= acks@.len(),
        r == model::ack_index(crate::connection::ack_views(acks@), ack_number),
{
    let ghost views = crate::connection::ack_views(acks@);
    let mut i: usize = 0;
    assert(views.skip(0) =~= views);
    while i < acks.len() && acks[i].0 != ack_number
        invariant
            views == crate::connection::ack_views(acks@),
            i <= acks@.len(),
            model::ack_index(views, ack_number) == i + model::ack_index(
                views.skip(i as int),
                ack_number,
            ),
        decreases acks@.len() - i,
    {
        assert(views.skip(i as int)[0].0 == acks@[i as int].0);
        assert(views.skip(i as int).skip(1) =~= views.skip(i + 1));
        i += 1;
    }
    assert(i < acks@.len() ==> views.skip(i as int)[0].0 == acks@[i as int].0);
    i
}

/// Removes the oldest `n` acknowledgements.
fn drop_acks(acks: &mut VecDeque<(u32, Instant)>, n: usize)
    requires
        n <= old(acks)@.len(),
    ensures
        final(acks)@ == old(acks)@.skip(n as int),
{
    let mut k: usize = 0;
    while k < n
        invariant
            k <= n <= old(acks)@.len(),
            acks@ == old(acks)@.skip(k as int),
        decreases n - k,
    {
        let gone = acks.pop_front();
        k += 1;
        assert(acks@ =~= old(acks)@.skip(k as int));
    }
}

/// Whether `seq` lies between `start` and `end`, on the circle.
fn in_range(seq: SeqNumber, start: SeqNumber, end: SeqNumber) -> (r: bool)
    ensures
        r == model::in_range(seq@, start@, end@),
{
    seq.offset_from(start) >= 0 && end.offset_from(seq) >= 0
}

/// Compares two lists of ranges.
fn same_ranges(a: &Vec<(SeqNumber, SeqNumber)>, b: &Vec<(SeqNumber, SeqNumber)>) -> (r: bool)
    ensures
        r == (recv_buffer::range_views(a@) == recv_buffer::range_views(b@)),
{
    let ghost va = recv_buffer::range_views(a@);
    let ghost vb = recv_buffer::range_views(b@);
    if a.len() != b.len() {
        assert(va.len() != vb.len());
        return false;
    }
    let mut i: usize = 0;
    while i < a.len()
        invariant
            a@.len() == b@.len(),
            i <= a@.len(),
            va == recv_buffer::range_views(a@),
            vb == recv_buffer::range_views(b@),
            forall|k: int| 0 <= k < i ==> va[k] == vb[k],
        decreases a@.len() - i,
    {
        let (a0, a1) = a[i];
        let (b0, b1) = b[i];
        if a0.value() != b0.value() || a1.value() != b1.value() {
            assert(va[i as int] != vb[i as int]);
            return false;
        }
        i += 1;
    }
    assert(va =~= vb);
    true
}

/// Encodes a data packet.
fn encode_data(packet: &DataPacket) -> (r: Bytes)
    ensures
        buffer::bytes_seq(r) == PacketView::Data(packet@).bytes(),
{
    let whole = Packet::Data(packet.copy());
    let mut buf = buffer::buf_new();
    whole.encode(&mut buf);
    let r = buffer::freeze(buf);
    assert(buffer::bytes_seq(r) =~= PacketView::Data(packet@).bytes());
    r
}

/// Encodes a packet that is sent again: as it was, but for its flag.
fn encode_retransmit(packet: &DataPacket) -> (r: Bytes)
    ensures
        buffer::bytes_seq(r) == PacketView::Data(
            DataView { retransmitted: true, ..packet@ },
        ).bytes(),
{
    let mut resent = packet.copy();
    resent.retransmitted = true;
    encode_data(&resent)
}

/// A span in whole microseconds, in 32 bits.
pub(crate) fn micros_u32(d: Duration) -> (r: u32)
    ensures
        r == arith::clamp_u32(d@ / 1_000),
{
    let micros: u128 = d.as_micros();
    if micros > 0xFFFF_FFFF {
        0xFFFF_FFFF
    } else {
        micros as u32
    }
}

/// A span in whole microseconds, in an `i64`.
fn micros_i64(d: Duration) -> (r: i64)
    ensures
        r == model::micros_i64(d@),
{
    let micros: u128 = d.as_micros();
    if micros > 0x7FFF_FFFF_FFFF_FFFF {
        0x7FFF_FFFF_FFFF_FFFF
    } else {
        micros as i64
    }
}

/// Shifts an instant by signed microseconds, up to the first or last there is.
fn apply_signed(at: Instant, micros: i64) -> (r: Instant)
    ensures
        r@ == model::shifted(at@, micros as int),
{
    if micros >= 0 {
        at.saturating_add(Duration::from_micros(micros as u64))
    } else {
        let back: u64 = if micros == i64::MIN {
            0x8000_0000_0000_0000
        } else {
            (-micros) as u64
        };
        at.saturating_sub(Duration::from_micros(back))
    }
}

/// Signed microseconds from one instant to another.
fn signed_micros(from: Instant, to: Instant) -> (r: i64)
    ensures
        r == model::signed_micros(from@, to@),
{
    if to.as_nanos() >= from.as_nanos() {
        let ahead: u64 = (to.as_nanos() - from.as_nanos()) / 1_000;
        ahead as i64
    } else {
        let behind: u64 = (from.as_nanos() - to.as_nanos()) / 1_000;
        -(behind as i64)
    }
}

} // verus!
