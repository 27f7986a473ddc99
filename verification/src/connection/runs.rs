//! What holds over whole runs of a connection, whatever comes in and when.

use crate::connection::config::ConfigView;
use crate::connection::event::TimerId;
use crate::connection::message;
use crate::connection::message::FragmentView;
use crate::connection::model;
use crate::connection::model::ConnView;
use crate::connection::State;
use crate::control::{AckCif, ControlView};
use crate::fec::RecoveredView;
use crate::handshake::HandshakeView;
use crate::packet::{DataView, Encryption, PacketPosition, PacketView, SocketId};
use crate::recv_buffer;
use crate::recv_buffer::RecvView;
use crate::stats::Stats;
use vstd::prelude::*;

verus! {

/// One call on a connection.
pub enum Input {
    /// A datagram arrives.
    Datagram(Seq<u8>),
    /// A timer fires.
    Timer(TimerId),
    /// The application sends a message.
    Send(Seq<u8>),
    /// The application closes.
    Close,
    /// The application supplies a key.
    Rekey(Seq<u8>),
    /// The I/O layer fetches an output.
    FetchOutput,
    /// The application fetches an event.
    FetchEvent,
}

impl ConnView {
    /// After one call.
    pub open spec fn stepped(self, input: Input, now: u64) -> ConnView {
        match input {
            Input::Datagram(bytes) => self.fed(bytes, now),
            Input::Timer(id) => self.fired(id, now),
            Input::Send(payload) => if self.state == State::Connected && !self.closing {
                self.submitted(payload, now)
            } else {
                self
            },
            Input::Close => self.close_asked(now),
            Input::Rekey(sek) => self.rekeyed(sek, now),
            Input::FetchOutput => if self.outputs.len() > 0 {
                ConnView { outputs: self.outputs.skip(1), ..self }
            } else {
                self
            },
            Input::FetchEvent => if self.events.len() > 0 {
                ConnView { events: self.events.skip(1), ..self }
            } else {
                self
            },
        }
    }

    /// After a run of calls, each at its instant.
    pub open spec fn ran(self, inputs: Seq<(Input, u64)>) -> ConnView
        decreases inputs.len(),
    {
        if inputs.len() == 0 {
            self
        } else {
            self.ran(inputs.drop_last()).stepped(inputs.last().0, inputs.last().1)
        }
    }

    /// What takes up the receive window.
    pub open spec fn held(self) -> nat {
        recv_buffer::present(self.recv_buffer.slots) + self.events.len()
    }

    /// Every packet received is still held for delivery or waits as an event.
    pub open spec fn unfetched(self) -> bool {
        &&& self.stats.packets_received <= self.held()
        &&& self.stats.packets_received <= self.config.flow_window
        &&& self.state == State::Induction || self.state == State::Conclusion
            ==> self.stats.packets_received == 0
        &&& forall|i: int|
            0 <= i < self.recv_buffer.slots.len() ==> ((#[trigger] self.recv_buffer.slots[i])
                matches Some(p) ==> p.position == PacketPosition::Single)
    }
}

/// Whether an input neither fetches an event nor makes the receiver forget or
/// join packets: data comes in messages of one packet, and the peer gives up on
/// none.
pub open spec fn plain_input(input: Input) -> bool {
    match input {
        Input::FetchEvent => false,
        Input::Datagram(bytes) => match PacketView::of_bytes(bytes) {
            Ok(PacketView::Data(p)) => p.position == PacketPosition::Single,
            Ok(PacketView::Control { body: ControlView::DropReq { .. }, .. }) => false,
            _ => true,
        },
        _ => true,
    }
}

/// The receiver is as it was, but for events raised.
spec fn receiver_kept(a: ConnView, b: ConnView) -> bool {
    &&& b.recv_buffer == a.recv_buffer
    &&& b.stats.packets_received == a.stats.packets_received
    &&& b.events.len() >= a.events.len()
    &&& b.config == a.config
    &&& b.state == a.state || b.state == State::Failed
}

proof fn lemma_sent_keeps(s: ConnView, f: FragmentView, now: u64)
    ensures
        receiver_kept(s, s.sent(f, now)),
{
    reveal(ConnView::sent);
    reveal(ConnView::sent_now);
    reveal(ConnView::accounted);
    reveal(ConnView::rotated);
    reveal(ConnView::kept);
    reveal(ConnView::parity_sent);
    reveal(ConnView::exp_armed);
}

proof fn lemma_sent_all_keeps(s: ConnView, fs: Seq<FragmentView>, now: u64)
    ensures
        receiver_kept(s, s.sent_all(fs, now)),
    decreases fs.len(),
{
    reveal(ConnView::sent_all);
    if fs.len() > 0 {
        lemma_sent_all_keeps(s, fs.drop_last(), now);
        lemma_sent_keeps(s.sent_all(fs.drop_last(), now), fs.last(), now);
    }
}

proof fn lemma_released_due_keeps(s: ConnView, released: nat, period: int, now: u64)
    ensures
        receiver_kept(s, s.released_due(released, period, now).0),
    decreases model::MAX_PACE_BURST - released,
{
    reveal(ConnView::released_due);
    reveal(ConnView::releases);
    if s.releases(released, now) {
        reveal(ConnView::released_one);
        reveal(ConnView::slot_used);
        lemma_sent_keeps(
            ConnView { send_queue: s.send_queue.skip(1), ..s },
            s.send_queue[0],
            now,
        );
        lemma_released_due_keeps(s.released_one(period, now), released + 1, period, now);
    }
}

proof fn lemma_shut_down_keeps(s: ConnView, now: u64)
    ensures
        receiver_kept(s, s.shut_down(now)),
        receiver_kept(s, s.closed_if_drained(now)),
{
    reveal(ConnView::shut_down);
    reveal(ConnView::timers_cleared);
    reveal(ConnView::closed_if_drained);
}

proof fn lemma_paced_keeps(s: ConnView, now: u64)
    ensures
        receiver_kept(s, s.paced(now)),
{
    reveal(ConnView::paced);
    if let Some(cc) = s.live_cc {
        let (t, released) = s.released_due(0, cc.snd_period, now);
        lemma_released_due_keeps(s, 0, cc.snd_period, now);
        reveal(ConnView::rescheduled);
        let moved = ConnView { next_send: Some(model::later(now, cc.snd_period)), ..t };
        lemma_shut_down_keeps(t.untimed(TimerId::SndPacing), now);
        lemma_shut_down_keeps(moved.untimed(TimerId::SndPacing), now);
    }
}

proof fn lemma_late_dropped_keeps(s: ConnView, now: u64)
    ensures
        receiver_kept(s, s.late_dropped(now)),
{
    reveal(ConnView::late_dropped);
    reveal(ConnView::shed);
}

proof fn lemma_resent_keeps(s: ConnView, first: u32, k: nat, start: u32, end: u32, now: u64)
    ensures
        receiver_kept(s, s.resent_from(first, k, start, end, now)),
    decreases k,
{
    reveal(ConnView::resent_from);
    reveal(ConnView::resent_if_due);
    reveal(ConnView::resent_at);
    if k > 0 {
        lemma_resent_keeps(s, first, (k - 1) as nat, start, end, now);
    }
}

proof fn lemma_retransmitted_keeps(s: ConnView, start: u32, end: u32, now: u64)
    ensures
        receiver_kept(s, s.retransmitted(start, end, now)),
{
    reveal(ConnView::retransmitted);
    if s.send_buffer.len() > 0 {
        let first = s.send_buffer[0].packet.seq;
        let last = s.send_buffer.last().packet.seq;
        lemma_resent_keeps(s, first, ((last - first) % 0x8000_0000 + 1) as nat, start, end, now);
    }
}

proof fn lemma_retransmitted_all_keeps(s: ConnView, loss: Seq<(u32, u32)>, now: u64)
    ensures
        receiver_kept(s, s.retransmitted_all(loss, now)),
    decreases loss.len(),
{
    reveal(ConnView::retransmitted_all);
    if loss.len() > 0 {
        lemma_retransmitted_all_keeps(s, loss.drop_last(), now);
        lemma_retransmitted_keeps(
            s.retransmitted_all(loss.drop_last(), now),
            loss.last().0,
            loss.last().1,
            now,
        );
    }
}

/// The calls of the sending side leave the receiver alone.
proof fn lemma_sender_keeps(s: ConnView, payload: Seq<u8>, sek: Seq<u8>, now: u64)
    ensures
        receiver_kept(s, s.submitted(payload, now)),
        receiver_kept(s, s.close_asked(now)),
        receiver_kept(s, s.rekeyed(sek, now)),
{
    reveal(ConnView::submitted);
    let fs = message::fragments_of(payload, s.max_payload(), s.next_message);
    let t = ConnView { next_message: model::following_message(s.next_message), ..s };
    lemma_sent_all_keeps(t, fs, now);
    lemma_paced_keeps(ConnView { send_queue: t.send_queue + fs, ..t }, now);
    reveal(ConnView::close_asked);
    lemma_shut_down_keeps(s, now);
    reveal(ConnView::rekeyed);
}

proof fn lemma_exp_fired_keeps(s: ConnView, now: u64)
    ensures
        receiver_kept(s, s.exp_fired(now)),
{
    reveal(ConnView::exp_fired);
    let t = s.late_dropped(now);
    lemma_late_dropped_keeps(s, now);
    lemma_retransmitted_keeps(
        t,
        t.send_buffer[0].packet.seq,
        t.send_buffer.last().packet.seq,
        now,
    );
    reveal(ConnView::exp_armed);
}

/// Every timer but that of delivery leaves the receiver alone.
proof fn lemma_fired_keeps(s: ConnView, id: TimerId, now: u64)
    requires
        id != TimerId::Tsbpd,
    ensures
        receiver_kept(s, s.fired(id, now)),
{
    reveal(ConnView::fired);
    match id {
        TimerId::Handshake => {
            reveal(ConnView::handshake_fired);
        },
        TimerId::Ack => {
            reveal(ConnView::ack_fired);
            reveal(ConnView::ack_noted);
        },
        TimerId::Nak => {
            reveal(ConnView::nak_fired);
            reveal(ConnView::nak_sent);
        },
        TimerId::Exp => {
            lemma_exp_fired_keeps(s, now);
        },
        TimerId::Tsbpd => {},
        TimerId::SndPacing => {
            lemma_paced_keeps(s, now);
        },
        TimerId::Linger => {
            reveal(ConnView::linger_fired);
            lemma_shut_down_keeps(s, now);
        },
        TimerId::Keepalive => {
            reveal(ConnView::keepalive_fired);
            reveal(ConnView::km_resent);
        },
        TimerId::PeerIdle => {
            reveal(ConnView::peer_idle_fired);
            reveal(ConnView::timers_cleared);
        },
    }
}

proof fn lemma_ack_heard_keeps(
    s: ConnView,
    ack_number: u32,
    last_ack_seq: u32,
    cif: AckCif,
    now: u64,
)
    ensures
        receiver_kept(s, s.ack_heard(ack_number, last_ack_seq, cif, now)),
{
    reveal(ConnView::ack_heard);
    reveal(ConnView::released);
    reveal(ConnView::exp_restarted);
    reveal(ConnView::exp_armed);
    let a = s.released(last_ack_seq, cif);
    lemma_late_dropped_keeps(a, now);
    lemma_shut_down_keeps(a.late_dropped(now).exp_restarted(), now);
}

proof fn lemma_nak_heard_keeps(s: ConnView, loss: Seq<(u32, u32)>, now: u64)
    ensures
        receiver_kept(s, s.nak_heard(loss, now)),
{
    reveal(ConnView::nak_heard);
    let t = ConnView {
        stats: Stats {
            naks_received: model::bump(s.stats.naks_received, 1),
            ..s.stats
        },
        ..s
    };
    lemma_late_dropped_keeps(t, now);
    lemma_retransmitted_all_keeps(t.late_dropped(now), loss, now);
}

/// Handing over a packet that is a message of its own trades a slot for an event.
proof fn lemma_delivered_holds(s: ConnView, now: u64)
    requires
        s.unfetched(),
    ensures
        s.delivered(now).unfetched(),
        s.delivered(now).held() == s.held(),
        s.delivered(now).config == s.config,
        s.delivered(now).state == s.state,
    decreases s.recv_buffer.slots.len(),
{
    reveal(ConnView::delivered);
    recv_buffer::lemma_first_present(s.recv_buffer.slots);
    if let Some(p) = s.recv_buffer.next() {
        if s.play_time(p.timestamp) is Some && s.play_time(p.timestamp)->0 <= now {
            recv_buffer::lemma_popped_holds_one_less(s.recv_buffer);
            reveal(ConnView::played);
            reveal(ConnView::handed);
            lemma_delivered_holds(s.played(), now);
        }
    }
}

proof fn lemma_flushed_holds(s: ConnView)
    requires
        s.unfetched(),
    ensures
        s.flushed().unfetched(),
        s.flushed().config == s.config,
        s.flushed().state == s.state,
    decreases s.recv_buffer.slots.len(),
{
    reveal(ConnView::flushed);
    recv_buffer::lemma_first_present(s.recv_buffer.slots);
    let slots = s.recv_buffer.slots;
    if slots.len() > 0 && slots[0] is Some {
        recv_buffer::lemma_popped_holds_one_less(s.recv_buffer);
        reveal(ConnView::handed);
        lemma_flushed_holds(
            ConnView { recv_buffer: s.recv_buffer.popped(), ..s }.handed(slots[0]->0),
        );
    }
}

proof fn lemma_stored_counts(s: ConnView, p: DataView, buffer: RecvView, now: u64)
    ensures
        ({
            let t = s.stored(p, buffer, now);
            &&& t.recv_buffer == buffer
            &&& t.events == s.events
            &&& t.config == s.config
            &&& t.state == s.state
            &&& t.stats.packets_received == model::bump(s.stats.packets_received, 1)
        }),
{
    reveal(ConnView::stored);
    reveal(ConnView::buffered);
    reveal(ConnView::reorder_tracked);
    reveal(ConnView::rate_tracked);
    reveal(ConnView::anchored);
    reveal(ConnView::drift_tracked);
}

proof fn lemma_inserted_holds(s: ConnView, p: DataView, now: u64)
    requires
        s.unfetched(),
        s.state == State::Connected,
        p.position == PacketPosition::Single,
    ensures
        s.inserted(p, now).unfetched(),
        s.inserted(p, now).config == s.config,
        s.inserted(p, now).state == s.state,
{
    reveal(ConnView::inserted);
    reveal(ConnView::available);
    reveal(ConnView::full_counted);
    reveal(ConnView::undecryptable_counted);
    reveal(ConnView::duplicate_counted);
    if s.available() > 0 && s.clear_payload(p) is Some {
        let q = DataView { payload: s.clear_payload(p)->0, ..p };
        if let Some(buffer) = s.recv_buffer.inserted(q) {
            recv_buffer::lemma_inserted_holds_one_more(s.recv_buffer, q);
            lemma_stored_counts(s, q, buffer, now);
            let t = s.stored(q, buffer, now);
            assert(t.unfetched()) by {
                assert forall|i: int| 0 <= i < buffer.slots.len() implies ((
                #[trigger] buffer.slots[i]) matches Some(h) ==> h.position
                    == PacketPosition::Single) by {
                    if buffer.slots[i] is Some && buffer.slots[i] != Some(q) {
                        assert(buffer.slots[i] == s.recv_buffer.slots[i]);
                    }
                }
            }
            lemma_delivered_holds(t, now);
            reveal(ConnView::arrival_counted);
            reveal(ConnView::light_acked);
            reveal(ConnView::loss_checked);
            reveal(ConnView::nak_sent);
        }
    }
}

proof fn lemma_injected_all_holds(s: ConnView, rs: Seq<RecoveredView>, now: u64)
    requires
        s.unfetched(),
        s.state == State::Connected,
    ensures
        s.injected_all(rs, now).unfetched(),
        s.injected_all(rs, now).config == s.config,
        s.injected_all(rs, now).state == s.state,
    decreases rs.len(),
{
    reveal(ConnView::injected_all);
    if rs.len() > 0 {
        let r = rs.last();
        let t = s.injected_all(rs.drop_last(), now);
        lemma_injected_all_holds(s, rs.drop_last(), now);
        reveal(ConnView::injected);
        if let Ok(encryption) = Encryption::of_bits(r.flags as int) {
            lemma_inserted_holds(t.rebuilt_counted(), t.rebuilt_packet(r, encryption), now);
        }
    }
}

proof fn lemma_data_heard_holds(s: ConnView, p: DataView, now: u64)
    requires
        s.unfetched(),
        s.state == State::Connected,
        p.position == PacketPosition::Single,
    ensures
        s.data_heard(p, now).unfetched(),
        s.data_heard(p, now).config == s.config,
        s.data_heard(p, now).state == s.state,
{
    reveal(ConnView::data_heard);
    match s.fec_recv {
        None => {
            lemma_inserted_holds(s, p, now);
        },
        Some(fec) => if p.message_number == 0 {
            let t = ConnView {
                fec_recv: Some(fec.after_parity(p.seq, p.payload, p.timestamp)),
                ..s
            };
            lemma_injected_all_holds(t, fec.from_parity(p.seq, p.payload, p.timestamp), now);
        } else {
            let t = ConnView {
                fec_recv: Some(fec.after_data(p.seq, model::parity_fields(p))),
                ..s
            };
            lemma_inserted_holds(t, p, now);
            lemma_injected_all_holds(
                t.inserted(p, now),
                fec.from_data(p.seq, model::parity_fields(p)),
                now,
            );
        },
    }
}

proof fn lemma_heard_holds(s: ConnView, p: PacketView, now: u64)
    requires
        s.unfetched(),
        s.state == State::Connected,
        p matches PacketView::Data(d) ==> d.position == PacketPosition::Single,
        p matches PacketView::Control { body, .. } ==> !(body is DropReq),
    ensures
        s.heard(p, now).unfetched(),
        s.heard(p, now).config == s.config,
{
    reveal(ConnView::heard);
    match p {
        PacketView::Data(d) => {
            lemma_data_heard_holds(s, d, now);
        },
        PacketView::Control { body, .. } => match body {
            ControlView::Ack { ack_number, last_ack_seq, cif } => {
                lemma_ack_heard_keeps(s, ack_number, last_ack_seq, cif, now);
            },
            ControlView::Nak { loss } => {
                lemma_nak_heard_keeps(s, loss, now);
            },
            ControlView::Shutdown => {
                reveal(ConnView::peer_closed);
                reveal(ConnView::timers_cleared);
                lemma_flushed_holds(s);
            },
            _ => {
                reveal(ConnView::ackack_heard);
                reveal(ConnView::km_requested);
                reveal(ConnView::km_confirmed);
            },
        },
    }
}

proof fn lemma_fed_holds(s: ConnView, datagram: Seq<u8>, now: u64)
    requires
        s.unfetched(),
        plain_input(Input::Datagram(datagram)),
    ensures
        s.fed(datagram, now).unfetched(),
        s.fed(datagram, now).config == s.config,
{
    reveal(ConnView::fed);
    if let Ok(p) = PacketView::of_bytes(datagram) {
        match s.state {
            State::Failed => {},
            State::Connected => {
                lemma_heard_holds(ConnView { last_recv_any: now, ..s }, p, now);
            },
            State::Induction => {
                reveal(ConnView::induction_answered);
                reveal(ConnView::refused);
                reveal(ConnView::handshake_sent);
            },
            State::Conclusion => {
                reveal(ConnView::conclusion_answered);
                reveal(ConnView::refused);
                reveal(ConnView::connected);
            },
        }
    }
}

proof fn lemma_step_holds(s: ConnView, input: Input, now: u64)
    requires
        s.unfetched(),
        plain_input(input),
    ensures
        s.stepped(input, now).unfetched(),
        s.stepped(input, now).config == s.config,
{
    match input {
        Input::Datagram(bytes) => {
            lemma_fed_holds(s, bytes, now);
        },
        Input::Timer(id) => if id == TimerId::Tsbpd {
            reveal(ConnView::fired);
            lemma_delivered_holds(s, now);
        } else {
            lemma_fired_keeps(s, id, now);
        },
        Input::Send(payload) => {
            lemma_sender_keeps(s, payload, Seq::empty(), now);
        },
        Input::Close => {
            lemma_sender_keeps(s, Seq::empty(), Seq::empty(), now);
        },
        Input::Rekey(sek) => {
            lemma_sender_keeps(s, Seq::empty(), sek, now);
        },
        _ => {},
    }
}

/// A new connection has received nothing.
pub proof fn law_new_connections_have_received_nothing(
    config: ConfigView,
    id: SocketId,
    initial_seq: u32,
    hs: HandshakeView,
    salt: Seq<u8>,
    sek: Seq<u8>,
    now: u64,
)
    ensures
        ConnView::calling(config, id, initial_seq, now, salt, sek).unfetched(),
        ConnView::calling(config, id, initial_seq, now, salt, sek).config == config,
        ConnView::accepted(config, id, hs, now) matches Ok(conn) ==> conn.unfetched()
            && conn.config == config,
{
    reveal(ConnView::calling);
    reveal(ConnView::accepted);
    reveal(ConnView::fresh);
    reveal(ConnView::inducted);
    reveal(ConnView::handshake_sent);
    reveal(ConnView::connected);
}

/// A flood against an application that fetches nothing is bounded by the window:
/// whatever arrives, fires or is sent, the packets received never exceed it, as
/// long as messages are of one packet each and the peer gives up on none.
pub proof fn law_flood_is_bounded_by_the_flow_window(conn: ConnView, inputs: Seq<(Input, u64)>)
    requires
        conn.unfetched(),
        forall|i: int| 0 <= i < inputs.len() ==> plain_input((#[trigger] inputs[i]).0),
    ensures
        conn.ran(inputs).stats.packets_received <= conn.config.flow_window,
        conn.ran(inputs).unfetched(),
        conn.ran(inputs).config == conn.config,
    decreases inputs.len(),
{
    if inputs.len() > 0 {
        let rest = inputs.drop_last();
        assert forall|i: int| 0 <= i < rest.len() implies plain_input((#[trigger] rest[i]).0) by {
            assert(rest[i] == inputs[i]);
        }
        law_flood_is_bounded_by_the_flow_window(conn, rest);
        assert(plain_input(inputs[inputs.len() - 1].0));
        lemma_step_holds(conn.ran(rest), inputs.last().0, inputs.last().1);
    }
}

} // verus!
