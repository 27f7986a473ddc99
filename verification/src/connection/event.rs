//! What a connection hands out: events for the application, effects for the I/O
//! layer.

use crate::buffer;
use crate::connection::config::{Negotiated, NegotiatedView};
use crate::error::ConnectionError;
use crate::time::Duration;
use bytes::Bytes;
use vstd::prelude::*;

verus! {

/// An event for the application.
#[derive(Debug, Clone, PartialEq, Eq)]
#[non_exhaustive]
pub enum Event {
    /// The handshake completed.
    Connected(Negotiated),
    /// A message was delivered, in order.
    DataReceived(Bytes),
    /// The connection failed.
    Failed(ConnectionError),
    /// The connection is closed.
    Closed,
    /// The key is due for rotation: the embedder supplies `key_size` fresh random
    /// bytes.
    KeyRefreshNeeded {
        /// Number of random bytes that the new key takes.
        key_size: usize,
    },
}

/// What an [`Event`] holds.
#[verifier::ext_equal]
pub enum EventView {
    /// The handshake completed.
    Connected(NegotiatedView),
    /// A message was delivered.
    DataReceived(Seq<u8>),
    /// The connection failed.
    Failed(ConnectionError),
    /// The connection is closed.
    Closed,
    /// The key is due for rotation.
    KeyRefreshNeeded {
        /// Number of random bytes that the new key takes.
        key_size: usize,
    },
}

impl View for Event {
    type V = EventView;

    open spec fn view(&self) -> EventView {
        match *self {
            Event::Connected(n) => EventView::Connected(n@),
            Event::DataReceived(b) => EventView::DataReceived(buffer::bytes_seq(b)),
            Event::Failed(e) => EventView::Failed(e),
            Event::Closed => EventView::Closed,
            Event::KeyRefreshNeeded { key_size } => EventView::KeyRefreshNeeded { key_size },
        }
    }
}

/// An effect for the I/O layer, which owns the socket and the timers.
#[derive(Debug, Clone, PartialEq, Eq)]
#[non_exhaustive]
pub enum Output {
    /// Send this datagram to the peer.
    SendDatagram(Bytes),
    /// Arm the timer `id`, or arm it anew, to fire `after` from now.
    SetTimer {
        /// Which timer.
        id: TimerId,
        /// When it fires.
        after: Duration,
    },
    /// Cancel the timer `id`.
    ClearTimer {
        /// Which timer.
        id: TimerId,
    },
}

/// What an [`Output`] holds.
#[verifier::ext_equal]
pub enum OutputView {
    /// Send this datagram.
    SendDatagram(Seq<u8>),
    /// Arm a timer.
    SetTimer {
        /// Which timer.
        id: TimerId,
        /// When it fires, nanoseconds from now.
        after: int,
    },
    /// Cancel a timer.
    ClearTimer {
        /// Which timer.
        id: TimerId,
    },
}

impl View for Output {
    type V = OutputView;

    open spec fn view(&self) -> OutputView {
        match *self {
            Output::SendDatagram(b) => OutputView::SendDatagram(buffer::bytes_seq(b)),
            Output::SetTimer { id, after } => OutputView::SetTimer { id, after: after@ },
            Output::ClearTimer { id } => OutputView::ClearTimer { id },
        }
    }
}

/// The timers a connection uses. The I/O layer keeps one deadline per id.
#[derive(Debug, Clone, Copy, PartialEq, Eq, Hash, PartialOrd, Ord)]
#[non_exhaustive]
pub enum TimerId {
    /// Caller: resend the handshake, or give up.
    Handshake,
    /// Receiver: periodic full acknowledgement.
    Ack,
    /// Receiver: periodic loss report.
    Nak,
    /// Sender: retransmission when no acknowledgement arrives.
    Exp,
    /// Receiver: the next buffered packet is due.
    Tsbpd,
    /// Sender: the next queued packet may be sent.
    SndPacing,
    /// Sender: stop waiting for a graceful close.
    Linger,
    /// Keep an idle connection alive.
    Keepalive,
    /// Give up on a silent peer.
    PeerIdle,
}

} // verus!
