//! A sans-I/O core of the SRT (Secure Reliable Transport) protocol.
//!
//! The crate holds the wire formats, the handshake, the retransmission and
//! delivery rules and the encryption plumbing as pure state machines: time,
//! randomness and datagrams are handed in by the caller, and datagrams, timer
//! requests and events are handed back. Every contract is checked by Verus, but
//! for those of the wrappers around outside calls, which it believes.

pub mod arith;
pub mod buffer;
pub mod connection;
pub mod control;
pub mod crypto;
pub mod double;
pub mod drift;
pub mod error;
pub mod fec;
pub mod handshake;
pub mod layout;
pub mod listener;
pub mod live_cc;
pub mod loss_list;
pub mod packet;
pub mod rate;
pub mod recv_buffer;
pub mod rtt;
pub mod send_buffer;
pub mod seq;
pub mod stats;
pub mod time;
pub mod timestamp;
pub mod wire;
