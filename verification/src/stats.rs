//! Connection statistics.

use vstd::prelude::*;

verus! {

/// A snapshot of a connection's counters, cumulative since it was established,
/// and of a few gauges.
#[derive(Debug, Clone, Copy, PartialEq, Eq)]
#[non_exhaustive]
pub struct Stats {
    /// Original data packets sent.
    pub packets_sent: u64,
    /// Original data payload bytes sent.
    pub bytes_sent: u64,
    /// Data packets retransmitted.
    pub packets_retransmitted: u64,
    /// Data payload bytes retransmitted.
    pub bytes_retransmitted: u64,
    /// Data packets accepted into the receive buffer.
    pub packets_received: u64,
    /// Data payload bytes accepted, after decryption.
    pub bytes_received: u64,
    /// Data packets the receiver gave up as too late.
    pub packets_dropped: u64,
    /// Data packets the sender gave up as too late.
    pub packets_dropped_sent: u64,
    /// Received packets refused because the receive window was full.
    pub packets_dropped_full: u64,
    /// Received packets discarded as duplicates.
    pub packets_duplicate: u64,
    /// Received packets that could not be decrypted.
    pub packets_undecryptable: u64,
    /// Lost packets rebuilt from parity.
    pub packets_recovered: u64,
    /// Smoothed round-trip time, microseconds.
    pub rtt_us: u32,
    /// Round-trip time variance, microseconds.
    pub rtt_var_us: u32,
    /// Packets sent but not yet acknowledged.
    pub flight_size: u32,
    /// Packets held in the receive buffer.
    pub recv_buffer_packets: u32,
    /// Estimated delivery rate, packets per second.
    pub recv_rate_pps: u32,
    /// Estimated delivery rate, bytes per second.
    pub recv_rate_bps: u32,
    /// Estimated link capacity, packets per second.
    pub link_capacity_pps: u32,
    /// Acknowledgements sent.
    pub acks_sent: u64,
    /// Acknowledgements received.
    pub acks_received: u64,
    /// Loss reports sent.
    pub naks_sent: u64,
    /// Loss reports received.
    pub naks_received: u64,
    /// Data packets held by the sender: in flight and waiting for the pacer.
    pub send_buffer_packets: u32,
    /// The negotiated latency, milliseconds.
    pub latency_ms: u32,
}

impl Default for Stats {
    fn default() -> (r: Self)
        ensures
            r == Self::zero(),
    {
        Stats {
            packets_sent: 0,
            bytes_sent: 0,
            packets_retransmitted: 0,
            bytes_retransmitted: 0,
            packets_received: 0,
            bytes_received: 0,
            packets_dropped: 0,
            packets_dropped_sent: 0,
            packets_dropped_full: 0,
            packets_duplicate: 0,
            packets_undecryptable: 0,
            packets_recovered: 0,
            rtt_us: 0,
            rtt_var_us: 0,
            flight_size: 0,
            recv_buffer_packets: 0,
            recv_rate_pps: 0,
            recv_rate_bps: 0,
            link_capacity_pps: 0,
            acks_sent: 0,
            acks_received: 0,
            naks_sent: 0,
            naks_received: 0,
            send_buffer_packets: 0,
            latency_ms: 0,
        }
    }
}

impl Stats {
    /// All counters at zero.
    pub open spec fn zero() -> Stats {
        Stats {
            packets_sent: 0,
            bytes_sent: 0,
            packets_retransmitted: 0,
            bytes_retransmitted: 0,
            packets_received: 0,
            bytes_received: 0,
            packets_dropped: 0,
            packets_dropped_sent: 0,
            packets_dropped_full: 0,
            packets_duplicate: 0,
            packets_undecryptable: 0,
            packets_recovered: 0,
            rtt_us: 0,
            rtt_var_us: 0,
            flight_size: 0,
            recv_buffer_packets: 0,
            recv_rate_pps: 0,
            recv_rate_bps: 0,
            link_capacity_pps: 0,
            acks_sent: 0,
            acks_received: 0,
            naks_sent: 0,
            naks_received: 0,
            send_buffer_packets: 0,
            latency_ms: 0,
        }
    }
}

} // verus!
