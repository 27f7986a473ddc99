//! Live congestion control: spacing sent packets.
//!
//! The sender keeps consecutive packets at least one *send period* apart, so
//! that a packet of average size, with its headers, goes out at the configured
//! bandwidth. The average payload size follows the sent packets by an eighth of
//! their distance; the period follows the average on each acknowledgement.
//!
//! The average is a floating-point number, so each step rounds it to 53 bits.

use crate::double;
use crate::double::Double;
use crate::time::Duration;
use vstd::arithmetic::power2::{lemma2_to64, lemma_pow2_adds, pow2};
use vstd::prelude::*;

verus! {

/// Largest payload of a data packet, the initial average.
pub const MAX_PAYLOAD: u64 = 1456;

/// Bytes that IPv4, UDP and SRT headers add to a payload.
pub const WIRE_OVERHEAD: u64 = 44;

/// An eighth of a payload size, as a floating-point number.
pub open spec fn eighth(size: int) -> int {
    double::nearest(size * pow2(1074), 8)
}

/// The average after a packet of `size` bytes: seven eighths of what it was and an
/// eighth of the size, each rounded, and so their sum.
pub open spec fn next_average(average: int, size: int) -> int {
    double::nearest(double::nearest(7 * average, 8) + eighth(size), 1)
}

/// The average in whole bytes, a half rounded up.
pub open spec fn rounded(average: int) -> int {
    (average + pow2(1073)) / (pow2(1074) as int)
}

/// Microseconds that a packet of average size takes at `max_bw` bytes per
/// second.
pub open spec fn period_us(average: int, max_bw: int) -> int {
    let scaled = (rounded(average) + WIRE_OVERHEAD) * 1_000_000;
    (if scaled > u64::MAX { u64::MAX as int } else { scaled }) / max_bw
}

/// The sender's pacing state.
#[derive(Debug, Clone, Copy)]
pub struct LiveCc {
    max_bw: u64,
    average: Double,
    snd_period: Duration,
}

/// What a [`LiveCc`] holds.
pub struct LiveCcView {
    /// Bandwidth limit, bytes per second.
    pub max_bw: int,
    /// Average payload size, in units of one `2^1074`th of a byte.
    pub average: int,
    /// Minimum interval between packets, nanoseconds.
    pub snd_period: int,
}

impl LiveCcView {
    /// A pacer that has sent nothing yet.
    pub open spec fn starting(max_bw: u64) -> LiveCcView {
        LiveCcView {
            max_bw: max_bw as int,
            average: MAX_PAYLOAD * pow2(1074),
            snd_period: period_us(MAX_PAYLOAD * pow2(1074), max_bw as int) * 1_000,
        }
    }

    /// After a packet of the given payload size.
    pub open spec fn sent(self, payload_size: int) -> LiveCcView {
        LiveCcView { average: next_average(self.average, payload_size), ..self }
    }

    /// After an acknowledgement, which makes the average count.
    pub open spec fn acked(self) -> LiveCcView {
        LiveCcView { snd_period: period_us(self.average, self.max_bw) * 1_000, ..self }
    }
}

impl View for LiveCc {
    type V = LiveCcView;

    closed spec fn view(&self) -> LiveCcView {
        LiveCcView {
            max_bw: self.max_bw as int,
            average: self.average@,
            snd_period: self.snd_period@,
        }
    }
}

impl LiveCc {
    #[verifier::type_invariant]
    spec fn in_range(self) -> bool {
        &&& self.max_bw > 0
        &&& double::is_double(self.average@)
        &&& self.average@ <= double::limit()
    }

    /// A pacer for `max_bw` bytes per second.
    pub fn new(max_bw: u64) -> (r: Self)
        requires
            max_bw > 0,
        ensures
            r@ == LiveCcView::starting(max_bw),
    {
        proof {
            lemma_size_fits(MAX_PAYLOAD as int);
            double::lemma_is_double(MAX_PAYLOAD as int, 1074);
        }
        let average = Double::whole(MAX_PAYLOAD as u32);
        LiveCc { max_bw, average, snd_period: compute_period(average, max_bw) }
    }

    /// The minimum interval between consecutive packets.
    pub fn snd_period(&self) -> (r: Duration)
        ensures
            r@ == self@.snd_period,
    {
        self.snd_period
    }

    /// Folds the payload size of a sent packet into the average.
    pub fn on_packet_sent(&mut self, payload_size: usize)
        ensures
            final(self)@ == old(self)@.sent(payload_size as int),
    {
        proof {
            use_type_invariant(&*self);
        }
        proof {
            lemma_steps_fit(self.average@, payload_size as int);
        }
        let average = self.average.seven_eighths().plus(Double::eighth_of(payload_size as u64));
        *self = LiveCc { max_bw: self.max_bw, average, snd_period: self.snd_period };
    }

    /// Brings the send period up to date with the average.
    pub fn on_ack(&mut self)
        ensures
            final(self)@ == old(self)@.acked(),
    {
        proof {
            use_type_invariant(&*self);
        }
        *self = LiveCc {
            max_bw: self.max_bw,
            average: self.average,
            snd_period: compute_period(self.average, self.max_bw),
        };
    }
}

fn compute_period(average: Double, max_bw: u64) -> (r: Duration)
    requires
        max_bw > 0,
        average@ <= double::limit(),
    ensures
        r@ == period_us(average@, max_bw as int) * 1_000,
{
    let size: u128 = average.rounded() + WIRE_OVERHEAD as u128;
    let scaled: u128 = size * 1_000_000;
    let scaled: u64 = if scaled > u64::MAX as u128 {
        u64::MAX
    } else {
        scaled as u64
    };
    Duration::from_micros(scaled / max_bw)
}

proof fn lemma_size_fits(size: int)
    requires
        0 <= size <= u64::MAX,
    ensures
        0 <= size * pow2(1074) <= double::limit(),
{
    lemma2_to64();
    lemma_pow2_adds(64, 1074);
    assert(0 <= size * pow2(1074) <= 0x1_0000_0000_0000_0000 * pow2(1074)) by (nonlinear_arith)
        requires
            0 <= size <= 0x1_0000_0000_0000_0000,
            0 <= pow2(1074),
    ;
}

/// A step is the rounding of the parts in eighths.
proof fn lemma_step(average: int, size: int)
    requires
        double::is_double(average),
        0 <= size,
    ensures
        0 <= average,
        0 <= double::nearest(7 * average, 8),
        0 <= eighth(size),
        double::is_double(8 * eighth(size)),
        next_average(average, size) == double::nearest(
            8 * double::nearest(7 * average, 8) + 8 * eighth(size),
            8,
        ),
{
    double::lemma_parts_make_the_whole(average);
    double::lemma_nearest_monotone(7 * average, 7 * average, 8);
    assert(0 <= size * pow2(1074)) by (nonlinear_arith)
        requires
            0 <= size,
            0 <= pow2(1074),
    ;
    double::lemma_nearest_monotone(size * pow2(1074), size * pow2(1074), 8);
    double::lemma_nearest_is_double(size * pow2(1074), 8);
    double::lemma_times_eight(eighth(size));
    double::lemma_nearest_scaled(double::nearest(7 * average, 8) + eighth(size), 1, 8);
}

/// No step leads beyond the limit.
proof fn lemma_steps_fit(average: int, size: int)
    requires
        double::is_double(average),
        average <= double::limit(),
        0 <= size <= u64::MAX,
    ensures
        double::nearest(7 * average, 8) <= double::limit(),
        eighth(size) <= double::limit(),
        next_average(average, size) <= double::limit(),
        double::is_double(next_average(average, size)),
{
    let most = double::limit();
    let eighth_most = pow2(1135) as int;
    lemma_step(average, size);
    lemma_size_fits(size);
    double::lemma_is_double(1, 1138);
    double::lemma_is_double(1, 1135);
    lemma2_to64();
    lemma_pow2_adds(1135, 3);
    double::lemma_nearest_exact(most, 8);
    double::lemma_nearest_exact(eighth_most, 8);
    double::lemma_nearest_monotone(7 * average, 7 * most, 8);
    double::lemma_nearest_monotone(7 * most, most * 8, 8);
    double::lemma_nearest_monotone(size * pow2(1074), most, 8);
    double::lemma_parts_make_the_whole(most);
    double::lemma_nearest_monotone(
        8 * double::nearest(7 * average, 8) + 8 * eighth(size),
        8 * double::nearest(7 * most, 8) + most,
        8,
    );
    double::lemma_nearest_is_double(double::nearest(7 * average, 8) + eighth(size), 1);
}

/// The average moves toward the size of the packet just sent and never past it.
/// A size of more than 53 bits counts as the floating-point number nearest to it.
pub proof fn law_average_follows_sizes(average: int, size: int)
    requires
        double::is_double(average),
        0 <= size,
    ensures
        8 * eighth(size) <= average ==> 8 * eighth(size) <= next_average(average, size) <= average,
        8 * eighth(size) >= average ==> average <= next_average(average, size) <= 8 * eighth(size),
        size <= double::SIGNIFICAND_END ==> 8 * eighth(size) == size * pow2(1074),
{
    let goal = 8 * eighth(size);
    let part = double::nearest(7 * average, 8);
    let goal_part = double::nearest(7 * goal, 8);
    lemma_step(average, size);
    double::lemma_parts_make_the_whole(average);
    double::lemma_parts_make_the_whole(goal);
    if goal <= average {
        double::lemma_nearest_monotone(7 * goal, 7 * average, 8);
        double::lemma_nearest_monotone(8 * part + goal, 8 * part + average, 8);
        double::lemma_nearest_monotone(8 * goal_part + goal, 8 * part + goal, 8);
    }
    if goal >= average {
        double::lemma_nearest_monotone(7 * average, 7 * goal, 8);
        double::lemma_nearest_monotone(8 * part + average, 8 * part + goal, 8);
        double::lemma_nearest_monotone(8 * part + goal, 8 * goal_part + goal, 8);
    }
    if size <= double::SIGNIFICAND_END {
        lemma2_to64();
        lemma_pow2_adds(1071, 3);
        double::lemma_is_double(size, 1071);
        double::lemma_nearest_exact(size * pow2(1071), 8);
        assert(size * (pow2(1071) * 8) == (size * pow2(1071)) * 8) by (nonlinear_arith);
    }
}

/// Each packet moves the average an eighth of the way to its size, as exactly as 53 bits
/// allow.
pub proof fn law_average_moves_an_eighth_of_the_way(cc: LiveCcView, size: int)
    requires
        0 <= cc.average,
        0 <= size,
    ensures
        ({
            let goal = 7 * cc.average + size * pow2(1074);
            let slack = 3 * goal + 0x400_0000_0000_0000;
            &&& -slack <= 0x20_0000_0000_0000 * (8 * cc.sent(size).average - goal) <= slack
            &&& cc.sent(size).max_bw == cc.max_bw
            &&& cc.sent(size).snd_period == cc.snd_period
        }),
{
    let whole = size * pow2(1074);
    assert(0 <= whole) by (nonlinear_arith)
        requires
            whole == size * pow2(1074),
            0 <= size,
            0 <= pow2(1074),
    ;
    double::law_rounding_is_close(7 * cc.average, 8);
    double::law_rounding_is_close(whole, 8);
    let sum = double::nearest(7 * cc.average, 8) + eighth(size);
    double::law_rounding_is_close(sum, 1);
}

/// Packets of average size, with 44 bytes of headers, fill the bandwidth: after an
/// acknowledgement the period is the microseconds that such a packet takes, rounded down,
/// where the average counts in whole bytes.
pub proof fn law_average_packets_fill_the_bandwidth(cc: LiveCcView, bytes: int)
    requires
        0 < cc.max_bw,
        0 <= bytes,
        (bytes + 44) * 1_000_000 <= u64::MAX,
        2 * bytes * pow2(1073) - pow2(1073) <= cc.average < 2 * bytes * pow2(1073) + pow2(1073),
    ensures
        ({
            let us = cc.acked().snd_period / 1_000;
            &&& cc.acked().snd_period == us * 1_000
            &&& us * cc.max_bw <= (bytes + 44) * 1_000_000 < (us + 1) * cc.max_bw
            &&& cc.acked().average == cc.average
            &&& cc.acked().max_bw == cc.max_bw
        }),
{
    lemma2_to64();
    lemma_pow2_adds(1073, 1);
    let unit = pow2(1074) as int;
    let half = pow2(1073) as int;
    vstd::arithmetic::power2::lemma_pow2_pos(1073);
    let r = cc.average + half - bytes * unit;
    assert(2 * bytes * half == bytes * unit) by (nonlinear_arith)
        requires
            unit == half * 2,
    ;
    assert(0 <= r < unit);
    assert(cc.average + half == bytes * unit + r);
    vstd::arithmetic::div_mod::lemma_fundamental_div_mod_converse(
        cc.average + half,
        unit,
        bytes,
        r,
    );
    assert(rounded(cc.average) == bytes);
    let scaled = (bytes + 44) * 1_000_000;
    vstd::arithmetic::div_mod::lemma_fundamental_div_mod(scaled, cc.max_bw);
    let us = scaled / cc.max_bw;
    assert(us * cc.max_bw == cc.max_bw * us && (us + 1) * cc.max_bw == us * cc.max_bw + cc.max_bw)
        by (nonlinear_arith);
    assert(period_us(cc.average, cc.max_bw) == us);
}

/// A pacer starts with the largest payload, 1456 bytes, as the average, and with the
/// period that goes with it.
pub proof fn law_pacers_start_with_the_largest_payload(max_bw: u64)
    requires
        max_bw > 0,
    ensures
        LiveCcView::starting(max_bw).average == 1456 * pow2(1074),
        LiveCcView::starting(max_bw).max_bw == max_bw,
        LiveCcView::starting(max_bw).snd_period == LiveCcView::starting(max_bw).acked().snd_period,
{
}

} // verus!
