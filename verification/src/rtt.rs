//! Round-trip time estimation.
//!
//! The receiver measures the gap between sending a full acknowledgement and
//! receiving its confirmation, and smooths it. The first sample is taken as it
//! is; a later one moves the average by an eighth and the variance by a quarter
//! of its distance from the average as it was before the sample.

use crate::time::Duration;
use vstd::prelude::*;

verus! {

/// The smoothed round-trip time and its variance, in nanoseconds.
pub struct RttView {
    /// Smoothed round-trip time.
    pub rtt: int,
    /// Its variance.
    pub var: int,
    /// Whether a sample has been taken.
    pub sampled: bool,
}

/// Whole microseconds of `nanos`, at most `u64::MAX`.
pub open spec fn micros_of(nanos: int) -> int {
    if nanos / 1_000 > u64::MAX {
        u64::MAX as int
    } else {
        nanos / 1_000
    }
}

/// The distance between two numbers.
pub open spec fn distance(a: int, b: int) -> int {
    if a > b {
        a - b
    } else {
        b - a
    }
}

impl RttView {
    /// The values before any sample: 100 ms and 50 ms.
    pub open spec fn initial() -> RttView {
        RttView { rtt: 100_000_000, var: 50_000_000, sampled: false }
    }

    /// The estimate after the sample `nanos`. Averages are kept in whole
    /// microseconds.
    pub open spec fn after(self, nanos: int) -> RttView {
        let sample = micros_of(nanos);
        if !self.sampled {
            RttView { rtt: nanos, var: sample / 2 * 1_000, sampled: true }
        } else {
            let rtt = micros_of(self.rtt);
            let var = micros_of(self.var);
            RttView {
                rtt: (rtt * 7 + sample) / 8 * 1_000,
                var: (var * 3 + distance(rtt, sample)) / 4 * 1_000,
                sampled: true,
            }
        }
    }

    /// The retransmission timeout: the average plus four variances, at most the
    /// longest duration.
    pub open spec fn rto(self) -> int {
        let sum = self.rtt + 4 * self.var;
        if sum > crate::time::MAX_NANOS {
            crate::time::MAX_NANOS as int
        } else {
            sum
        }
    }
}

/// Smoothed round-trip time and its variance.
#[derive(Debug, Clone, Copy)]
pub struct RttEstimator {
    rtt: Duration,
    var: Duration,
    sampled: bool,
}

impl View for RttEstimator {
    type V = RttView;

    closed spec fn view(&self) -> RttView {
        RttView { rtt: self.rtt@, var: self.var@, sampled: self.sampled }
    }
}

/// Whole microseconds in `d`, saturating.
fn micros(d: Duration) -> (r: u64)
    ensures
        r == micros_of(d@),
{
    let us: u128 = d.as_micros();
    if us > u64::MAX as u128 {
        u64::MAX
    } else {
        us as u64
    }
}

impl RttEstimator {
    /// An estimator with no sample yet.
    pub fn new() -> (r: Self)
        ensures
            r@ == RttView::initial(),
    {
        RttEstimator {
            rtt: Duration::from_millis(100),
            var: Duration::from_millis(50),
            sampled: false,
        }
    }

    /// The smoothed round-trip time.
    pub fn rtt(&self) -> (r: Duration)
        ensures
            r@ == self@.rtt,
    {
        self.rtt
    }

    /// The variance.
    pub fn var(&self) -> (r: Duration)
        ensures
            r@ == self@.var,
    {
        self.var
    }

    /// Folds a measured round trip into the estimate.
    pub fn sample(&mut self, sample: Duration)
        ensures
            final(self)@ == old(self)@.after(sample@),
    {
        let us: u64 = micros(sample);
        if !self.sampled {
            self.rtt = sample;
            self.var = Duration::from_micros(us / 2);
            self.sampled = true;
            return;
        }
        let old_rtt: u64 = micros(self.rtt);
        let old_var: u64 = micros(self.var);
        let gap: u64 = if old_rtt > us {
            old_rtt - us
        } else {
            us - old_rtt
        };
        let var: u128 = (old_var as u128 * 3 + gap as u128) / 4;
        let rtt: u128 = (old_rtt as u128 * 7 + us as u128) / 8;
        self.rtt = Duration::from_micros(rtt as u64);
        self.var = Duration::from_micros(var as u64);
    }

    /// The retransmission timeout, `rtt + 4 * var`.
    pub fn rto(&self) -> (r: Duration)
        ensures
            r@ == self@.rto(),
    {
        self.rtt.saturating_add(self.var.saturating_mul(4))
    }
}

/// A sample equal to the average leaves the average alone and shrinks the
/// variance by a quarter.
pub proof fn law_steady_samples_settle(est: RttView, us: int)
    requires
        est.sampled,
        est.rtt == us * 1_000,
        0 <= us <= u64::MAX,
        0 <= est.var,
    ensures
        est.after(us * 1_000).rtt == est.rtt,
        est.after(us * 1_000).var == micros_of(est.var) * 3 / 4 * 1_000,
        est.after(us * 1_000).var <= est.var,
{
}

/// A smoothed average lies between the previous average and the sample.
pub proof fn law_average_stays_between(est: RttView, us: int)
    requires
        est.sampled,
        0 <= us <= u64::MAX,
        0 <= est.rtt,
    ensures
        us <= micros_of(est.rtt) ==> us * 1_000 <= est.after(us * 1_000).rtt <= micros_of(est.rtt)
            * 1_000,
        us >= micros_of(est.rtt) ==> micros_of(est.rtt) * 1_000 <= est.after(us * 1_000).rtt <= us
            * 1_000,
{
}

proof fn lemma_whole_micros(us: int)
    ensures
        us * 1_000 / 1_000 == us,
        us * 1_000 % 1_000 == 0,
{
}

/// The first sample is taken as it is, with half of it as the variance. A later one
/// moves the average an eighth of the way from where it is to the sample, and the
/// variance a quarter of the way to the distance between the two, both in whole
/// microseconds.
pub proof fn law_sample_moves_the_estimate(est: RttView, nanos: int)
    requires
        0 <= nanos <= u64::MAX,
        0 <= est.rtt <= u64::MAX,
        0 <= est.var <= u64::MAX,
    ensures
        est.after(nanos).sampled,
        !est.sampled ==> est.after(nanos).rtt == nanos && est.after(nanos).var == nanos / 1_000 / 2
            * 1_000,
        est.sampled ==> est.after(nanos).rtt % 1_000 == 0 && est.after(nanos).var % 1_000 == 0,
        est.sampled ==> 8 * (est.after(nanos).rtt / 1_000) <= 7 * (est.rtt / 1_000) + nanos / 1_000
            < 8 * (est.after(nanos).rtt / 1_000) + 8,
        est.sampled ==> 4 * (est.after(nanos).var / 1_000) <= 3 * (est.var / 1_000) + distance(
            est.rtt / 1_000,
            nanos / 1_000,
        ) < 4 * (est.after(nanos).var / 1_000) + 4,
        0 <= est.after(nanos).rtt <= u64::MAX,
        0 <= est.after(nanos).var <= u64::MAX,
{
    let rtt = est.rtt / 1_000;
    let var = est.var / 1_000;
    let sample = nanos / 1_000;
    assert(0 <= rtt <= 18_446_744_073_709_551);
    assert(0 <= var <= 18_446_744_073_709_551);
    assert(0 <= sample <= 18_446_744_073_709_551);
    if est.sampled {
        let r = (rtt * 7 + sample) / 8;
        let v = (var * 3 + distance(rtt, sample)) / 4;
        lemma_whole_micros(r);
        lemma_whole_micros(v);
        assert(est.after(nanos).rtt == r * 1_000);
        assert(est.after(nanos).var == v * 1_000);
    }
}

/// The retransmission timeout is the average and four variances, as long as that is
/// a duration.
pub proof fn law_timeout_is_the_average_and_four_variances(est: RttView)
    requires
        0 <= est.rtt,
        0 <= est.var,
        est.rtt + 4 * est.var <= u64::MAX,
    ensures
        est.rto() == est.rtt + 4 * est.var,
{
}

} // verus!
