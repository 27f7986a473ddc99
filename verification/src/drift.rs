//! Clock-drift estimation for timestamp-based delivery.
//!
//! Sender and receiver clocks tick at slightly different rates. Each data packet
//! yields a sample: how much later it arrived than the current time base
//! expected, less half the growth of the round-trip time. Samples are averaged
//! over a fixed count, and the average is added to a running correction of the
//! time base.

use crate::arith;
use vstd::prelude::*;

verus! {

/// Number of samples averaged before a correction is applied.
pub const DRIFT_SPAN: u32 = 1000;

/// `a / b` rounded toward zero, for a positive `b`.
pub open spec fn trunc_div(a: int, b: int) -> int {
    if a >= 0 {
        a / b
    } else {
        -((-a) / b)
    }
}

fn trunc_div_exec(a: i64, b: i64) -> (r: i64)
    requires
        b > 1,
    ensures
        r == trunc_div(a as int, b as int),
{
    if a >= 0 {
        proof {
            assert(0 <= (a as int) / (b as int) <= a) by (nonlinear_arith)
                requires
                    a >= 0,
                    b > 1,
            ;
        }
        (a as u64 / b as u64) as i64
    } else {
        let magnitude: u64 = (-(a + 1)) as u64 + 1;
        proof {
            assert(magnitude == -a);
            assert(0 <= (-a) / (b as int) <= 0x4000_0000_0000_0000) by (nonlinear_arith)
                requires
                    a < 0,
                    -a <= 0x8000_0000_0000_0000,
                    b > 1,
            ;
        }
        -((magnitude / b as u64) as i64)
    }
}

/// Estimates the cumulative clock drift between sender and receiver.
#[derive(Debug, Clone, Copy)]
pub struct DriftTracer {
    sum_us: i64,
    count: u32,
    correction_us: i64,
    first_rtt_us: Option<i64>,
}

/// What a [`DriftTracer`] has gathered.
pub struct DriftView {
    /// Sum of the samples of the current span, microseconds.
    pub sum_us: int,
    /// Number of samples of the current span.
    pub count: int,
    /// The accumulated correction, microseconds.
    pub correction_us: int,
    /// The first round-trip time seen.
    pub first_rtt_us: Option<i64>,
}

impl DriftView {
    /// The tracer after one more sample. Sums that leave the 64-bit range are
    /// clamped to it.
    pub open spec fn sampled(self, observed_us: i64, rtt_us: i64) -> DriftView {
        let first = match self.first_rtt_us {
            Some(first) => first,
            None => rtt_us,
        };
        let delta = trunc_div(arith::clamp_i64(rtt_us - first), 2);
        let sum_us = arith::clamp_i64(self.sum_us + arith::clamp_i64(observed_us - delta));
        if self.count + 1 >= DRIFT_SPAN {
            DriftView {
                sum_us: 0,
                count: 0,
                correction_us: arith::clamp_i64(
                    self.correction_us + trunc_div(sum_us, self.count + 1),
                ),
                first_rtt_us: Some(first),
            }
        } else {
            DriftView { sum_us, count: self.count + 1, first_rtt_us: Some(first), ..self }
        }
    }
}

impl View for DriftTracer {
    type V = DriftView;

    closed spec fn view(&self) -> DriftView {
        DriftView {
            sum_us: self.sum_us as int,
            count: self.count as int,
            correction_us: self.correction_us as int,
            first_rtt_us: self.first_rtt_us,
        }
    }
}

impl DriftTracer {
    #[verifier::type_invariant]
    spec fn span_open(self) -> bool {
        self.count < DRIFT_SPAN
    }

    /// A tracer with no correction.
    pub fn new() -> (r: Self)
        ensures
            r@ == DriftView::starting(),
    {
        DriftTracer { sum_us: 0, count: 0, correction_us: 0, first_rtt_us: None }
    }

    /// The correction in microseconds, to be added to a packet's expected local
    /// time.
    pub fn correction_us(&self) -> (r: i64)
        ensures
            r == self@.correction_us,
    {
        self.correction_us
    }

    /// Folds in one sample: how late a packet arrived, and the current smoothed
    /// round-trip time. The first round-trip time anchors the compensation for
    /// changes of the one-way delay.
    pub fn sample(&mut self, observed_us: i64, rtt_us: i64)
        ensures
            final(self)@ == old(self)@.sampled(observed_us, rtt_us),
    {
        proof {
            use_type_invariant(&*self);
        }
        let first: i64 = match self.first_rtt_us {
            Some(first) => first,
            None => rtt_us,
        };
        let delta: i64 = trunc_div_exec(arith::saturating_sub(rtt_us, first), 2);
        let sum_us: i64 = arith::saturating_add(
            self.sum_us,
            arith::saturating_sub(observed_us, delta),
        );
        let count: u32 = self.count + 1;
        if count >= DRIFT_SPAN {
            let average: i64 = trunc_div_exec(sum_us, count as i64);
            *self = DriftTracer {
                sum_us: 0,
                count: 0,
                correction_us: arith::saturating_add(self.correction_us, average),
                first_rtt_us: Some(first),
            };
        } else {
            *self = DriftTracer {
                sum_us,
                count,
                correction_us: self.correction_us,
                first_rtt_us: Some(first),
            };
        }
    }
}

/// A one-way delay that grew by half the growth of the round-trip time is not
/// drift: such a sample leaves the span's sum as it is.
pub proof fn law_rtt_growth_is_not_drift(tracer: DriftView, first: i64, growth: i64)
    requires
        tracer.first_rtt_us == Some(first),
        tracer.count + 1 < DRIFT_SPAN,
        i64::MIN <= tracer.sum_us <= i64::MAX,
        i64::MIN <= first + growth <= i64::MAX,
    ensures
        tracer.sampled(trunc_div(growth as int, 2) as i64, (first + growth) as i64).sum_us
            == tracer.sum_us,
{
    assert(i64::MIN <= trunc_div(growth as int, 2) <= i64::MAX);
}

/// The correction changes only with the last sample of a span.
pub proof fn law_correction_holds_within_a_span(tracer: DriftView, observed_us: i64, rtt_us: i64)
    requires
        tracer.count + 1 < DRIFT_SPAN,
    ensures
        tracer.sampled(observed_us, rtt_us).correction_us == tracer.correction_us,
{
}

/// A sample without the growth of the one-way delay: half that of the round-trip
/// time since `first`.
pub open spec fn net_drift(sample: (i64, i64), first: i64) -> int {
    sample.0 - trunc_div(sample.1 - first, 2)
}

/// The sum of the samples' drift.
pub open spec fn drift_sum(samples: Seq<(i64, i64)>, first: i64) -> int
    decreases samples.len(),
{
    if samples.len() == 0 {
        0
    } else {
        drift_sum(samples.drop_last(), first) + net_drift(samples.last(), first)
    }
}

/// The averages of the first `spans` spans of samples, each rounded toward zero,
/// in all.
pub open spec fn averages(samples: Seq<(i64, i64)>, first: i64, spans: nat) -> int
    decreases spans,
{
    if spans == 0 {
        0
    } else {
        averages(samples, first, (spans - 1) as nat) + trunc_div(
            drift_sum(samples.subrange((spans - 1) * DRIFT_SPAN, spans * DRIFT_SPAN), first),
            DRIFT_SPAN as int,
        )
    }
}

/// The samples behind the last complete span.
pub open spec fn open_span(samples: Seq<(i64, i64)>) -> Seq<(i64, i64)> {
    samples.skip(samples.len() as int / DRIFT_SPAN as int * DRIFT_SPAN)
}

/// No sum on the way leaves the 64-bit range.
pub open spec fn without_overflow(samples: Seq<(i64, i64)>, first: i64) -> bool
    decreases samples.len(),
{
    samples.len() > 0 ==> {
        let rest = samples.drop_last();
        let spans = samples.len() as int / DRIFT_SPAN as int;
        &&& without_overflow(rest, first)
        &&& i64::MIN <= samples.last().1 - first <= i64::MAX
        &&& i64::MIN <= net_drift(samples.last(), first) <= i64::MAX
        &&& i64::MIN <= drift_sum(open_span(rest).push(samples.last()), first) <= i64::MAX
        &&& i64::MIN <= averages(samples, first, spans as nat) <= i64::MAX
    }
}

impl DriftView {
    /// The tracer before any sample.
    pub open spec fn starting() -> DriftView {
        DriftView { sum_us: 0, count: 0, correction_us: 0, first_rtt_us: None }
    }

    /// The tracer after a run of samples, each a lateness and a round-trip time.
    pub open spec fn sampled_all(self, samples: Seq<(i64, i64)>) -> DriftView
        decreases samples.len(),
    {
        if samples.len() == 0 {
            self
        } else {
            self.sampled_all(samples.drop_last()).sampled(samples.last().0, samples.last().1)
        }
    }
}

/// Later samples do not count for earlier spans.
proof fn lemma_averages_prefix(samples: Seq<(i64, i64)>, n: int, first: i64, spans: nat)
    requires
        spans * DRIFT_SPAN <= n <= samples.len(),
    ensures
        averages(samples.take(n), first, spans) == averages(samples, first, spans),
    decreases spans,
{
    if spans > 0 {
        lemma_averages_prefix(samples, n, first, (spans - 1) as nat);
        let from = (spans - 1) * DRIFT_SPAN;
        let to = spans * DRIFT_SPAN;
        assert(samples.take(n).subrange(from, to) =~= samples.subrange(from, to));
    }
}

/// The correction is the sum, over the complete spans of samples, of the span's
/// average rounded toward zero; the samples behind the last complete span have no
/// effect on it.
pub proof fn law_correction_is_the_sum_of_the_averages(samples: Seq<(i64, i64)>)
    requires
        samples.len() > 0 ==> without_overflow(samples, samples[0].1),
    ensures
        ({
            let tracer = DriftView::starting().sampled_all(samples);
            let spans = samples.len() as int / DRIFT_SPAN as int;
            &&& tracer.correction_us == averages(samples, samples[0].1, spans as nat)
            &&& tracer.sum_us == drift_sum(open_span(samples), samples[0].1)
            &&& tracer.count == samples.len() as int % DRIFT_SPAN as int
            &&& samples.len() > 0 ==> tracer.first_rtt_us == Some(samples[0].1)
            &&& samples.len() == 0 ==> tracer.first_rtt_us is None
        }),
    decreases samples.len(),
{
    let n = samples.len() as int;
    if n == 0 {
        assert(open_span(samples) =~= Seq::<(i64, i64)>::empty());
    } else {
        let first = samples[0].1;
        let rest = samples.drop_last();
        let spans = (n - 1) / DRIFT_SPAN as int;
        if n > 1 {
            assert(rest[0] == samples[0]);
        } else {
            assert(open_span(rest) =~= Seq::<(i64, i64)>::empty());
        }
        law_correction_is_the_sum_of_the_averages(rest);
        assert(rest =~= samples.take(n - 1));
        lemma_averages_prefix(samples, n - 1, first, spans as nat);
        let part = open_span(rest).push(samples.last());
        assert(part.drop_last() =~= open_span(rest));
        assert(part =~= samples.skip(spans * DRIFT_SPAN));
        assert(drift_sum(part, first) == drift_sum(open_span(rest), first) + net_drift(
            samples.last(),
            first,
        ));
        if n % DRIFT_SPAN as int == 0 {
            assert(n == (spans + 1) * DRIFT_SPAN);
            assert(part =~= samples.subrange(spans * DRIFT_SPAN, (spans + 1) * DRIFT_SPAN));
            assert(open_span(samples) =~= Seq::<(i64, i64)>::empty());
        } else {
            assert(open_span(samples) =~= part);
        }
    }
}

} // verus!
