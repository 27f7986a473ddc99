use srt_protocol::drift::{DriftTracer, DRIFT_SPAN};

/// Feeds `n` identical samples (constant RTT, so no RTT-delta term).
fn feed(tracer: &mut DriftTracer, n: u32, observed_us: i64) {
    for _ in 0..n {
        tracer.sample(observed_us, 10_000);
    }
}

#[test]
fn starts_with_no_correction() {
    assert_eq!(DriftTracer::new().correction_us(), 0);
}

#[test]
fn holds_until_a_full_epoch_completes() {
    let mut tracer = DriftTracer::new();
    feed(&mut tracer, DRIFT_SPAN - 1, 1_000);
    assert_eq!(
        tracer.correction_us(),
        0,
        "no correction before the span fills"
    );
    feed(&mut tracer, 1, 1_000);
    assert_eq!(
        tracer.correction_us(),
        1_000,
        "applied once the span completes"
    );
}

#[test]
fn corrects_by_the_epoch_average() {
    let mut tracer = DriftTracer::new();
    // Half the samples at +2000us, half at 0 -> average +1000us.
    feed(&mut tracer, DRIFT_SPAN / 2, 2_000);
    feed(&mut tracer, DRIFT_SPAN / 2, 0);
    assert_eq!(tracer.correction_us(), 1_000);
}

#[test]
fn accumulates_across_epochs() {
    let mut tracer = DriftTracer::new();
    feed(&mut tracer, DRIFT_SPAN, 1_000);
    feed(&mut tracer, DRIFT_SPAN, 1_000);
    assert_eq!(tracer.correction_us(), 2_000, "corrections accumulate");
}

#[test]
fn handles_negative_drift() {
    let mut tracer = DriftTracer::new();
    feed(&mut tracer, DRIFT_SPAN, -1_500);
    assert_eq!(tracer.correction_us(), -1_500);
}

#[test]
fn rtt_growth_is_not_counted_as_drift() {
    let mut tracer = DriftTracer::new();
    // First sample anchors firstRtt = 10_000us with observed 0.
    tracer.sample(0, 10_000);
    // Later samples arrive 2000us "late", but RTT also grew by 4000us, so the
    // one-way delay grew ~2000us: (rtt - firstRtt)/2 = 2000 cancels it out.
    for _ in 1..DRIFT_SPAN {
        tracer.sample(2_000, 14_000);
    }
    assert_eq!(
        tracer.correction_us(),
        0,
        "a one-way delay increase must not be mistaken for clock drift"
    );
}

#[test]
fn a_span_that_is_not_complete_keeps_the_correction() {
    let mut tracer = DriftTracer::new();
    feed(&mut tracer, DRIFT_SPAN, 700);
    for _ in 1..DRIFT_SPAN {
        tracer.sample(90_000, 10_000);
        assert_eq!(tracer.correction_us(), 700);
    }
    tracer.sample(90_000, 10_000);
    assert_eq!(tracer.correction_us(), 90_700);
}

#[test]
fn the_average_is_rounded_towards_zero() {
    let mut tracer = DriftTracer::new();
    feed(&mut tracer, DRIFT_SPAN - 1, -1);
    feed(&mut tracer, 1, -2);
    assert_eq!(tracer.correction_us(), -1);
}

#[test]
fn the_averages_of_complete_spans_add_up() {
    let mut tracer = DriftTracer::new();
    // The first span: half at 1000, half at 2001, averages 1500 (and a half).
    for _ in 0..500 {
        tracer.sample(1_000, 10_000);
        tracer.sample(2_001, 10_000);
    }
    assert_eq!(tracer.correction_us(), 1_500);
    // The second: 300 late, of which 50 are half the growth of the round trip.
    for _ in 0..1_000 {
        tracer.sample(-300, 10_100);
    }
    assert_eq!(tracer.correction_us(), 1_150);
    // The third is never completed.
    for _ in 0..999 {
        tracer.sample(1_000_000, 10_000);
    }
    assert_eq!(tracer.correction_us(), 1_150);
}
