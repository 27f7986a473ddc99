use srt_protocol::rtt::RttEstimator;
use srt_protocol::time::Duration;

fn ms(n: u64) -> Duration {
    Duration::from_millis(n)
}

#[test]
fn starts_at_the_spec_initial_values() {
    let est = RttEstimator::new();
    assert_eq!(est.rtt(), ms(100));
    assert_eq!(est.var(), ms(50));
}

#[test]
fn first_sample_is_assigned_directly() {
    let mut est = RttEstimator::new();
    est.sample(ms(40));
    // Not blended with the 100 ms initial: set straight to the sample.
    assert_eq!(est.rtt(), ms(40));
    assert_eq!(est.var(), ms(20));
}

#[test]
fn later_samples_blend_with_old_rtt_in_the_variance() {
    let mut est = RttEstimator::new();
    est.sample(ms(40)); // rtt=40ms, var=20ms
    est.sample(ms(80));
    // var uses the OLD rtt (40ms): |80-40| = 40ms.
    //   var = (20*3 + 40)/4 = 25 ms
    //   rtt = (40*7 + 80)/8 = 45 ms
    assert_eq!(est.var(), ms(25));
    assert_eq!(est.rtt(), ms(45));
}

#[test]
fn rto_is_rtt_plus_four_variances() {
    let mut est = RttEstimator::new();
    est.sample(ms(40));
    est.sample(ms(80)); // rtt=45ms, var=25ms
    assert_eq!(est.rto(), ms(45).saturating_add(ms(25).saturating_mul(4))); // 145 ms
}

#[test]
fn converges_to_a_steady_sample() {
    let mut est = RttEstimator::new();
    for _ in 0..100 {
        est.sample(ms(50));
    }
    assert_eq!(est.rtt(), ms(50), "RTT converges to the steady sample");
    assert_eq!(est.var(), Duration::zero(), "variance decays to zero");
}

#[test]
fn microsecond_precision_is_preserved() {
    let mut est = RttEstimator::new();
    est.sample(Duration::from_micros(12_345));
    assert_eq!(est.rtt(), Duration::from_micros(12_345));
    assert_eq!(est.var(), Duration::from_micros(6_172)); // 12345/2 truncated
}

#[test]
fn the_average_stays_between_what_it_was_and_the_sample() {
    let mut est = RttEstimator::new();
    est.sample(ms(40));
    for sample in [ms(400), ms(1), ms(90), ms(90)] {
        let before = est.rtt();
        est.sample(sample);
        let after = est.rtt();
        assert!(before.min(sample) <= after && after <= before.max(sample));
    }
}

#[test]
fn a_steady_sample_shrinks_the_variance_by_a_quarter() {
    let mut est = RttEstimator::new();
    est.sample(ms(40));
    est.sample(ms(40));
    assert_eq!(est.rtt(), ms(40));
    assert_eq!(est.var(), ms(15));
}
