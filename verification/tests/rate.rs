use srt_protocol::rate::{RateEstimator, WINDOW, WIRE_HEADER};

#[test]
fn empty_estimator_reports_zero() {
    let est = RateEstimator::new();
    assert_eq!(est.delivery_rate(), (0, 0));
    assert_eq!(est.peak_rate(), 0);
}

#[test]
fn steady_arrivals_give_the_inverse_interval_rate() {
    // 16 packets, 1 ms apart, 1000-byte payloads -> 1000 pkt/s.
    let mut est = RateEstimator::new();
    for _ in 0..WINDOW {
        est.record(1_000, 1_000);
    }
    let (pps, bps) = est.delivery_rate();
    assert_eq!(pps, 1_000, "1 ms spacing → 1000 packets/s");
    // bytes/s includes the wire header overhead per packet.
    assert_eq!(bps, 1_000 * (1_000 + u32::try_from(WIRE_HEADER).unwrap()));
}

#[test]
fn outliers_are_filtered_out() {
    // Mostly 1 ms spacing, with a couple of huge idle gaps that must be
    // rejected (outside median*8) so the rate reflects the steady stream.
    let mut est = RateEstimator::new();
    for _ in 0..WINDOW - 2 {
        est.record(1_000, 1_000);
    }
    est.record(900_000, 1_000); // a long idle gap
    est.record(800_000, 1_000);
    let (pps, _) = est.delivery_rate();
    assert_eq!(pps, 1_000, "idle gaps filtered, steady rate preserved");
}

#[test]
fn too_few_valid_samples_report_zero() {
    // Half the window is outliers -> not a stable majority -> 0.
    let mut est = RateEstimator::new();
    for _ in 0..WINDOW / 2 {
        est.record(1_000, 1_000);
    }
    for _ in 0..WINDOW / 2 {
        est.record(500_000, 1_000);
    }
    assert_eq!(est.delivery_rate(), (0, 0));
}

#[test]
fn peak_rate_tracks_the_fastest_arrival() {
    let mut est = RateEstimator::new();
    for _ in 0..WINDOW - 1 {
        est.record(1_000, 1_000); // 1 ms
    }
    est.record(100, 1_000); // one fast 100 us back-to-back
    assert_eq!(est.peak_rate(), 10_000, "100 µs → 10000 packets/s peak");
}

#[test]
fn rates_are_rounded_up() {
    let mut est = RateEstimator::new();
    for _ in 0..WINDOW {
        est.record(3_000, 500);
    }
    assert_eq!(est.delivery_rate(), (334, 181_334));
}

#[test]
fn very_slow_arrivals_are_no_outliers() {
    // 2^29 microseconds apart: eight times that is beyond 32 bits.
    let mut est = RateEstimator::new();
    for _ in 0..WINDOW {
        est.record(536_870_912, 1_000);
    }
    assert_eq!(est.delivery_rate(), (1, 2));
    let mut slowest = RateEstimator::new();
    for _ in 0..WINDOW {
        slowest.record(u32::MAX, 4_000_000);
    }
    assert_eq!(slowest.delivery_rate(), (1, 932));
}
