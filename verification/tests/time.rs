use srt_protocol::time::{Duration, Instant};

#[test]
fn spans_convert_between_units() {
    assert_eq!(Duration::from_secs(2), Duration::from_millis(2_000));
    assert_eq!(Duration::from_millis(3), Duration::from_micros(3_000));
    assert_eq!(Duration::from_micros(4), Duration::from_nanos(4_000));
    assert_eq!(Duration::from_nanos(1_999).as_micros(), 1);
    assert_eq!(Duration::from_micros(1_999).as_millis(), 1);
    assert_eq!(Duration::from_secs(1).as_nanos(), 1_000_000_000);
}

#[test]
fn span_arithmetic_saturates() {
    let a = Duration::from_millis(5);
    let b = Duration::from_millis(7);
    let longest = Duration::from_secs(u64::MAX).saturating_add(Duration::from_nanos(999_999_999));
    assert_eq!(a.saturating_add(b), Duration::from_millis(12));
    assert_eq!(b.saturating_sub(a), Duration::from_millis(2));
    assert_eq!(a.saturating_sub(b), Duration::zero());
    assert_eq!(a.saturating_mul(3), Duration::from_millis(15));
    assert_eq!(longest.saturating_mul(2), longest);
    assert_eq!(longest.saturating_add(a), longest);
    assert_eq!(b.divided_by(2), Duration::from_micros(3_500));
    assert_eq!(a.longer(b), b);
    assert!(a.shorter_than(b) && !b.shorter_than(a) && !a.shorter_than(a));
}

#[test]
fn moments_saturate_at_both_ends() {
    let at = Instant::from_micros(10);
    assert_eq!(at.as_nanos(), 10_000);
    assert_eq!(at.saturating_add(Duration::from_nanos(5)), Instant::from_nanos(10_005));
    assert_eq!(at.saturating_sub(Duration::from_micros(3)), Instant::from_micros(7));
    assert_eq!(at.saturating_sub(Duration::from_secs(1)), Instant::from_nanos(0));
    assert_eq!(
        at.saturating_add(Duration::from_secs(u64::MAX)),
        Instant::from_nanos(u64::MAX)
    );
    assert_eq!(
        Instant::from_micros(12).saturating_duration_since(at),
        Duration::from_micros(2)
    );
    assert_eq!(
        at.saturating_duration_since(Instant::from_micros(12)),
        Duration::zero()
    );
}
