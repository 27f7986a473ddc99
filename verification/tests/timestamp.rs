use std::cmp::Ordering;

use srt_protocol::timestamp::{Timestamp, TsbpdWrap};

#[test]
fn micros_round_trip() {
    assert_eq!(Timestamp::from_micros(1234).as_micros(), 1234);
    assert_eq!(Timestamp::from_micros(0).as_micros(), 0);
    assert_eq!(Timestamp::from_micros(u32::MAX).as_micros(), u32::MAX);
}

#[test]
fn wrapping_add_wraps_at_2_pow_32() {
    assert_eq!(
        Timestamp::from_micros(10).wrapping_add_micros(5),
        Timestamp::from_micros(15)
    );
    assert_eq!(Timestamp::from_micros(Timestamp::MAX).wrapping_add_micros(1), Timestamp::from_micros(Timestamp::ZERO));
    assert_eq!(
        Timestamp::from_micros(Timestamp::MAX).wrapping_add_micros(3),
        Timestamp::from_micros(2)
    );
}

#[test]
fn wrapping_diff_basic() {
    let a = Timestamp::from_micros(200);
    let b = Timestamp::from_micros(100);
    assert_eq!(a.wrapping_diff(b), 100);
    assert_eq!(b.wrapping_diff(a), -100);
    assert_eq!(Timestamp::from_micros(Timestamp::ZERO).wrapping_diff(Timestamp::from_micros(Timestamp::ZERO)), 0);
}

#[test]
fn wrapping_diff_across_wrap() {
    // ZERO is one microsecond after MAX.
    assert_eq!(Timestamp::from_micros(Timestamp::ZERO).wrapping_diff(Timestamp::from_micros(Timestamp::MAX)), 1);
    assert_eq!(Timestamp::from_micros(Timestamp::MAX).wrapping_diff(Timestamp::from_micros(Timestamp::ZERO)), -1);
}

#[test]
fn circular_cmp_orders_across_wrap() {
    let a = Timestamp::from_micros(100);
    let b = Timestamp::from_micros(200);
    assert_eq!(a.circular_cmp(b), Ordering::Less);
    assert_eq!(b.circular_cmp(a), Ordering::Greater);
    assert_eq!(a.circular_cmp(a), Ordering::Equal);
    // Across the wrap, ZERO is *after* MAX despite being numerically smaller.
    assert_eq!(
        Timestamp::from_micros(Timestamp::ZERO).circular_cmp(Timestamp::from_micros(Timestamp::MAX)),
        Ordering::Greater
    );
    assert_eq!(Timestamp::from_micros(Timestamp::MAX).circular_cmp(Timestamp::from_micros(Timestamp::ZERO)), Ordering::Less);
}

#[test]
fn a_difference_undoes_an_advance() {
    for base in [0u32, 1_000_000, u32::MAX - 5, u32::MAX] {
        let t = Timestamp::from_micros(base);
        for delta in [0i32, 1, 10_000, i32::MAX] {
            assert_eq!(t.wrapping_add_micros(delta as u32).wrapping_diff(t), delta);
        }
    }
}

#[test]
fn a_stream_is_placed_without_a_break_across_the_wrap() {
    let first = Timestamp::from_micros(u32::MAX - 10);
    let mut wrap = TsbpdWrap::new(first);
    assert_eq!(wrap.offset_of(first), 4_294_967_285);

    let second = first.wrapping_add_micros(16);
    assert_eq!(second, Timestamp::from_micros(5));
    wrap.observe(second);
    assert_eq!(wrap.offset_of(second), 4_294_967_301);
    assert_eq!(wrap.offset_of(first), 4_294_967_285, "an older packet keeps its place");

    // A straggler does not move the reference back.
    wrap.observe(first);
    assert_eq!(wrap.offset_of(second), 4_294_967_301);

    // Steps of just under half the space, several times around.
    let mut ts = second;
    let mut place = 4_294_967_301i64;
    for _ in 0..8 {
        ts = ts.wrapping_add_micros(0x7FFF_FFFF);
        place += 0x7FFF_FFFF;
        wrap.observe(ts);
        assert_eq!(wrap.offset_of(ts), place);
    }
}
