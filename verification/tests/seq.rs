use std::cmp::Ordering;

use srt_protocol::seq::SeqNumber;

#[test]
fn new_masks_to_31_bits() {
    // The high bit is the data/control flag on the wire, never part of the
    // sequence number, so new() must drop it.
    assert_eq!(SeqNumber::new(0x8000_0000).value(), 0);
    assert_eq!(SeqNumber::new(0xFFFF_FFFF).value(), 0x7FFF_FFFF);
    assert_eq!(SeqNumber::new(42).value(), 42);
}

#[test]
fn next_increments_and_wraps() {
    assert_eq!(SeqNumber::new(0).next(), SeqNumber::new(1));
    assert_eq!(SeqNumber::new(SeqNumber::MAX).next(), SeqNumber::new(SeqNumber::ZERO));
}

#[test]
fn prev_decrements_and_wraps() {
    assert_eq!(SeqNumber::new(1).prev(), SeqNumber::new(0));
    assert_eq!(SeqNumber::new(SeqNumber::ZERO).prev(), SeqNumber::new(SeqNumber::MAX));
}

#[test]
fn next_and_prev_are_inverses() {
    for v in [0u32, 1, 100, 0x3FFF_FFFF, 0x7FFF_FFFE, 0x7FFF_FFFF] {
        let s = SeqNumber::new(v);
        assert_eq!(s.next().prev(), s);
        assert_eq!(s.prev().next(), s);
    }
}

#[test]
fn add_wraps() {
    assert_eq!(SeqNumber::new(10) + 5, SeqNumber::new(15));
    assert_eq!(SeqNumber::new(SeqNumber::MAX) + 1, SeqNumber::new(SeqNumber::ZERO));
    assert_eq!(SeqNumber::new(SeqNumber::MAX) + 3, SeqNumber::new(2));
}

#[test]
fn circular_cmp_nearby() {
    let a = SeqNumber::new(100);
    let b = SeqNumber::new(200);
    assert_eq!(a.circular_cmp(b), Ordering::Less);
    assert_eq!(b.circular_cmp(a), Ordering::Greater);
    assert_eq!(a.circular_cmp(a), Ordering::Equal);
}

#[test]
fn circular_cmp_across_wrap() {
    // 0 is MAX.next(), so it is *ahead* of MAX despite being numerically
    // smaller. This is the whole reason circular comparison exists.
    assert_eq!(
        SeqNumber::new(SeqNumber::ZERO).circular_cmp(SeqNumber::new(SeqNumber::MAX)),
        Ordering::Greater
    );
    assert_eq!(SeqNumber::new(SeqNumber::MAX).circular_cmp(SeqNumber::new(SeqNumber::ZERO)), Ordering::Less);
}

#[test]
fn offset_from_matches_steps() {
    assert_eq!(SeqNumber::new(200).offset_from(SeqNumber::new(100)), 100);
    assert_eq!(SeqNumber::new(100).offset_from(SeqNumber::new(200)), -100);
    assert_eq!(SeqNumber::new(SeqNumber::ZERO).offset_from(SeqNumber::new(SeqNumber::ZERO)), 0);
    // Across the wrap: 0 is one step ahead of MAX.
    assert_eq!(SeqNumber::new(SeqNumber::ZERO).offset_from(SeqNumber::new(SeqNumber::MAX)), 1);
    assert_eq!(SeqNumber::new(SeqNumber::MAX).offset_from(SeqNumber::new(SeqNumber::ZERO)), -1);
}

#[test]
fn advancing_twice_is_advancing_by_the_sum() {
    for v in [0u32, 5, 0x3FFF_FFFF, 0x7FFF_FFFF] {
        let s = SeqNumber::new(v);
        for (a, b) in [(1u32, 2u32), (0x7FFF_FFFF, 1), (u32::MAX, 7), (0xFFFF_0000, 0xFFFF_0000)] {
            assert_eq!((s + a) + b, s + a.wrapping_add(b));
        }
        assert_eq!(s + 1, s.next());
    }
}

#[test]
fn a_number_inside_the_window_is_found_ahead_by_its_distance() {
    for base in [0u32, 100, 0x7FFF_FFFF] {
        let b = SeqNumber::new(base);
        for delta in [1u32, 2, 0x3FFF_FFFF] {
            let ahead = b + delta;
            assert_eq!(ahead.circular_cmp(b), Ordering::Greater);
            assert_eq!(b.circular_cmp(ahead), Ordering::Less);
            assert_eq!(ahead.offset_from(b), delta as i32);
            assert_eq!(b.offset_from(ahead), -(delta as i32));
        }
        // Half the space away counts as behind.
        assert_eq!((b + 0x4000_0000).offset_from(b), -0x4000_0000);
    }
}

#[test]
fn the_offset_leads_from_one_number_to_the_other() {
    for a in [0u32, 3, 0x3FFF_FFFF, 0x4000_0000, 0x7FFF_FFFF] {
        for b in [0u32, 1, 0x4000_0001, 0x7FFF_FFFE] {
            let (a, b) = (SeqNumber::new(a), SeqNumber::new(b));
            assert_eq!(b + a.offset_from(b) as u32, a);
        }
    }
}
