use srt_protocol::double::Double;
use srt_protocol::live_cc::{LiveCc, WIRE_OVERHEAD};
use srt_protocol::time::Duration;

#[test]
fn initial_period_from_the_max_payload() {
    // MAX_BW chosen so (1456 + 44) bytes take exactly 1 ms: 1500 B / 1 ms.
    let cc = LiveCc::new(1_500_000);
    assert_eq!(cc.snd_period(), Duration::from_millis(1));
}

#[test]
fn period_scales_inversely_with_bandwidth() {
    let slow = LiveCc::new(1_500_000);
    let fast = LiveCc::new(3_000_000); // twice the bandwidth
    assert_eq!(fast.snd_period(), slow.snd_period().divided_by(2));
}

#[test]
fn average_payload_decays_toward_sent_sizes() {
    let mut cc = LiveCc::new(1_500_000);
    // Feed many small packets; the average drops toward the small size, so the
    // recomputed period shrinks well below the initial 1 ms.
    for _ in 0..100 {
        cc.on_packet_sent(100);
    }
    cc.on_ack();
    // avg -> ~100, pkt_size -> ~144 bytes -> period ~144/1500 ms < 200 us.
    assert!(
        cc.snd_period() < Duration::from_micros(200),
        "period followed the smaller payloads, got {:?}",
        cc.snd_period()
    );
}

#[test]
fn send_period_updates_only_on_ack() {
    let mut cc = LiveCc::new(1_500_000);
    let before = cc.snd_period();
    for _ in 0..50 {
        cc.on_packet_sent(100); // changes the average, not yet the period
    }
    assert_eq!(cc.snd_period(), before, "period is steady until an ACK");
    cc.on_ack();
    assert!(cc.snd_period() < before, "the ACK applies the new average");
}

#[test]
fn one_eighth_step_after_a_single_sample() {
    let mut cc = LiveCc::new(1_500_000);
    // avg starts at 1456; one 0-byte sample -> 7/8 * 1456 = 1274; pkt 1318 bytes.
    cc.on_packet_sent(0);
    cc.on_ack();
    // 1318 * 1e6 / 1_500_000 = 878 us.
    assert_eq!(cc.snd_period(), Duration::from_micros(878));
}

#[test]
fn the_average_follows_the_sizes_without_overshooting() {
    // 1456 bytes, then 7/8 * 1456 + 1/8 * 656 = 1356 bytes, and 44 bytes of
    // headers.
    let mut cc = LiveCc::new(1_000_000);
    assert_eq!(cc.snd_period(), Duration::from_micros(1500));
    cc.on_packet_sent(656);
    cc.on_ack();
    assert_eq!(cc.snd_period(), Duration::from_micros(1400));
    for _ in 0..200 {
        cc.on_packet_sent(656);
        cc.on_ack();
        assert!(cc.snd_period() >= Duration::from_micros(700));
    }
    assert_eq!(cc.snd_period(), Duration::from_micros(700));
}

#[test]
fn the_average_is_rounded_to_53_bits_at_each_step() {
    let sizes = [
        621, 581, 1203, 1022, 1034, 805, 1206, 70, 983, 497, 827, 848, 1361, 354, 751, 1123, 657,
        658, 645, 646, 650, 649, 646, 644, 649, 643, 650, 643,
    ];
    let mut cc = LiveCc::new(1_000_000);
    for size in sizes {
        cc.on_packet_sent(size);
    }
    cc.on_ack();
    // Just above 700.5 bytes, by less than a 2^39th.
    assert_eq!(cc.snd_period(), Duration::from_micros(701 + WIRE_OVERHEAD));
}

#[test]
fn the_average_is_that_of_floating_point_numbers() {
    let mut state: u64 = 0x9E37_79B9_7F4A_7C15;
    for round in 0..40 {
        let mut cc = LiveCc::new(1_000_000);
        let mut average = 1456.0f64;
        for step in 0..400 {
            state = state.wrapping_mul(6_364_136_223_846_793_005).wrapping_add(1);
            let drawn = (state >> 33) as usize;
            let size = match (round + step) % 5 {
                0 => 0,
                1 => drawn,
                _ => drawn % 1457,
            };
            cc.on_packet_sent(size);
            average = 7.0 / 8.0 * average + 1.0 / 8.0 * size as f64;
            cc.on_ack();
            let bytes = average.round() as u64 + WIRE_OVERHEAD;
            assert_eq!(cc.snd_period(), Duration::from_micros(bytes));
        }
    }
}

#[test]
fn an_average_of_nothing_vanishes_and_recovers() {
    let mut cc = LiveCc::new(1_000_000);
    let mut average = 1456.0f64;
    for _ in 0..6_000 {
        cc.on_packet_sent(0);
        average *= 0.875;
    }
    cc.on_ack();
    assert_eq!(cc.snd_period(), Duration::from_micros(WIRE_OVERHEAD));
    for _ in 0..40 {
        cc.on_packet_sent(1316);
        average = 0.875 * average + 164.5;
    }
    cc.on_ack();
    assert_eq!(cc.snd_period(), Duration::from_micros(average.round() as u64 + WIRE_OVERHEAD));
}

#[test]
fn numbers_are_rounded_from_halfway_to_the_even_one() {
    // An eighth of 2^53 + 1 lies halfway; so does that of 2^53 + 3.
    let unit = |n: u64| Double::eighth_of(n).plus(Double::eighth_of(n)).plus(
        Double::eighth_of(n).plus(Double::eighth_of(n)),
    );
    let two = |d: Double| d.plus(d);
    assert_eq!(two(unit((1 << 53) + 1)).rounded(), 1 << 53);
    assert_eq!(two(unit((1 << 53) + 3)).rounded(), (1 << 53) + 4);
    assert_eq!(Double::eighth_of(4).rounded(), 1, "a half is rounded up");
    assert_eq!(Double::eighth_of(3).rounded(), 0);
    assert_eq!(Double::whole(8).seven_eighths().rounded(), 7);
    // Far below the last bit nothing is added.
    assert_eq!(Double::whole(1).plus(Double::eighth_of(0)).rounded(), 1);
}
