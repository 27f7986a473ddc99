//! Receiver-side rate estimation for full acknowledgements.
//!
//! Over the last sixteen packet inter-arrival intervals this estimates the
//! delivery rate and a peak rate. The delivery rate takes the median interval,
//! keeps only the samples strictly between an eighth and eight times of it, and
//! reports zero unless those are a majority.

use vstd::prelude::*;

verus! {

/// Header bytes added per packet to the byte rate.
pub const WIRE_HEADER: u64 = 44;

/// Number of samples kept.
pub const WINDOW: usize = 16;

/// The order that the median is taken in.
pub open spec fn le(a: u32, b: u32) -> bool {
    a <= b
}

/// The element in the middle of the sorted sequence.
pub open spec fn median(xs: Seq<u32>) -> u32 {
    xs.sort_by(|a: u32, b: u32| le(a, b))[xs.len() as int / 2]
}

/// Number, summed interval and summed size of the samples strictly between
/// `lower` and `upper`.
pub open spec fn tally(
    intervals: Seq<u32>,
    sizes: Seq<u32>,
    lower: int,
    upper: int,
) -> (int, int, int)
    decreases intervals.len(),
{
    if intervals.len() == 0 {
        (0, 0, 0)
    } else {
        let (count, us, bytes) = tally(intervals.drop_last(), sizes.drop_last(), lower, upper);
        if lower < intervals.last() < upper {
            (count + 1, us + intervals.last(), bytes + sizes.last())
        } else {
            (count, us, bytes)
        }
    }
}

/// `a / b` rounded up.
pub open spec fn ceil_div(a: int, b: int) -> int {
    (a + b - 1) / b
}

/// `v`, at most `u32::MAX`.
pub open spec fn capped(v: int) -> u32 {
    if v > u32::MAX {
        u32::MAX
    } else {
        v as u32
    }
}

/// Packets and bytes per second, from the given samples. Zero unless most of them
/// lie strictly between an eighth and eight times of the median interval.
pub open spec fn rate_of(intervals: Seq<u32>, sizes: Seq<u32>) -> (u32, u32) {
    let m = median(intervals);
    let (count, us, bytes) = tally(intervals, sizes, m as int / 8, m * 8);
    if intervals.len() == 0 || m == 0 || count <= intervals.len() as int / 2 || us == 0 {
        (0, 0)
    } else {
        (
            capped(ceil_div(1_000_000 * count, us)),
            capped(ceil_div(1_000_000 * (bytes + WIRE_HEADER * count), us)),
        )
    }
}

/// The smallest positive interval, zero if there is none.
pub open spec fn shortest(intervals: Seq<u32>) -> u32
    decreases intervals.len(),
{
    if intervals.len() == 0 {
        0
    } else {
        let rest = shortest(intervals.drop_last());
        let last = intervals.last();
        if last > 0 && (rest == 0 || last < rest) {
            last
        } else {
            rest
        }
    }
}

/// The rate that the shortest interval amounts to, packets per second.
pub open spec fn peak_of(intervals: Seq<u32>) -> u32 {
    let us = shortest(intervals);
    if us == 0 {
        0
    } else {
        capped(ceil_div(1_000_000, us as int))
    }
}

/// A sliding-window estimator of the delivery rate.
#[derive(Debug, Clone, Copy)]
pub struct RateEstimator {
    intervals: [u32; 16],
    sizes: [u32; 16],
    pos: usize,
    filled: usize,
}

/// What a [`RateEstimator`] holds.
#[verifier::ext_equal]
pub struct RateView {
    /// The kept intervals, microseconds, in ring order.
    pub intervals: Seq<u32>,
    /// The payload sizes that go with the intervals, bytes.
    pub sizes: Seq<u32>,
    /// The place in the ring that the next sample takes.
    pub pos: int,
}

impl RateView {
    /// No samples.
    pub open spec fn empty() -> RateView {
        RateView { intervals: Seq::empty(), sizes: Seq::empty(), pos: 0 }
    }

    /// One more sample. Once the window is full the oldest sample gives way.
    pub open spec fn recorded(self, interval_us: u32, payload: u32) -> RateView {
        if self.intervals.len() < WINDOW {
            RateView {
                intervals: self.intervals.push(interval_us),
                sizes: self.sizes.push(payload),
                pos: (self.pos + 1) % 16,
            }
        } else {
            RateView {
                intervals: self.intervals.update(self.pos, interval_us),
                sizes: self.sizes.update(self.pos, payload),
                pos: (self.pos + 1) % 16,
            }
        }
    }
}

impl View for RateEstimator {
    type V = RateView;

    closed spec fn view(&self) -> RateView {
        RateView {
            intervals: self.intervals@.take(self.filled as int),
            sizes: self.sizes@.take(self.filled as int),
            pos: self.pos as int,
        }
    }
}

impl RateEstimator {
    #[verifier::type_invariant]
    spec fn in_range(self) -> bool {
        &&& self.pos < WINDOW
        &&& self.filled <= WINDOW
        &&& self.filled < WINDOW ==> self.pos == self.filled
    }

    /// An estimator without samples.
    pub fn new() -> (r: Self)
        ensures
            r@ == RateView::empty(),
    {
        let r = RateEstimator { intervals: [0u32; 16], sizes: [0u32; 16], pos: 0, filled: 0 };
        assert(r@ =~= RateView::empty());
        r
    }

    /// Records a received packet: the gap since the previous arrival, and the
    /// size of its payload. Once the window is full the oldest sample gives way.
    pub fn record(&mut self, interval_us: u32, payload: u32)
        ensures
            final(self)@ == old(self)@.recorded(interval_us, payload),
    {
        proof {
            use_type_invariant(&*self);
        }
        let mut intervals = self.intervals;
        let mut sizes = self.sizes;
        intervals[self.pos] = interval_us;
        sizes[self.pos] = payload;
        let filled: usize = if self.filled < WINDOW {
            self.filled + 1
        } else {
            WINDOW
        };
        *self = RateEstimator { intervals, sizes, pos: (self.pos + 1) % WINDOW, filled };
        assert(self@ =~= old(self)@.recorded(interval_us, payload));
    }

    /// The delivery rate as packets and bytes per second.
    pub fn delivery_rate(&self) -> (r: (u32, u32))
        ensures
            r == rate_of(self@.intervals, self@.sizes),
    {
        proof {
            use_type_invariant(self);
        }
        let n: usize = self.filled;
        if n == 0 {
            return (0, 0);
        }
        let ghost xs = self@.intervals;
        let ghost ys = self@.sizes;
        let mid: u32 = self.median_interval();
        if mid == 0 {
            return (0, 0);
        }
        let lower: u64 = mid as u64 / 8;
        let upper: u64 = mid as u64 * 8;
        let mut sum_us: u64 = 0;
        let mut count: u64 = 0;
        let mut bytes: u64 = 0;
        let mut i: usize = 0;
        assert(xs.take(0) =~= Seq::<u32>::empty());
        while i < n
            invariant
                i <= n <= 16,
                n == self.filled,
                xs == self@.intervals,
                ys == self@.sizes,
                (count as int, sum_us as int, bytes as int) == tally(
                    xs.take(i as int),
                    ys.take(i as int),
                    lower as int,
                    upper as int,
                ),
                count <= i,
                sum_us <= i * 0xFFFF_FFFF,
                bytes <= i * 0xFFFF_FFFF,
            decreases n - i,
        {
            let v: u32 = self.intervals[i];
            proof {
                assert(xs.take(i + 1).drop_last() =~= xs.take(i as int));
                assert(ys.take(i + 1).drop_last() =~= ys.take(i as int));
                assert(xs.take(i + 1).last() == v);
            }
            if v as u64 > lower && (v as u64) < upper {
                sum_us = sum_us + v as u64;
                count = count + 1;
                bytes = bytes + self.sizes[i] as u64;
            }
            i += 1;
        }
        assert(xs.take(n as int) =~= xs);
        assert(ys.take(n as int) =~= ys);
        if count <= n as u64 / 2 || sum_us == 0 {
            return (0, 0);
        }
        let total: u64 = bytes + WIRE_HEADER * count;
        (
            clamp_u32(div_ceil(1_000_000 * count, sum_us)),
            clamp_u32(div_ceil(1_000_000 * total, sum_us)),
        )
    }

    /// The median of the kept intervals.
    fn median_interval(&self) -> (r: u32)
        requires
            self@.intervals.len() > 0,
        ensures
            r == median(self@.intervals),
    {
        proof {
            use_type_invariant(self);
        }
        let ghost xs = self@.intervals;
        let ghost order = |a: u32, b: u32| le(a, b);
        let n: usize = self.filled;
        let mut sorted: Vec<u32> = Vec::new();
        let mut i: usize = 0;
        assert(xs.take(0) =~= sorted@);
        while i < n
            invariant
                i <= n <= 16,
                n == self.filled,
                xs == self@.intervals,
                sorted@.len() == i,
                forall|a: int, b: int| 0 <= a < b < i ==> sorted@[a] <= sorted@[b],
                sorted@.to_multiset() == xs.take(i as int).to_multiset(),
            decreases n - i,
        {
            let v: u32 = self.intervals[i];
            let mut j: usize = 0;
            while j < i && sorted[j] <= v
                invariant
                    j <= i,
                    sorted@.len() == i,
                    forall|a: int| 0 <= a < j ==> sorted@[a] <= v,
                decreases i - j,
            {
                j += 1;
            }
            let ghost before = sorted@;
            sorted.insert(j, v);
            proof {
                assert(xs.take(i + 1) =~= xs.take(i as int).push(v));
                xs.take(i as int).to_multiset_ensures();
                vstd::seq_lib::to_multiset_insert(before, j as int, v);
            }
            i += 1;
        }
        proof {
            assert(xs.take(n as int) =~= xs);
            xs.lemma_sort_by_ensures(order);
            let canonical = xs.sort_by(order);
            assert(vstd::relations::sorted_by(sorted@, order));
            vstd::seq_lib::lemma_sorted_unique(sorted@, canonical, order);
        }
        sorted[n / 2]
    }

    /// The fastest arrival in the window, packets per second.
    pub fn peak_rate(&self) -> (r: u32)
        ensures
            r == peak_of(self@.intervals),
    {
        proof {
            use_type_invariant(self);
        }
        let ghost xs = self@.intervals;
        let mut best: u32 = 0;
        let mut i: usize = 0;
        assert(xs.take(0) =~= Seq::<u32>::empty());
        while i < self.filled
            invariant
                i <= self.filled <= 16,
                xs == self@.intervals,
                best == shortest(xs.take(i as int)),
            decreases self.filled - i,
        {
            let v: u32 = self.intervals[i];
            proof {
                assert(xs.take(i + 1).drop_last() =~= xs.take(i as int));
                assert(xs.take(i + 1).last() == v);
            }
            if v > 0 && (best == 0 || v < best) {
                best = v;
            }
            i += 1;
        }
        assert(xs.take(self.filled as int) =~= xs);
        if best == 0 {
            0
        } else {
            clamp_u32(div_ceil(1_000_000, best as u64))
        }
    }
}

/// `a / b` rounded up.
fn div_ceil(a: u64, b: u64) -> (r: u64)
    requires
        b > 0,
        a + b <= u64::MAX,
    ensures
        r == ceil_div(a as int, b as int),
{
    (a + (b - 1)) / b
}

fn clamp_u32(v: u64) -> (r: u32)
    ensures
        r == capped(v as int),
{
    if v > u32::MAX as u64 {
        u32::MAX
    } else {
        v as u32
    }
}

impl RateView {
    /// After a run of samples, each an interval and a size.
    pub open spec fn recorded_all(self, samples: Seq<(u32, u32)>) -> RateView
        decreases samples.len(),
    {
        if samples.len() == 0 {
            self
        } else {
            self.recorded_all(samples.drop_last()).recorded(samples.last().0, samples.last().1)
        }
    }
}

/// The window holds the last sixteen samples, each interval beside its size, or all of
/// them while they are fewer.
pub proof fn law_window_holds_the_last_sixteen(samples: Seq<(u32, u32)>)
    ensures
        ({
            let w = RateView::empty().recorded_all(samples);
            let n = samples.len() as int;
            &&& w.intervals.len() == (if n < 16 {
                n
            } else {
                16
            })
            &&& w.sizes.len() == w.intervals.len()
            &&& w.pos == n % 16
            &&& forall|k: int|
                0 <= k < n && n - 16 <= k ==> w.intervals[k % 16] == (#[trigger] samples[k]).0
                    && w.sizes[k % 16] == samples[k].1
        }),
    decreases samples.len(),
{
    let n = samples.len() as int;
    if n > 0 {
        let rest = samples.drop_last();
        law_window_holds_the_last_sixteen(rest);
        let before = RateView::empty().recorded_all(rest);
        let w = RateView::empty().recorded_all(samples);
        assert forall|k: int| 0 <= k < n && n - 16 <= k implies w.intervals[k % 16] == (
        #[trigger] samples[k]).0 && w.sizes[k % 16] == samples[k].1 by {
            if k < n - 1 {
                assert(rest[k] == samples[k]);
                assert(k % 16 != (n - 1) % 16);
            }
        }
    }
}

/// How many of the intervals are `us`.
pub open spec fn how_many(intervals: Seq<u32>, us: u32) -> int
    decreases intervals.len(),
{
    if intervals.len() == 0 {
        0
    } else {
        how_many(intervals.drop_last(), us) + (if intervals.last() == us {
            1int
        } else {
            0
        })
    }
}

proof fn lemma_how_many(intervals: Seq<u32>, us: u32)
    ensures
        how_many(intervals, us) == intervals.to_multiset().count(us),
        0 <= how_many(intervals, us) <= intervals.len(),
    decreases intervals.len(),
{
    intervals.to_multiset_ensures();
    if intervals.len() > 0 {
        let rest = intervals.drop_last();
        lemma_how_many(rest, us);
        rest.to_multiset_ensures();
        assert(rest.push(intervals.last()) =~= intervals);
    }
}

/// Where the first `a` elements differ from `us`, at most the others are `us`.
proof fn lemma_front_differs(s: Seq<u32>, us: u32, a: int)
    requires
        0 <= a <= s.len(),
        forall|i: int| 0 <= i < a ==> (#[trigger] s[i]) != us,
    ensures
        how_many(s, us) <= s.len() - a,
    decreases s.len(),
{
    if s.len() > 0 {
        let rest = s.drop_last();
        if a == s.len() {
            assert(s[a - 1] != us);
            assert forall|i: int| 0 <= i < a - 1 implies (#[trigger] rest[i]) != us by {
                assert(rest[i] == s[i]);
            }
            lemma_front_differs(rest, us, a - 1);
        } else {
            assert forall|i: int| 0 <= i < a implies (#[trigger] rest[i]) != us by {
                assert(rest[i] == s[i]);
            }
            lemma_front_differs(rest, us, a);
        }
    }
}

/// Where the elements from `a` on differ from `us`, at most those before are `us`.
proof fn lemma_back_differs(s: Seq<u32>, us: u32, a: int)
    requires
        0 <= a <= s.len(),
        forall|i: int| a <= i < s.len() ==> (#[trigger] s[i]) != us,
    ensures
        how_many(s, us) <= a,
    decreases s.len(),
{
    lemma_how_many(s, us);
    if a < s.len() {
        let rest = s.drop_last();
        assert(s[s.len() - 1] != us);
        assert forall|i: int| a <= i < rest.len() implies (#[trigger] rest[i]) != us by {
            assert(rest[i] == s[i]);
        }
        lemma_back_differs(rest, us, a);
    }
}

/// What most of the intervals are is their median.
proof fn lemma_majority_is_the_median(intervals: Seq<u32>, us: u32)
    requires
        2 * how_many(intervals, us) > intervals.len(),
    ensures
        median(intervals) == us,
{
    let order = |a: u32, b: u32| le(a, b);
    intervals.lemma_sort_by_ensures(order);
    let sorted = intervals.sort_by(order);
    let n = intervals.len() as int;
    let mid = n / 2;
    intervals.to_multiset_ensures();
    sorted.to_multiset_ensures();
    lemma_how_many(intervals, us);
    lemma_how_many(sorted, us);
    assert(sorted.len() == n);
    if sorted[mid] < us {
        assert forall|i: int| 0 <= i < mid + 1 implies (#[trigger] sorted[i]) != us by {
            if i < mid {
                assert(order(sorted[i], sorted[mid]));
            }
        }
        lemma_front_differs(sorted, us, mid + 1);
    } else if sorted[mid] > us {
        assert forall|i: int| mid <= i < sorted.len() implies (#[trigger] sorted[i]) != us by {
            if i > mid {
                assert(order(sorted[mid], sorted[i]));
            }
        }
        lemma_back_differs(sorted, us, mid);
    }
}

proof fn lemma_tally(intervals: Seq<u32>, sizes: Seq<u32>, us: u32, size: u32)
    requires
        us > 0,
        sizes.len() == intervals.len(),
        forall|i: int|
            0 <= i < intervals.len() ==> (#[trigger] intervals[i]) == us && sizes[i] == size
                || intervals[i] <= us / 8 || intervals[i] >= us * 8,
    ensures
        ({
            let k = how_many(intervals, us);
            tally(intervals, sizes, us as int / 8, us * 8) == (k, k * us, k * size)
        }),
    decreases intervals.len(),
{
    if intervals.len() > 0 {
        let xs = intervals.drop_last();
        let ys = sizes.drop_last();
        assert forall|i: int| 0 <= i < xs.len() implies (#[trigger] xs[i]) == us && ys[i] == size
            || xs[i] <= us / 8 || xs[i] >= us * 8 by {
            assert(xs[i] == intervals[i]);
            assert(ys[i] == sizes[i]);
        }
        lemma_tally(xs, ys, us, size);
        let k = how_many(xs, us);
        assert(intervals[intervals.len() - 1] == intervals.last());
        assert((k + 1) * us == k * us + us && (k + 1) * size == k * size + size)
            by (nonlinear_arith);
    }
}

/// Where most packets come a steady interval apart and all have one size, the rates are
/// the packets and the bytes, with 44 of headers, per second, rounded up; what comes
/// eight times as late or eight times as soon does not count.
pub proof fn law_rates_are_those_of_the_steady_packets(
    intervals: Seq<u32>,
    sizes: Seq<u32>,
    us: u32,
    size: u32,
)
    requires
        us > 0,
        sizes.len() == intervals.len(),
        2 * how_many(intervals, us) > intervals.len(),
        forall|i: int|
            0 <= i < intervals.len() ==> (#[trigger] intervals[i]) == us && sizes[i] == size
                || intervals[i] <= us / 8 || intervals[i] >= us * 8,
        1_000_000 * (size + 44) < 0xFFFF_FFFF * us,
    ensures
        ({
            let (packets, bytes) = rate_of(intervals, sizes);
            &&& 1_000_000 <= packets * us < 1_000_000 + us
            &&& 1_000_000 * (size + 44) <= bytes * us < 1_000_000 * (size + 44) + us
        }),
{
    let k = how_many(intervals, us);
    lemma_majority_is_the_median(intervals, us);
    lemma_tally(intervals, sizes, us, size);
    assert(k * us > 0) by (nonlinear_arith)
        requires
            k > 0,
            us > 0,
    ;
    assert(k * size + WIRE_HEADER * k == k * (size + 44)) by (nonlinear_arith);
    lemma_ceil(1_000_000, us as int, k);
    lemma_ceil(1_000_000 * (size + 44), us as int, k);
    assert(1_000_000 * (k * (size + 44)) == k * (1_000_000 * (size + 44))) by (nonlinear_arith);
    assert(1_000_000 * k == k * 1_000_000);
}

/// A quotient rounded up does not depend on how it is written.
proof fn lemma_ceil(a: int, b: int, k: int)
    requires
        0 < b,
        0 < k,
        0 <= a < 0xFFFF_FFFF * b,
    ensures
        a <= ceil_div(k * a, k * b) * b < a + b,
        0 <= ceil_div(k * a, k * b) <= 0xFFFF_FFFF,
{
    let d = k * b;
    let x = k * a + d - 1;
    let q = ceil_div(k * a, d);
    assert(d > 0) by (nonlinear_arith)
        requires
            d == k * b,
            0 < b,
            0 < k,
    ;
    vstd::arithmetic::div_mod::lemma_fundamental_div_mod(x, d);
    assert(q == x / d);
    assert(d * q <= k * a + d - 1 < d * q + d);
    assert(a <= q * b < a + b) by (nonlinear_arith)
        requires
            d == k * b,
            0 < b,
            0 < k,
            d * q <= k * a + d - 1,
            k * a + d - 1 < d * q + d,
    ;
    assert(0 <= q) by (nonlinear_arith)
        requires
            0 <= a,
            a <= q * b,
            0 < b,
    ;
    assert(q <= 0xFFFF_FFFF) by (nonlinear_arith)
        requires
            q * b < a + b,
            a < 0xFFFF_FFFF * b,
            0 < b,
    ;
}

proof fn lemma_shortest(intervals: Seq<u32>)
    ensures
        forall|i: int|
            0 <= i < intervals.len() ==> (#[trigger] intervals[i]) == 0 || 0 < shortest(intervals)
                <= intervals[i],
        shortest(intervals) > 0 ==> intervals.contains(shortest(intervals)),
    decreases intervals.len(),
{
    if intervals.len() > 0 {
        let rest = intervals.drop_last();
        lemma_shortest(rest);
        assert forall|i: int| 0 <= i < intervals.len() implies (#[trigger] intervals[i]) == 0 || 0
            < shortest(intervals) <= intervals[i] by {
            if i < rest.len() {
                assert(rest[i] == intervals[i]);
            }
        }
        if shortest(intervals) > 0 {
            if shortest(intervals) == intervals.last() {
                assert(intervals[intervals.len() - 1] == shortest(intervals));
            } else {
                let j = choose|j: int| 0 <= j < rest.len() && rest[j] == shortest(rest);
                assert(intervals[j] == shortest(intervals));
            }
        }
    }
}

/// The peak rate is that of the two packets that came closest one behind the other, in
/// packets per second rounded up; none that came together counts.
pub proof fn law_peak_is_the_rate_of_the_closest_packets(intervals: Seq<u32>, i: int)
    requires
        0 <= i < intervals.len(),
        intervals[i] > 0,
        forall|j: int|
            0 <= j < intervals.len() ==> (#[trigger] intervals[j]) == 0 || intervals[i]
                <= intervals[j],
    ensures
        1_000_000 <= peak_of(intervals) * intervals[i] < 1_000_000 + intervals[i],
{
    lemma_shortest(intervals);
    let us = shortest(intervals);
    assert(us == intervals[i]);
    lemma_ceil(1_000_000, us as int, 1);
    assert(1 * 1_000_000 == 1_000_000int && 1 * us == us);
}

} // verus!
