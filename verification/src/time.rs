//! Time as the protocol core sees it.
//!
//! The core never reads a clock. The embedder hands in [`Instant`]s, counted in
//! nanoseconds from an origin of its own choosing, and gets [`Duration`]s back.

use vstd::prelude::*;

verus! {

/// The longest duration: `u64::MAX` seconds and 999 999 999 nanoseconds.
pub const MAX_NANOS: u128 = 18_446_744_073_709_551_615_999_999_999;

/// A span of time with nanosecond precision. Its view is the number of
/// nanoseconds.
#[derive(Debug, Clone, Copy, PartialEq, Eq, PartialOrd, Ord, Hash)]
pub struct Duration {
    nanos: u128,
}

impl View for Duration {
    type V = int;

    closed spec fn view(&self) -> int {
        self.nanos as int
    }
}

impl Duration {
    #[verifier::type_invariant]
    spec fn in_range(self) -> bool {
        self.nanos <= MAX_NANOS
    }

    /// No time at all.
    #[must_use]
    pub fn zero() -> (r: Self)
        ensures
            r@ == 0,
    {
        Duration { nanos: 0 }
    }

    /// A span of whole seconds.
    #[must_use]
    pub fn from_secs(secs: u64) -> (r: Self)
        ensures
            r@ == secs * 1_000_000_000,
    {
        Duration { nanos: secs as u128 * 1_000_000_000 }
    }

    /// A span of whole milliseconds.
    #[must_use]
    pub fn from_millis(millis: u64) -> (r: Self)
        ensures
            r@ == millis * 1_000_000,
    {
        Duration { nanos: millis as u128 * 1_000_000 }
    }

    /// A span of whole microseconds.
    #[must_use]
    pub fn from_micros(micros: u64) -> (r: Self)
        ensures
            r@ == micros * 1_000,
    {
        Duration { nanos: micros as u128 * 1_000 }
    }

    /// A span of nanoseconds.
    #[must_use]
    pub fn from_nanos(nanos: u64) -> (r: Self)
        ensures
            r@ == nanos,
    {
        Duration { nanos: nanos as u128 }
    }

    /// The number of nanoseconds.
    #[must_use]
    pub fn as_nanos(self) -> (r: u128)
        ensures
            r == self@,
            r <= MAX_NANOS,
    {
        proof {
            use_type_invariant(self);
        }
        self.nanos
    }

    /// The number of whole microseconds.
    #[must_use]
    pub fn as_micros(self) -> (r: u128)
        ensures
            r == self@ / 1_000,
            0 <= self@ <= MAX_NANOS,
    {
        proof {
            use_type_invariant(self);
        }
        self.nanos / 1_000
    }

    /// The number of whole milliseconds.
    #[must_use]
    pub fn as_millis(self) -> (r: u128)
        ensures
            r == self@ / 1_000_000,
            0 <= self@ <= MAX_NANOS,
    {
        proof {
            use_type_invariant(self);
        }
        self.nanos / 1_000_000
    }

    /// `self - other`, or nothing if `other` is longer.
    #[must_use]
    pub fn saturating_sub(self, other: Duration) -> (r: Self)
        ensures
            r@ == (if other@ > self@ { 0 } else { self@ - other@ }),
    {
        proof {
            use_type_invariant(&self);
        }
        if other.nanos > self.nanos {
            Duration { nanos: 0 }
        } else {
            Duration { nanos: self.nanos - other.nanos }
        }
    }

    /// `self + other`, or the longest duration if that is too long.
    #[must_use]
    pub fn saturating_add(self, other: Duration) -> (r: Self)
        ensures
            r@ == (if self@ + other@ > MAX_NANOS { MAX_NANOS as int } else { self@ + other@ }),
            0 <= self@ <= r@,
            0 <= other@ <= r@,
    {
        proof {
            use_type_invariant(self);
            use_type_invariant(other);
        }
        let sum: u128 = self.nanos + other.nanos;
        if sum > MAX_NANOS {
            Duration { nanos: MAX_NANOS }
        } else {
            Duration { nanos: sum }
        }
    }

    /// `n` times `self`, or the longest duration if that is too long.
    #[must_use]
    pub fn saturating_mul(self, n: u32) -> (r: Self)
        ensures
            r@ == (if self@ * n > MAX_NANOS { MAX_NANOS as int } else { self@ * n }),
    {
        proof {
            use_type_invariant(self);
            assert(0 <= self.nanos * n <= MAX_NANOS * 0xFFFF_FFFF) by (nonlinear_arith)
                requires
                    0 <= self.nanos <= MAX_NANOS,
                    0 <= n <= 0xFFFF_FFFF,
            ;
        }
        let product: u128 = self.nanos * n as u128;
        if product > MAX_NANOS {
            Duration { nanos: MAX_NANOS }
        } else {
            Duration { nanos: product }
        }
    }

    /// The `n`-th part of `self`, rounded down.
    #[must_use]
    pub fn divided_by(self, n: u32) -> (r: Self)
        requires
            n > 0,
        ensures
            r@ == self@ / (n as int),
    {
        proof {
            use_type_invariant(self);
            assert(self.nanos / (n as u128) <= self.nanos) by (nonlinear_arith)
                requires
                    n > 0,
            ;
        }
        Duration { nanos: self.nanos / n as u128 }
    }

    /// The longer of two spans.
    #[must_use]
    pub fn longer(self, other: Duration) -> (r: Self)
        ensures
            r == (if other@ > self@ { other } else { self }),
            r@ == (if other@ > self@ { other@ } else { self@ }),
    {
        if other.nanos > self.nanos {
            other
        } else {
            self
        }
    }

    /// Whether `self` is shorter than `other`.
    #[must_use]
    pub fn shorter_than(self, other: Duration) -> (r: bool)
        ensures
            r == (self@ < other@),
    {
        self.nanos < other.nanos
    }
}

/// A moment, in nanoseconds from the embedder's origin. Its view is that
/// number.
#[derive(Debug, Clone, Copy, PartialEq, Eq, PartialOrd, Ord, Hash)]
pub struct Instant {
    nanos: u64,
}

impl View for Instant {
    type V = u64;

    closed spec fn view(&self) -> u64 {
        self.nanos
    }
}

impl Instant {
    /// The moment `nanos` nanoseconds after the origin.
    #[must_use]
    pub fn from_nanos(nanos: u64) -> (r: Self)
        ensures
            r@ == nanos,
    {
        Instant { nanos }
    }

    /// The moment `micros` microseconds after the origin.
    #[must_use]
    pub fn from_micros(micros: u64) -> (r: Self)
        requires
            micros * 1_000 <= u64::MAX,
        ensures
            r@ == micros * 1_000,
    {
        Instant { nanos: micros * 1_000 }
    }

    /// Nanoseconds since the origin.
    #[must_use]
    pub fn as_nanos(self) -> (r: u64)
        ensures
            r == self@,
    {
        self.nanos
    }

    /// The time from `earlier` to `self`; zero if `self` comes first.
    #[must_use]
    pub fn saturating_duration_since(self, earlier: Instant) -> (r: Duration)
        ensures
            r@ == (if self@ >= earlier@ { self@ - earlier@ } else { 0 }),
    {
        if self.nanos >= earlier.nanos {
            Duration::from_nanos(self.nanos - earlier.nanos)
        } else {
            Duration::zero()
        }
    }

    /// The moment `d` after `self`, or the last representable one.
    #[must_use]
    pub fn saturating_add(self, d: Duration) -> (r: Self)
        ensures
            r@ == (if self@ + d@ > u64::MAX { u64::MAX as int } else { self@ + d@ }),
    {
        let nanos: u128 = d.as_nanos();
        let room: u128 = (u64::MAX - self.nanos) as u128;
        if nanos > room {
            Instant { nanos: u64::MAX }
        } else {
            Instant { nanos: self.nanos + nanos as u64 }
        }
    }

    /// The moment `d` before `self`, or the origin.
    #[must_use]
    pub fn saturating_sub(self, d: Duration) -> (r: Self)
        ensures
            r@ == (if d@ > self@ { 0 } else { self@ - d@ }),
    {
        let nanos: u128 = d.as_nanos();
        if nanos > self.nanos as u128 {
            Instant { nanos: 0 }
        } else {
            Instant { nanos: self.nanos - nanos as u64 }
        }
    }
}

} // verus!
