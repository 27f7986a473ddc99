//! SRT packet timestamps.
//!
//! A packet carries a 32-bit count of microseconds since the connection began.
//! It wraps every `2^32` microseconds (about 71.6 minutes), so two timestamps
//! are compared circularly, and a receiver that has to place packets on one
//! unbounded time line follows the wraps with a [`TsbpdWrap`].

use crate::arith;
use crate::arith::saturating_add;
use core::cmp::Ordering;
use vstd::prelude::*;

verus! {

/// Signed circular difference `a - b`, in `-2^31..2^31`.
pub open spec fn ts_diff(a: u32, b: u32) -> int {
    let forward = (a - b) % 0x1_0000_0000;
    if forward < 0x8000_0000 {
        forward
    } else {
        forward - 0x1_0000_0000
    }
}

/// A 32-bit SRT packet timestamp in microseconds. Its view is the count.
#[derive(Debug, Clone, Copy, PartialEq, Eq, Hash, Structural)]
pub struct Timestamp(u32);

impl View for Timestamp {
    type V = u32;

    closed spec fn view(&self) -> u32 {
        self.0
    }
}

impl Timestamp {
    /// The wire value of the moment the connection began.
    pub const ZERO: u32 = 0;

    /// The largest wire value; one microsecond later is `ZERO` again.
    pub const MAX: u32 = 0xFFFF_FFFF;

    /// The timestamp with the given wire value.
    #[must_use]
    pub fn from_micros(micros: u32) -> (r: Self)
        ensures
            r@ == micros,
    {
        Timestamp(micros)
    }

    /// The wire value.
    #[must_use]
    pub fn as_micros(self) -> (r: u32)
        ensures
            r == self@,
    {
        self.0
    }

    /// The timestamp `micros` later, wrapping at `2^32`.
    #[must_use]
    pub fn wrapping_add_micros(self, micros: u32) -> (r: Self)
        ensures
            r@ == (self@ + micros) % 0x1_0000_0000,
    {
        Timestamp(self.0.wrapping_add(micros))
    }

    /// Signed circular difference `self - other` in microseconds.
    #[must_use]
    pub fn wrapping_diff(self, other: Timestamp) -> (r: i32)
        ensures
            r == ts_diff(self@, other@),
    {
        let forward: u32 = self.0.wrapping_sub(other.0);
        if forward < 0x8000_0000 {
            forward as i32
        } else {
            -((0xFFFF_FFFF - forward) as i32) - 1
        }
    }

    /// Whether `self` comes before, equals, or comes after `other` circularly.
    #[must_use]
    pub fn circular_cmp(self, other: Timestamp) -> (r: Ordering)
        ensures
            r == (if ts_diff(self@, other@) > 0 {
                Ordering::Greater
            } else if ts_diff(self@, other@) < 0 {
                Ordering::Less
            } else {
                Ordering::Equal
            }),
    {
        let diff: i32 = self.wrapping_diff(other);
        if diff > 0 {
            Ordering::Greater
        } else if diff < 0 {
            Ordering::Less
        } else {
            Ordering::Equal
        }
    }
}

/// Advancing by `delta` inside the unambiguous window and taking the difference
/// gives `delta` back, wherever the wrap falls.
pub proof fn law_add_then_diff(base: u32, delta: u32)
    requires
        delta < 0x8000_0000,
    ensures
        ts_diff(((base + delta) % 0x1_0000_0000) as u32, base) == delta,
{
}

/// Places 32-bit timestamps on an unbounded time line.
///
/// A timestamp's place is the count of microseconds that the sender's clock
/// would show if it had no width limit. `observe` moves the reference point
/// along with the stream, so that `offset_of` stays unambiguous for timestamps
/// within half the 32-bit space of the newest one seen, however long the stream
/// runs.
#[derive(Debug, Clone, Copy, PartialEq, Eq)]
pub struct TsbpdWrap {
    reference: Timestamp,
    offset: i64,
}

/// What a [`TsbpdWrap`] holds.
pub struct WrapView {
    /// The newest timestamp observed.
    pub reference: u32,
    /// Its place on the line.
    pub offset: int,
}

impl WrapView {
    /// The place of `ts` on the line, clamped to what an `i64` can hold.
    pub open spec fn place(self, ts: u32) -> int {
        arith::clamp_i64(self.offset + ts_diff(ts, self.reference))
    }

    /// The tracker after `ts` was received: a timestamp ahead of the reference
    /// becomes the reference, one behind it changes nothing.
    pub open spec fn observed(self, ts: u32) -> WrapView {
        if ts_diff(ts, self.reference) > 0 {
            WrapView { reference: ts, offset: self.place(ts) }
        } else {
            self
        }
    }
}

impl View for TsbpdWrap {
    type V = WrapView;

    closed spec fn view(&self) -> WrapView {
        WrapView { reference: self.reference@, offset: self.offset as int }
    }
}

impl TsbpdWrap {
    #[verifier::type_invariant]
    spec fn past_the_origin(self) -> bool {
        0 <= self.offset
    }

    /// A tracker that starts in the cycle of `ts`.
    pub fn new(ts: Timestamp) -> (r: Self)
        ensures
            r@ == (WrapView { reference: ts@, offset: ts@ as int }),
    {
        TsbpdWrap { reference: ts, offset: ts.as_micros() as i64 }
    }

    /// Notes a received timestamp.
    pub fn observe(&mut self, ts: Timestamp)
        ensures
            final(self)@ == old(self)@.observed(ts@),
    {
        proof {
            use_type_invariant(&*self);
        }
        let diff: i32 = ts.wrapping_diff(self.reference);
        if diff > 0 {
            let offset: i64 = saturating_add(self.offset, diff as i64);
            *self = TsbpdWrap { reference: ts, offset };
        }
    }

    /// The place of `ts` on the line, in microseconds.
    pub fn offset_of(&self, ts: Timestamp) -> (r: i64)
        ensures
            r == self@.place(ts@),
    {
        saturating_add(self.offset, ts.wrapping_diff(self.reference) as i64)
    }
}

/// A stream whose timestamps advance by less than half the 32-bit space at a
/// time is placed without a break: each packet lies `delta` microseconds behind
/// the one before it, also across a wrap.
pub proof fn law_stream_is_placed_without_a_break(wrap: WrapView, delta: u32)
    requires
        0 < delta < 0x8000_0000,
        wrap.offset + delta <= i64::MAX,
        0 <= wrap.offset,
    ensures
        ({
            let ts = ((wrap.reference + delta) % 0x1_0000_0000) as u32;
            &&& wrap.observed(ts).reference == ts
            &&& wrap.observed(ts).offset == wrap.offset + delta
            &&& wrap.observed(ts).place(wrap.reference) == wrap.offset
        }),
{
}

/// A timestamp from behind the newest one is placed that much before it, and moves nothing.
pub proof fn law_late_timestamps_are_placed_behind(wrap: WrapView, delta: u32)
    requires
        delta < 0x8000_0000,
        delta <= wrap.offset <= i64::MAX,
    ensures
        ({
            let ts = ((wrap.reference - delta) % 0x1_0000_0000) as u32;
            &&& wrap.observed(ts) == wrap
            &&& wrap.place(ts) == wrap.offset - delta
        }),
{
}

} // verus!
