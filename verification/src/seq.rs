//! SRT data sequence numbers.
//!
//! Data packets carry a 31-bit sequence number that wraps at `2^31`, so two of
//! them are compared *circularly*: they are taken to be less than half the space
//! apart, and whichever is ahead inside that window is the greater. Circular
//! comparison is no total order, which is why [`SeqNumber`] has no `Ord`.

use core::cmp::Ordering;
use core::ops::Add;
use vstd::prelude::*;

verus! {

/// Number of distinct sequence values, `2^31`.
pub const SEQ_COUNT: u32 = 0x8000_0000;

/// The largest forward distance that still counts as "ahead".
pub const SEQ_THRESHOLD: u32 = 0x3FFF_FFFF;

/// `a` advanced by `n` steps (backwards for a negative `n`).
pub open spec fn seq_add(a: u32, n: int) -> u32 {
    ((a + n) % 0x8000_0000) as u32
}

/// Signed circular distance from `b` to `a`.
pub open spec fn seq_offset(a: u32, b: u32) -> int {
    let forward = (a - b) % 0x8000_0000;
    if forward <= 0x3FFF_FFFF {
        forward
    } else {
        forward - 0x8000_0000
    }
}

/// A 31-bit SRT data sequence number. Its view is the number.
#[derive(Debug, Clone, Copy, PartialEq, Eq, Hash, Structural)]
pub struct SeqNumber(u32);

impl View for SeqNumber {
    type V = u32;

    closed spec fn view(&self) -> u32 {
        self.0
    }
}

impl SeqNumber {
    /// The value of the smallest sequence number.
    pub const ZERO: u32 = 0;

    /// The value of the largest sequence number, whose `next` is `ZERO`.
    pub const MAX: u32 = 0x7FFF_FFFF;

    #[verifier::type_invariant]
    spec fn in_range(self) -> bool {
        self.0 < 0x8000_0000
    }

    /// Keeps the low 31 bits of `value`, the width of the field on the wire.
    #[must_use]
    pub fn new(value: u32) -> (r: Self)
        ensures
            r@ == value % 0x8000_0000,
    {
        SeqNumber(value % SEQ_COUNT)
    }

    /// The number.
    #[must_use]
    pub fn value(self) -> (r: u32)
        ensures
            r == self@,
            r < 0x8000_0000,
    {
        proof {
            use_type_invariant(self);
        }
        self.0
    }

    /// The next sequence number.
    #[must_use]
    pub fn next(self) -> (r: Self)
        ensures
            r@ == seq_add(self@, 1),
    {
        proof {
            use_type_invariant(self);
        }
        SeqNumber((self.0 + 1) % SEQ_COUNT)
    }

    /// The previous sequence number.
    #[must_use]
    pub fn prev(self) -> (r: Self)
        ensures
            r@ == seq_add(self@, -1),
    {
        proof {
            use_type_invariant(self);
        }
        SeqNumber((self.0 + 0x7FFF_FFFF) % SEQ_COUNT)
    }

    /// Whether `self` comes before, equals, or comes after `other` circularly.
    #[must_use]
    pub fn circular_cmp(self, other: SeqNumber) -> (r: Ordering)
        ensures
            r == (if seq_offset(self@, other@) > 0 {
                Ordering::Greater
            } else if seq_offset(self@, other@) < 0 {
                Ordering::Less
            } else {
                Ordering::Equal
            }),
    {
        let offset: i32 = self.offset_from(other);
        if offset > 0 {
            Ordering::Greater
        } else if offset < 0 {
            Ordering::Less
        } else {
            Ordering::Equal
        }
    }

    /// Signed circular distance from `other` to `self`, positive if `self` is
    /// ahead.
    #[must_use]
    pub fn offset_from(self, other: SeqNumber) -> (r: i32)
        ensures
            r == seq_offset(self@, other@),
            -0x4000_0000 <= r <= 0x3FFF_FFFF,
    {
        proof {
            use_type_invariant(self);
            use_type_invariant(other);
        }
        let forward: u32 = if self.0 >= other.0 {
            self.0 - other.0
        } else {
            self.0 + (SEQ_COUNT - other.0)
        };
        if forward <= SEQ_THRESHOLD {
            forward as i32
        } else {
            forward as i32 - 0x7FFF_FFFF - 1
        }
    }
}

impl Add<u32> for SeqNumber {
    type Output = SeqNumber;

    fn add(self, n: u32) -> (r: SeqNumber)
        ensures
            r@ == seq_add(self@, n as int),
    {
        proof {
            use_type_invariant(self);
        }
        SeqNumber((self.0 + n % SEQ_COUNT) % SEQ_COUNT)
    }
}

impl vstd::std_specs::ops::AddSpecImpl<u32> for SeqNumber {
    open spec fn obeys_add_spec() -> bool {
        true
    }

    open spec fn add_req(self, n: u32) -> bool {
        true
    }

    closed spec fn add_spec(self, n: u32) -> SeqNumber {
        SeqNumber(seq_add(self.0, n as int))
    }
}

/// `next` and `prev` undo each other, also across the wrap.
pub proof fn law_next_prev_are_inverse(a: u32)
    requires
        a < SEQ_COUNT,
    ensures
        seq_add(seq_add(a, 1), -1) == a,
        seq_add(seq_add(a, -1), 1) == a,
{
}

/// Steps add up, forwards and backwards.
pub proof fn lemma_steps(a: u32, m: int, n: int)
    requires
        a < SEQ_COUNT,
    ensures
        seq_add(seq_add(a, m), n) == seq_add(a, m + n),
        seq_add(a, m) < SEQ_COUNT,
        seq_add(a, 0) == a,
{
}

/// The distance to a number `n` steps ahead, inside the comparison window.
pub proof fn lemma_offset_of_step(a: u32, n: int)
    requires
        a < SEQ_COUNT,
        -0x4000_0000 <= n <= 0x3FFF_FFFF,
    ensures
        seq_offset(seq_add(a, n), a) == n,
{
}

/// Advancing twice is advancing by the sum, also where the sum of the two steps
/// wraps around 32 bits.
pub proof fn law_add_is_additive(a: u32, m: u32, n: u32)
    requires
        a < SEQ_COUNT,
    ensures
        seq_add(seq_add(a, m as int), n as int) == seq_add(a, m + n),
        seq_add(seq_add(a, m as int), n as int) == seq_add(a, (m + n) % 0x1_0000_0000),
{
    lemma_steps(a, m as int, n as int);
    let sum = m + n;
    if sum >= 0x1_0000_0000 {
        assert(sum % 0x1_0000_0000 == sum - 0x1_0000_0000);
        assert((a + sum - 0x1_0000_0000) % 0x8000_0000 == (a + sum) % 0x8000_0000);
    }
}

/// Inside the comparison window a number `delta` steps ahead is found ahead by
/// exactly `delta`, and the way back is the negated distance.
pub proof fn law_forward_within_window(a: u32, delta: u32)
    requires
        a < SEQ_COUNT,
        1 <= delta <= SEQ_THRESHOLD,
    ensures
        seq_offset(seq_add(a, delta as int), a) == delta,
        seq_offset(a, seq_add(a, delta as int)) == -delta,
{
}

/// The distance leads from one number to the other.
pub proof fn law_offset_reaches(a: u32, b: u32)
    requires
        a < SEQ_COUNT,
        b < SEQ_COUNT,
    ensures
        seq_add(b, seq_offset(a, b)) == a,
        -0x4000_0000 <= seq_offset(a, b) <= 0x3FFF_FFFF,
        seq_offset(a, b) == 0 <==> a == b,
{
}

} // verus!
