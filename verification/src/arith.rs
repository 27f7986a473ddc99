//! Saturating arithmetic on signed 64-bit integers.

use vstd::prelude::*;

verus! {

/// `v` moved to the nearest value that an `i64` can hold.
pub open spec fn clamp_i64(v: int) -> int {
    if v > i64::MAX {
        i64::MAX as int
    } else if v < i64::MIN {
        i64::MIN as int
    } else {
        v
    }
}

/// `v` limited to the range of `u16`.
pub open spec fn clamp_u16(v: int) -> u16 {
    if v > u16::MAX {
        u16::MAX
    } else {
        v as u16
    }
}

/// `v` limited to the range of `u32`.
pub open spec fn clamp_u32(v: int) -> u32 {
    if v > u32::MAX {
        u32::MAX
    } else {
        v as u32
    }
}

/// `v` limited to the range of `u64`.
pub open spec fn clamp_u64(v: int) -> u64 {
    if v > u64::MAX {
        u64::MAX
    } else {
        v as u64
    }
}

/// A length in 16 bits.
pub fn len_u16(n: usize) -> (r: u16)
    ensures
        r == clamp_u16(n as int),
{
    if n > 0xFFFF {
        0xFFFF
    } else {
        n as u16
    }
}

/// A length in 32 bits.
pub fn len_u32(n: usize) -> (r: u32)
    ensures
        r == clamp_u32(n as int),
{
    if n > 0xFFFF_FFFF {
        0xFFFF_FFFF
    } else {
        n as u32
    }
}

/// `a + b`, clamped.
pub fn saturating_add(a: i64, b: i64) -> (r: i64)
    ensures
        r == clamp_i64(a + b),
{
    if b > 0 && a > i64::MAX - b {
        i64::MAX
    } else if b < 0 && a < i64::MIN - b {
        i64::MIN
    } else {
        a + b
    }
}

/// `a - b`, clamped.
pub fn saturating_sub(a: i64, b: i64) -> (r: i64)
    ensures
        r == clamp_i64(a - b),
{
    if b < 0 && a > i64::MAX + b {
        i64::MAX
    } else if b > 0 && a < i64::MIN + b {
        i64::MIN
    } else {
        a - b
    }
}

} // verus!
